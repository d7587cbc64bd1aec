//! The scanner: a single forward pass over the source characters.
//!
//! The specification function `lex` is the mathematical model of one scan
//! step: given the characters of the source and a cursor, it says which
//! token or error comes next, the byte span it covers, and where the
//! cursor lands. `Tokenizer::next_token` is proved to return exactly that.

use vstd::prelude::*;
use vstd::string::StrSliceExecFns;

use crate::text::byte_offset;
use crate::text::char_is_alphabetic;
use crate::text::char_is_whitespace;
use crate::text::char_utf8_len;
use crate::text::chars_to_string;
use crate::text::collect_range;
use crate::text::is_alphabetic_char;
use crate::text::is_whitespace_char;
use crate::text::lemma_byte_offset_ge_index;
use crate::text::lemma_byte_offset_mono;
use crate::text::str_chars;
use crate::text::total_bytes;
use crate::token::outcome_view;
use crate::token::SourceLocation;
use crate::token::TokErrV;
use crate::token::TokError;
use crate::token::Token;
use crate::token::TokenV;

verus! {

/// An ASCII decimal digit.
pub open spec fn is_ascii_digit_c(c: char) -> bool {
    0x30 <= c as u32 && c as u32 <= 0x39
}

/// A character that may start an identifier: an underscore or a Unicode
/// alphabetic character.
pub open spec fn is_alpha_c(c: char) -> bool {
    c == '_' || is_alphabetic_char(c)
}

/// A character that may continue an identifier.
pub open spec fn is_alnum_c(c: char) -> bool {
    is_alpha_c(c) || is_ascii_digit_c(c)
}

/// The end of the maximal digit run starting at `i`.
pub open spec fn digits_end(s: Seq<char>, i: int) -> int
    decreases s.len() - i,
{
    if 0 <= i < s.len() && is_ascii_digit_c(s[i]) {
        digits_end(s, i + 1)
    } else {
        i
    }
}

/// The end of the maximal identifier-character run starting at `i`.
pub open spec fn alnum_end(s: Seq<char>, i: int) -> int
    decreases s.len() - i,
{
    if 0 <= i < s.len() && is_alnum_c(s[i]) {
        alnum_end(s, i + 1)
    } else {
        i
    }
}

/// The index of the first `"` at or after `i`, or the length of `s` if
/// there is none.
pub open spec fn string_close(s: Seq<char>, i: int) -> int
    decreases s.len() - i,
{
    if 0 <= i < s.len() {
        if s[i] == '"' {
            i
        } else {
            string_close(s, i + 1)
        }
    } else {
        i
    }
}

/// The index of the first `\n` at or after `i`, or the length of `s` if
/// there is none: where a line comment's body ends.
pub open spec fn line_end(s: Seq<char>, i: int) -> int
    decreases s.len() - i,
{
    if 0 <= i < s.len() {
        if s[i] == '\n' {
            i
        } else {
            line_end(s, i + 1)
        }
    } else {
        i
    }
}

/// The token for an identifier lexeme: the matching keyword, case
/// sensitively, or else an identifier carrying the lexeme itself.
pub open spec fn keyword_token(s: Seq<char>) -> TokenV {
    if s == "and"@ {
        TokenV::And
    } else if s == "class"@ {
        TokenV::Class
    } else if s == "else"@ {
        TokenV::Else
    } else if s == "false"@ {
        TokenV::False
    } else if s == "fun"@ {
        TokenV::Fun
    } else if s == "for"@ {
        TokenV::For
    } else if s == "if"@ {
        TokenV::If
    } else if s == "nil"@ {
        TokenV::Nil
    } else if s == "or"@ {
        TokenV::Or
    } else if s == "print"@ {
        TokenV::Print
    } else if s == "return"@ {
        TokenV::Return
    } else if s == "super"@ {
        TokenV::Super
    } else if s == "this"@ {
        TokenV::This
    } else if s == "true"@ {
        TokenV::True
    } else if s == "var"@ {
        TokenV::Var
    } else if s == "while"@ {
        TokenV::While
    } else {
        TokenV::Identifier(s)
    }
}

/// One scan step: the outcome, the byte span it covers, and the character
/// index where the cursor lands.
pub struct ScanStep {
    pub result: Result<TokenV, TokErrV>,
    pub offset: int,
    pub len: int,
    pub next: int,
}

/// The model of the scan. With `in_comment` false, the next token or
/// error from cursor `i`: whitespace is skipped, a `//` comment runs to
/// (not including) the next newline and is discarded, then the first
/// character classifies the token, longest match first. With `in_comment`
/// true, the cursor is inside a comment body.
pub open spec fn lex(s: Seq<char>, i: int, in_comment: bool) -> ScanStep
    recommends
        0 <= i <= s.len(),
    decreases (if i <= s.len() { s.len() - i } else { 0 }), (if in_comment { 1int } else { 0int }),
{
    if in_comment {
        if i < s.len() && s[i] != '\n' {
            lex(s, i + 1, true)
        } else {
            lex(s, i, false)
        }
    } else if i < s.len() && is_whitespace_char(s[i]) {
        lex(s, i + 1, false)
    } else if i >= s.len() {
        ScanStep {
            result: Ok(TokenV::Eof),
            offset: byte_offset(s, s.len() as int),
            len: 0,
            next: s.len() as int,
        }
    } else {
        let c = s[i];
        if c == '(' {
            ScanStep { result: Ok(TokenV::LeftParen), offset: byte_offset(s, i), len: 1, next: i + 1 }
        } else if c == ')' {
            ScanStep { result: Ok(TokenV::RightParen), offset: byte_offset(s, i), len: 1, next: i + 1 }
        } else if c == '{' {
            ScanStep { result: Ok(TokenV::LeftBrace), offset: byte_offset(s, i), len: 1, next: i + 1 }
        } else if c == '}' {
            ScanStep { result: Ok(TokenV::RightBrace), offset: byte_offset(s, i), len: 1, next: i + 1 }
        } else if c == ',' {
            ScanStep { result: Ok(TokenV::Comma), offset: byte_offset(s, i), len: 1, next: i + 1 }
        } else if c == '.' {
            ScanStep { result: Ok(TokenV::Dot), offset: byte_offset(s, i), len: 1, next: i + 1 }
        } else if c == '-' {
            ScanStep { result: Ok(TokenV::Minus), offset: byte_offset(s, i), len: 1, next: i + 1 }
        } else if c == '+' {
            ScanStep { result: Ok(TokenV::Plus), offset: byte_offset(s, i), len: 1, next: i + 1 }
        } else if c == ';' {
            ScanStep { result: Ok(TokenV::Semicolon), offset: byte_offset(s, i), len: 1, next: i + 1 }
        } else if c == '*' {
            ScanStep { result: Ok(TokenV::Star), offset: byte_offset(s, i), len: 1, next: i + 1 }
        } else if c == '!' {
            if i + 1 < s.len() && s[i + 1] == '=' {
                ScanStep { result: Ok(TokenV::BangEqual), offset: byte_offset(s, i), len: 2, next: i + 2 }
            } else {
                ScanStep { result: Ok(TokenV::Bang), offset: byte_offset(s, i), len: 1, next: i + 1 }
            }
        } else if c == '=' {
            if i + 1 < s.len() && s[i + 1] == '=' {
                ScanStep { result: Ok(TokenV::EqualEqual), offset: byte_offset(s, i), len: 2, next: i + 2 }
            } else {
                ScanStep { result: Ok(TokenV::Equal), offset: byte_offset(s, i), len: 1, next: i + 1 }
            }
        } else if c == '<' {
            if i + 1 < s.len() && s[i + 1] == '=' {
                ScanStep { result: Ok(TokenV::LessEqual), offset: byte_offset(s, i), len: 2, next: i + 2 }
            } else {
                ScanStep { result: Ok(TokenV::Less), offset: byte_offset(s, i), len: 1, next: i + 1 }
            }
        } else if c == '>' {
            if i + 1 < s.len() && s[i + 1] == '=' {
                ScanStep { result: Ok(TokenV::GreaterEqual), offset: byte_offset(s, i), len: 2, next: i + 2 }
            } else {
                ScanStep { result: Ok(TokenV::Greater), offset: byte_offset(s, i), len: 1, next: i + 1 }
            }
        } else if c == '/' {
            if i + 1 < s.len() && s[i + 1] == '/' {
                lex(s, i + 2, true)
            } else {
                ScanStep { result: Ok(TokenV::Slash), offset: byte_offset(s, i), len: 1, next: i + 1 }
            }
        } else if c == '"' {
            let close = string_close(s, i + 1);
            if close >= s.len() {
                ScanStep {
                    result: Err(TokErrV::UnterminatedString),
                    offset: byte_offset(s, i),
                    len: byte_offset(s, s.len() as int) - byte_offset(s, i),
                    next: s.len() as int,
                }
            } else {
                ScanStep {
                    result: Ok(TokenV::String(s.subrange(i + 1, close))),
                    offset: byte_offset(s, i),
                    len: byte_offset(s, close + 1) - byte_offset(s, i),
                    next: close + 1,
                }
            }
        } else if is_ascii_digit_c(c) {
            let d = digits_end(s, i + 1);
            let e = if d + 1 < s.len() && s[d] == '.' && is_ascii_digit_c(s[d + 1]) {
                digits_end(s, d + 2)
            } else {
                d
            };
            ScanStep {
                result: Ok(TokenV::Number(s.subrange(i, e))),
                offset: byte_offset(s, i),
                len: byte_offset(s, e) - byte_offset(s, i),
                next: e,
            }
        } else if is_alpha_c(c) {
            let a = alnum_end(s, i + 1);
            ScanStep {
                result: Ok(keyword_token(s.subrange(i, a))),
                offset: byte_offset(s, i),
                len: byte_offset(s, a) - byte_offset(s, i),
                next: a,
            }
        } else {
            ScanStep {
                result: Err(TokErrV::UnexpectedCharacter(c)),
                offset: byte_offset(s, i),
                len: 1,
                next: i + 1,
            }
        }
    }
}

/// The next scan step from cursor `i`, outside any comment.
pub open spec fn spec_next_token(s: Seq<char>, i: int) -> ScanStep {
    lex(s, i, false)
}

/// The scanner: the source characters and a cursor, kept both as a
/// character index and as the matching byte offset.
pub struct Tokenizer {
    chars: Vec<char>,
    pos: usize,
    byte_pos: usize,
}

impl Tokenizer {
    /// The characters of the source being scanned.
    pub closed spec fn src(&self) -> Seq<char> {
        self.chars@
    }

    /// The cursor, as a character index into `src()`.
    pub closed spec fn cur(&self) -> int {
        self.pos as int
    }

    /// The scanner's invariant: the cursor is inside the source and the
    /// byte offset matches it.
    pub closed spec fn wf(&self) -> bool {
        &&& self.pos <= self.chars@.len()
        &&& self.byte_pos == byte_offset(self.chars@, self.pos as int)
        &&& 2 * total_bytes(self.chars@) <= usize::MAX as int
    }

    pub fn new(source: &str) -> (r: Tokenizer)
        ensures
            r.wf(),
            r.src() == source@,
            r.cur() == 0,
    {
        Tokenizer { chars: str_chars(source), pos: 0, byte_pos: 0 }
    }

    /// The next character, if any, without consuming it.
    pub fn peek_first(&self) -> (r: Option<char>)
        requires
            self.wf(),
        ensures
            r == (if self.cur() < self.src().len() {
                Some(self.src()[self.cur()])
            } else {
                None::<char>
            }),
    {
        if self.pos < self.chars.len() {
            Some(self.chars[self.pos])
        } else {
            None
        }
    }

    /// The next two characters, if any, without consuming them.
    pub fn peek_first_two(&self) -> (r: (Option<char>, Option<char>))
        requires
            self.wf(),
        ensures
            r.0 == (if self.cur() < self.src().len() {
                Some(self.src()[self.cur()])
            } else {
                None::<char>
            }),
            r.1 == (if self.cur() + 1 < self.src().len() {
                Some(self.src()[self.cur() + 1])
            } else {
                None::<char>
            }),
    {
        if self.pos < self.chars.len() {
            let c0 = self.chars[self.pos];
            if self.pos + 1 < self.chars.len() {
                (Some(c0), Some(self.chars[self.pos + 1]))
            } else {
                (Some(c0), None)
            }
        } else {
            (None, None)
        }
    }

    /// Consume and return the next character, if any.
    pub fn consume(&mut self) -> (r: Option<char>)
        requires
            old(self).wf(),
        ensures
            final(self).wf(),
            final(self).src() == old(self).src(),
            old(self).cur() < old(self).src().len() ==> r == Some(
                old(self).src()[old(self).cur()],
            ) && final(self).cur() == old(self).cur() + 1,
            old(self).cur() >= old(self).src().len() ==> r == None::<char> && final(self).cur()
                == old(self).cur(),
    {
        if self.pos < self.chars.len() {
            let c = self.chars[self.pos];
            proof {
                lemma_byte_offset_mono(self.chars@, self.pos + 1, self.chars@.len() as int);
            }
            self.pos = self.pos + 1;
            let add = char_utf8_len(c);
            self.byte_pos = self.byte_pos + add;
            Some(c)
        } else {
            None
        }
    }

    /// Consume the next character exactly when it is `expected`.
    pub fn consume_on(&mut self, expected: char) -> (r: bool)
        requires
            old(self).wf(),
        ensures
            final(self).wf(),
            final(self).src() == old(self).src(),
            r == (old(self).cur() < old(self).src().len() && old(self).src()[old(self).cur()]
                == expected),
            final(self).cur() == (if r {
                old(self).cur() + 1
            } else {
                old(self).cur()
            }),
    {
        if self.pos < self.chars.len() && self.chars[self.pos] == expected {
            let _ = self.consume();
            true
        } else {
            false
        }
    }

    /// The byte offset of the cursor.
    pub fn compute_offset(&self) -> (r: usize)
        requires
            self.wf(),
        ensures
            r == byte_offset(self.src(), self.cur()),
    {
        self.byte_pos
    }

    /// Move the cursor past any run of whitespace characters.
    pub fn skip_whitespaces(&mut self)
        requires
            old(self).wf(),
        ensures
            final(self).wf(),
            final(self).src() == old(self).src(),
            old(self).cur() <= final(self).cur(),
            lex(old(self).src(), old(self).cur(), false) == lex(
                old(self).src(),
                final(self).cur(),
                false,
            ),
            final(self).cur() == final(self).src().len() || !is_whitespace_char(
                final(self).src()[final(self).cur()],
            ),
    {
        let ghost s = self.src();
        let ghost p0 = self.cur();
        loop
            invariant
                self.wf(),
                self.src() == s,
                p0 <= self.cur(),
                lex(s, p0, false) == lex(s, self.cur(), false),
            ensures
                self.wf(),
                self.src() == s,
                p0 <= self.cur(),
                lex(s, p0, false) == lex(s, self.cur(), false),
                self.cur() == s.len() || !is_whitespace_char(s[self.cur()]),
            decreases s.len() - self.cur(),
        {
            if self.pos >= self.chars.len() {
                break;
            }
            let c = self.chars[self.pos];
            if !char_is_whitespace(c) {
                break;
            }
            proof {
                assert(lex(s, self.cur(), false) == lex(s, self.cur() + 1, false));
                lemma_byte_offset_mono(s, self.pos + 1, s.len() as int);
            }
            self.pos = self.pos + 1;
            let add = char_utf8_len(c);
            self.byte_pos = self.byte_pos + add;
        }
    }

    /// ASCII digit test.
    pub fn is_digit(c: char) -> (r: bool)
        ensures
            r == is_ascii_digit_c(c),
    {
        let u = c as u32;
        0x30 <= u && u <= 0x39
    }

    /// Identifier-start test: underscore or Unicode alphabetic.
    pub fn is_alpha(c: char) -> (r: bool)
        ensures
            r == is_alpha_c(c),
    {
        c == '_' || char_is_alphabetic(c)
    }

    /// Identifier-continuation test.
    pub fn is_alphanum(c: char) -> (r: bool)
        ensures
            r == is_alnum_c(c),
    {
        Self::is_alpha(c) || Self::is_digit(c)
    }

    /// The keyword token for `name` when it matches one, case
    /// sensitively; otherwise an identifier owning the text.
    pub fn ident_or_keyword_from_str(name: &Vec<char>) -> (t: Token)
        ensures
            t@ == keyword_token(name@),
    {
        if str_eq_chars(name, "and") {
            Token::And
        } else if str_eq_chars(name, "class") {
            Token::Class
        } else if str_eq_chars(name, "else") {
            Token::Else
        } else if str_eq_chars(name, "false") {
            Token::False
        } else if str_eq_chars(name, "fun") {
            Token::Fun
        } else if str_eq_chars(name, "for") {
            Token::For
        } else if str_eq_chars(name, "if") {
            Token::If
        } else if str_eq_chars(name, "nil") {
            Token::Nil
        } else if str_eq_chars(name, "or") {
            Token::Or
        } else if str_eq_chars(name, "print") {
            Token::Print
        } else if str_eq_chars(name, "return") {
            Token::Return
        } else if str_eq_chars(name, "super") {
            Token::Super
        } else if str_eq_chars(name, "this") {
            Token::This
        } else if str_eq_chars(name, "true") {
            Token::True
        } else if str_eq_chars(name, "var") {
            Token::Var
        } else if str_eq_chars(name, "while") {
            Token::While
        } else {
            Token::Identifier(chars_to_string(name))
        }
    }

    /// Scan the next token or error, with the byte span it covers. The
    /// cursor advances past what was consumed; after the end of input the
    /// result is `Eof` with an empty span at the very end.
    #[verifier::rlimit(60)]
    pub fn next_token(&mut self) -> (r: (Result<Token, TokError>, SourceLocation))
        requires
            old(self).wf(),
        ensures
            final(self).wf(),
            final(self).src() == old(self).src(),
            ({
                let step = spec_next_token(old(self).src(), old(self).cur());
                outcome_view(r.0) == step.result && r.1.offset == step.offset && r.1.len
                    == step.len && final(self).cur() == step.next
            }),
    {
        let ghost s = self.src();
        let ghost p0 = self.cur();
        proof {
            assert(s == old(self).src());
            assert(p0 == old(self).cur());
        }
        loop
            invariant
                self.wf(),
                self.src() == s,
                s == old(self).src(),
                p0 == old(self).cur(),
                p0 <= self.cur(),
                lex(s, p0, false) == lex(s, self.cur(), false),
            decreases s.len() - self.cur(),
        {
            self.skip_whitespaces();
            let ghost p1 = self.cur();
            let offset = self.byte_pos;
            let start_idx = self.pos;
            if self.pos >= self.chars.len() {
                return (Ok(Token::Eof), SourceLocation { offset, len: 0 });
            }
            let c = self.chars[self.pos];
            proof {
                lemma_byte_offset_mono(s, self.pos + 1, s.len() as int);
            }
            self.pos = self.pos + 1;
            let add = char_utf8_len(c);
            self.byte_pos = self.byte_pos + add;

            if c == '(' {
                return (Ok(Token::LeftParen), SourceLocation { offset, len: 1 });
            } else if c == ')' {
                return (Ok(Token::RightParen), SourceLocation { offset, len: 1 });
            } else if c == '{' {
                return (Ok(Token::LeftBrace), SourceLocation { offset, len: 1 });
            } else if c == '}' {
                return (Ok(Token::RightBrace), SourceLocation { offset, len: 1 });
            } else if c == ',' {
                return (Ok(Token::Comma), SourceLocation { offset, len: 1 });
            } else if c == '.' {
                return (Ok(Token::Dot), SourceLocation { offset, len: 1 });
            } else if c == '-' {
                return (Ok(Token::Minus), SourceLocation { offset, len: 1 });
            } else if c == '+' {
                return (Ok(Token::Plus), SourceLocation { offset, len: 1 });
            } else if c == ';' {
                return (Ok(Token::Semicolon), SourceLocation { offset, len: 1 });
            } else if c == '*' {
                return (Ok(Token::Star), SourceLocation { offset, len: 1 });
            } else if c == '!' {
                if self.consume_on('=') {
                    return (Ok(Token::BangEqual), SourceLocation { offset, len: 2 });
                } else {
                    return (Ok(Token::Bang), SourceLocation { offset, len: 1 });
                }
            } else if c == '=' {
                if self.consume_on('=') {
                    return (Ok(Token::EqualEqual), SourceLocation { offset, len: 2 });
                } else {
                    return (Ok(Token::Equal), SourceLocation { offset, len: 1 });
                }
            } else if c == '<' {
                if self.consume_on('=') {
                    return (Ok(Token::LessEqual), SourceLocation { offset, len: 2 });
                } else {
                    return (Ok(Token::Less), SourceLocation { offset, len: 1 });
                }
            } else if c == '>' {
                if self.consume_on('=') {
                    return (Ok(Token::GreaterEqual), SourceLocation { offset, len: 2 });
                } else {
                    return (Ok(Token::Greater), SourceLocation { offset, len: 1 });
                }
            } else if c == '/' {
                if self.consume_on('/') {
                    // A line comment: discard up to (not including) the
                    // next newline, then scan again.
                    proof {
                        assert(lex(s, p1, false) == lex(s, p1 + 2, true));
                    }
                    loop
                        invariant
                            self.wf(),
                            self.src() == s,
                            p1 + 2 <= self.cur(),
                            lex(s, p1 + 2, true) == lex(s, self.cur(), true),
                        ensures
                            self.wf(),
                            self.src() == s,
                            p1 + 2 <= self.cur(),
                            lex(s, p1 + 2, true) == lex(s, self.cur(), true),
                            self.cur() == s.len() || s[self.cur()] == '\n',
                        decreases s.len() - self.cur(),
                    {
                        if self.pos >= self.chars.len() {
                            break;
                        }
                        let ch = self.chars[self.pos];
                        if ch == '\n' {
                            break;
                        }
                        proof {
                            assert(lex(s, self.cur(), true) == lex(s, self.cur() + 1, true));
                            lemma_byte_offset_mono(s, self.pos + 1, s.len() as int);
                        }
                        self.pos = self.pos + 1;
                        let add2 = char_utf8_len(ch);
                        self.byte_pos = self.byte_pos + add2;
                    }
                    proof {
                        assert(lex(s, self.cur(), true) == lex(s, self.cur(), false));
                    }
                    continue;
                } else {
                    return (Ok(Token::Slash), SourceLocation { offset, len: 1 });
                }
            } else if c == '"' {
                // Consume up to the closing quote, or to end of input.
                loop
                    invariant
                        self.wf(),
                        self.src() == s,
                        p1 + 1 <= self.cur(),
                        string_close(s, p1 + 1) == string_close(s, self.cur()),
                    ensures
                        self.wf(),
                        self.src() == s,
                        p1 + 1 <= self.cur(),
                        self.cur() == string_close(s, p1 + 1),
                        self.cur() == s.len() || s[self.cur()] == '"',
                    decreases s.len() - self.cur(),
                {
                    if self.pos >= self.chars.len() {
                        break;
                    }
                    let ch = self.chars[self.pos];
                    if ch == '"' {
                        break;
                    }
                    proof {
                        assert(string_close(s, self.cur()) == string_close(s, self.cur() + 1));
                        lemma_byte_offset_mono(s, self.pos + 1, s.len() as int);
                    }
                    self.pos = self.pos + 1;
                    let add2 = char_utf8_len(ch);
                    self.byte_pos = self.byte_pos + add2;
                }
                if self.pos >= self.chars.len() {
                    // The input ended before a closing quote.
                    let end = self.byte_pos;
                    proof {
                        lemma_byte_offset_mono(s, p1, self.cur());
                    }
                    return (
                        Err(TokError::UnterminatedString),
                        SourceLocation { offset, len: end - offset },
                    );
                }
                let content_end = self.pos;
                proof {
                    lemma_byte_offset_mono(s, self.pos + 1, s.len() as int);
                }
                self.pos = self.pos + 1;
                let addq = char_utf8_len('"');
                self.byte_pos = self.byte_pos + addq;
                let offset_end = self.byte_pos;
                proof {
                    lemma_byte_offset_mono(s, p1, self.cur());
                }
                let payload = collect_range(&self.chars, start_idx + 1, content_end);
                let text = chars_to_string(&payload);
                return (Ok(Token::String(text)), SourceLocation { offset, len: offset_end - offset });
            } else if Self::is_digit(c) {
                self.scan_digits(Ghost(p1 + 1));
                let d = self.pos;
                let two = self.peek_first_two();
                let has_frac = match two {
                    (Some(a), Some(b)) => a == '.' && Self::is_digit(b),
                    _ => false,
                };
                if has_frac {
                    let _ = self.consume();
                    self.scan_digits(Ghost(d as int + 1));
                    proof {
                        assert(digits_end(s, d as int + 1) == digits_end(s, d as int + 2));
                    }
                }
                let e = self.pos;
                let offset_end = self.byte_pos;
                proof {
                    lemma_byte_offset_mono(s, p1, self.cur());
                }
                let lexeme = collect_range(&self.chars, start_idx, e);
                let text = chars_to_string(&lexeme);
                return (Ok(Token::Number(text)), SourceLocation { offset, len: offset_end - offset });
            } else if Self::is_alpha(c) {
                loop
                    invariant
                        self.wf(),
                        self.src() == s,
                        p1 + 1 <= self.cur(),
                        alnum_end(s, p1 + 1) == alnum_end(s, self.cur()),
                    ensures
                        self.wf(),
                        self.src() == s,
                        p1 + 1 <= self.cur(),
                        self.cur() == alnum_end(s, p1 + 1),
                    decreases s.len() - self.cur(),
                {
                    if self.pos >= self.chars.len() {
                        break;
                    }
                    let ch = self.chars[self.pos];
                    if !Self::is_alphanum(ch) {
                        break;
                    }
                    proof {
                        assert(alnum_end(s, self.cur()) == alnum_end(s, self.cur() + 1));
                        lemma_byte_offset_mono(s, self.pos + 1, s.len() as int);
                    }
                    self.pos = self.pos + 1;
                    let add2 = char_utf8_len(ch);
                    self.byte_pos = self.byte_pos + add2;
                }
                let a = self.pos;
                let offset_end = self.byte_pos;
                proof {
                    lemma_byte_offset_mono(s, p1, self.cur());
                }
                let lexeme = collect_range(&self.chars, start_idx, a);
                let tok = Self::ident_or_keyword_from_str(&lexeme);
                return (Ok(tok), SourceLocation { offset, len: offset_end - offset });
            } else {
                return (Err(TokError::UnexpectedCharacter(c)), SourceLocation { offset, len: 1 });
            }
        }
    }

    /// Move the cursor past a maximal run of ASCII digits starting at
    /// `from`, which must be the cursor.
    fn scan_digits(&mut self, Ghost(from): Ghost<int>)
        requires
            old(self).wf(),
            old(self).cur() == from,
        ensures
            final(self).wf(),
            final(self).src() == old(self).src(),
            from <= final(self).cur(),
            final(self).cur() == digits_end(old(self).src(), from),
    {
        let ghost s = self.src();
        loop
            invariant
                self.wf(),
                self.src() == s,
                from <= self.cur(),
                digits_end(s, from) == digits_end(s, self.cur()),
            ensures
                self.wf(),
                self.src() == s,
                from <= self.cur(),
                self.cur() == digits_end(s, from),
            decreases s.len() - self.cur(),
        {
            if self.pos >= self.chars.len() {
                break;
            }
            let ch = self.chars[self.pos];
            if !Self::is_digit(ch) {
                break;
            }
            proof {
                assert(digits_end(s, self.cur()) == digits_end(s, self.cur() + 1));
                lemma_byte_offset_mono(s, self.pos + 1, s.len() as int);
            }
            self.pos = self.pos + 1;
            let add2 = char_utf8_len(ch);
            self.byte_pos = self.byte_pos + add2;
        }
    }

    /// Scan the next token, or `None` once the end of input is reached:
    /// the sequence of tokens ends with (and never yields after) `Eof`.
    pub fn next(&mut self) -> (r: Option<(Result<Token, TokError>, SourceLocation)>)
        requires
            old(self).wf(),
        ensures
            final(self).wf(),
            final(self).src() == old(self).src(),
            ({
                let step = spec_next_token(old(self).src(), old(self).cur());
                final(self).cur() == step.next && (if step.result == Ok::<TokenV, TokErrV>(
                    TokenV::Eof,
                ) {
                    r is None
                } else {
                    r matches Some(p) && outcome_view(p.0) == step.result && p.1.offset
                        == step.offset && p.1.len == step.len
                })
            }),
    {
        let (res, sloc) = self.next_token();
        let is_eof = match &res {
            Ok(Token::Eof) => true,
            _ => false,
        };
        if is_eof {
            None
        } else {
            Some((res, sloc))
        }
    }
}

pub proof fn lemma_digits_end_bounds(s: Seq<char>, j: int)
    requires
        0 <= j <= s.len(),
    ensures
        j <= digits_end(s, j) <= s.len(),
        forall|k: int| j <= k < digits_end(s, j) ==> is_ascii_digit_c(s[k]),
        digits_end(s, j) == s.len() || !is_ascii_digit_c(s[digits_end(s, j)]),
    decreases s.len() - j,
{
    if j < s.len() && is_ascii_digit_c(s[j]) {
        lemma_digits_end_bounds(s, j + 1);
    }
}

pub proof fn lemma_alnum_end_bounds(s: Seq<char>, j: int)
    requires
        0 <= j <= s.len(),
    ensures
        j <= alnum_end(s, j) <= s.len(),
        forall|k: int| j <= k < alnum_end(s, j) ==> is_alnum_c(s[k]),
        alnum_end(s, j) == s.len() || !is_alnum_c(s[alnum_end(s, j)]),
    decreases s.len() - j,
{
    if j < s.len() && is_alnum_c(s[j]) {
        lemma_alnum_end_bounds(s, j + 1);
    }
}

pub proof fn lemma_string_close_bounds(s: Seq<char>, j: int)
    requires
        0 <= j <= s.len(),
    ensures
        j <= string_close(s, j) <= s.len(),
        forall|k: int| j <= k < string_close(s, j) ==> s[k] != '"',
        string_close(s, j) == s.len() || s[string_close(s, j)] == '"',
    decreases s.len() - j,
{
    if j < s.len() && s[j] != '"' {
        lemma_string_close_bounds(s, j + 1);
    }
}

/// Every scan step stays inside the source: the span it reports lies
/// within the source's UTF-8 byte length, and the cursor never leaves
/// the text. This is the well-formedness of every `SourceLocation` the
/// scanner hands out.
pub proof fn lemma_lex_in_bounds(s: Seq<char>, i: int, in_comment: bool)
    requires
        0 <= i <= s.len(),
    ensures
        ({
            let step = lex(s, i, in_comment);
            0 <= step.offset && step.offset + step.len <= total_bytes(s) && 0 <= step.next
                <= s.len()
        }),
    decreases (if i <= s.len() { s.len() - i } else { 0 }), (if in_comment { 1int } else { 0int }),
{
    lemma_byte_offset_ge_index(s, i);
    lemma_byte_offset_ge_index(s, s.len() as int);
    if in_comment {
        if i < s.len() && s[i] != '\n' {
            lemma_lex_in_bounds(s, i + 1, true);
        } else {
            lemma_lex_in_bounds(s, i, false);
        }
    } else if i < s.len() && is_whitespace_char(s[i]) {
        lemma_lex_in_bounds(s, i + 1, false);
    } else if i >= s.len() {
    } else {
        let c = s[i];
        if c == '(' || c == ')' || c == '{' || c == '}' || c == ',' || c == '.' || c == '-' || c
            == '+' || c == ';' || c == '*' {
            lemma_byte_offset_mono(s, i + 1, s.len() as int);
        } else if c == '!' || c == '=' || c == '<' || c == '>' {
            if i + 1 < s.len() && s[i + 1] == '=' {
                lemma_byte_offset_mono(s, i + 2, s.len() as int);
            } else {
                lemma_byte_offset_mono(s, i + 1, s.len() as int);
            }
        } else if c == '/' && i + 1 < s.len() && s[i + 1] == '/' {
            lemma_lex_in_bounds(s, i + 2, true);
        } else if c == '/' {
            lemma_byte_offset_mono(s, i + 1, s.len() as int);
        } else if c == '"' {
            lemma_string_close_bounds(s, i + 1);
            let close = string_close(s, i + 1);
            if close >= s.len() {
                lemma_byte_offset_mono(s, i, s.len() as int);
            } else {
                lemma_byte_offset_mono(s, i, close + 1);
                lemma_byte_offset_mono(s, close + 1, s.len() as int);
            }
        } else if is_ascii_digit_c(c) {
            lemma_digits_end_bounds(s, i + 1);
            let d = digits_end(s, i + 1);
            if d + 1 < s.len() && s[d] == '.' && is_ascii_digit_c(s[d + 1]) {
                lemma_digits_end_bounds(s, d + 2);
                lemma_byte_offset_mono(s, i, digits_end(s, d + 2));
                lemma_byte_offset_mono(s, digits_end(s, d + 2), s.len() as int);
            } else {
                lemma_byte_offset_mono(s, i, d);
                lemma_byte_offset_mono(s, d, s.len() as int);
            }
        } else if is_alpha_c(c) {
            lemma_alnum_end_bounds(s, i + 1);
            lemma_byte_offset_mono(s, i, alnum_end(s, i + 1));
            lemma_byte_offset_mono(s, alnum_end(s, i + 1), s.len() as int);
        } else {
            lemma_byte_offset_mono(s, i + 1, s.len() as int);
        }
    }
}

/// For an input holding nothing but whitespace from `i` on, the scan
/// yields exactly the end-of-input token: an empty span at the very end
/// of the source, and the cursor parked there.
pub proof fn lemma_whitespace_only_eof(s: Seq<char>, i: int)
    requires
        0 <= i <= s.len(),
        forall|k: int| i <= k < s.len() ==> is_whitespace_char(s[k]),
    ensures
        ({
            let step = spec_next_token(s, i);
            step.result == Ok::<TokenV, TokErrV>(TokenV::Eof) && step.offset == total_bytes(s)
                && step.len == 0 && step.next == s.len()
        }),
    decreases s.len() - i,
{
    if i < s.len() {
        lemma_whitespace_only_eof(s, i + 1);
    }
}

/// A two-character operator spelling (`!=`, `==`, `<=`, `>=`) under the
/// cursor always yields the combined token, with a span of two bytes and
/// the cursor past both characters: never the one-character token
/// followed by `Equal`.
pub proof fn lemma_two_char_operator(s: Seq<char>, i: int)
    requires
        0 <= i,
        i + 1 < s.len(),
        s[i] == '!' || s[i] == '=' || s[i] == '<' || s[i] == '>',
        s[i + 1] == '=',
        !is_whitespace_char(s[i]),
    ensures
        ({
            let step = spec_next_token(s, i);
            step.result == Ok::<TokenV, TokErrV>(
                if s[i] == '!' {
                    TokenV::BangEqual
                } else if s[i] == '=' {
                    TokenV::EqualEqual
                } else if s[i] == '<' {
                    TokenV::LessEqual
                } else {
                    TokenV::GreaterEqual
                },
            ) && step.offset == byte_offset(s, i) && step.len == 2 && step.next == i + 2
        }),
{
}

/// A well-formed string literal under the cursor yields a `String` token
/// whose text is exactly the characters between the quotes, whose span
/// covers the quotes too, and which consumes up to the closing quote.
pub proof fn lemma_string_literal(s: Seq<char>, i: int, close: int)
    requires
        0 <= i < close < s.len(),
        s[i] == '"',
        s[close] == '"',
        forall|k: int| i < k < close ==> s[k] != '"',
        !is_whitespace_char(s[i]),
    ensures
        ({
            let step = spec_next_token(s, i);
            step.result == Ok::<TokenV, TokErrV>(TokenV::String(s.subrange(i + 1, close)))
                && step.offset == byte_offset(s, i) && step.len == byte_offset(s, close + 1)
                - byte_offset(s, i) && step.next == close + 1
        }),
{
    lemma_string_close_at(s, i + 1, close);
}

proof fn lemma_string_close_at(s: Seq<char>, j: int, close: int)
    requires
        0 <= j <= close < s.len(),
        s[close] == '"',
        forall|k: int| j <= k < close ==> s[k] != '"',
    ensures
        string_close(s, j) == close,
    decreases close - j,
{
    if j < close {
        lemma_string_close_at(s, j + 1, close);
    }
}

/// A string literal never closed before the end of input yields
/// `UnterminatedString`, with a span from the opening quote to the end
/// of the input; the scan consumes everything, so the only step after it
/// is `Eof`: nothing inside the unterminated string is scanned again.
pub proof fn lemma_unterminated_string(s: Seq<char>, i: int)
    requires
        0 <= i < s.len(),
        s[i] == '"',
        forall|k: int| i < k < s.len() ==> s[k] != '"',
        !is_whitespace_char(s[i]),
    ensures
        ({
            let step = spec_next_token(s, i);
            step.result == Err::<TokenV, TokErrV>(TokErrV::UnterminatedString) && step.offset
                == byte_offset(s, i) && step.len == total_bytes(s) - byte_offset(s, i)
                && step.next == s.len() && spec_next_token(s, step.next).result == Ok::<
                TokenV,
                TokErrV,
            >(TokenV::Eof)
        }),
{
    lemma_string_close_bounds(s, i + 1);
}

/// Digits only, in every position of `t`.
pub open spec fn all_digits(t: Seq<char>) -> bool {
    forall|k: int| 0 <= k < t.len() ==> is_ascii_digit_c(t[k])
}

/// The numeric grammar `digits('.'digits)?`, both runs nonempty.
pub open spec fn is_number_lexeme(t: Seq<char>) -> bool {
    (t.len() > 0 && all_digits(t)) || (exists|p: int|
        0 < p && p + 1 < t.len() && t[p] == '.' && all_digits(t.subrange(0, p)) && all_digits(
            t.subrange(p + 1, t.len() as int),
        ))
}

/// A digit under the cursor yields a `Number` token whose lexeme is the
/// maximal run of digits, with a fractional part exactly when a `.`
/// followed by a digit comes next; the lexeme always matches the numeric
/// grammar. A trailing `.` not followed by a digit is left unconsumed.
pub proof fn lemma_number_literal(s: Seq<char>, i: int)
    requires
        0 <= i < s.len(),
        is_ascii_digit_c(s[i]),
        !is_whitespace_char(s[i]),
    ensures
        ({
            let step = spec_next_token(s, i);
            let d = digits_end(s, i + 1);
            let e = if d + 1 < s.len() && s[d] == '.' && is_ascii_digit_c(s[d + 1]) {
                digits_end(s, d + 2)
            } else {
                d
            };
            step.result == Ok::<TokenV, TokErrV>(TokenV::Number(s.subrange(i, e)))
                && step.offset == byte_offset(s, i) && step.len == byte_offset(s, e)
                - byte_offset(s, i) && step.next == e && is_number_lexeme(s.subrange(i, e))
        }),
{
    lemma_digits_end_bounds(s, i + 1);
    let d = digits_end(s, i + 1);
    if d + 1 < s.len() && s[d] == '.' && is_ascii_digit_c(s[d + 1]) {
        lemma_digits_end_bounds(s, d + 2);
        let e = digits_end(s, d + 2);
        let t = s.subrange(i, e);
        let p = d - i;
        assert(t[p] == '.');
        assert(all_digits(t.subrange(0, p))) by {
            assert(forall|k: int| 0 <= k < p ==> t.subrange(0, p)[k] == s[i + k]);
        }
        assert(all_digits(t.subrange(p + 1, t.len() as int))) by {
            assert(forall|k: int|
                0 <= k < t.len() - p - 1 ==> #[trigger] t.subrange(p + 1, t.len() as int)[k] == s[d
                    + 1 + k]);
        }
        assert(is_number_lexeme(t));
    } else {
        let t = s.subrange(i, d);
        assert(all_digits(t)) by {
            assert(forall|k: int| 0 <= k < t.len() ==> t[k] == s[i + k]);
        }
    }
}

/// After a number whose digit run stops at a `.` with no digit behind
/// it, the `.` is scanned as its own `Dot` token.
pub proof fn lemma_trailing_dot(s: Seq<char>, i: int)
    requires
        0 <= i < s.len(),
        is_ascii_digit_c(s[i]),
        !is_whitespace_char(s[i]),
        ({
            let d = digits_end(s, i + 1);
            d < s.len() && s[d] == '.' && (d + 1 >= s.len() || !is_ascii_digit_c(s[d + 1]))
                && !is_whitespace_char(s[d])
        }),
    ensures
        ({
            let step = spec_next_token(s, i);
            let d = digits_end(s, i + 1);
            step.next == d && spec_next_token(s, d).result == Ok::<TokenV, TokErrV>(TokenV::Dot)
                && spec_next_token(s, d).len == 1
        }),
{
    lemma_number_literal(s, i);
    lemma_digits_end_bounds(s, i + 1);
}

/// Exactly the sixteen reserved words.
pub open spec fn is_keyword_lexeme(t: Seq<char>) -> bool {
    t == "and"@ || t == "class"@ || t == "else"@ || t == "false"@ || t == "fun"@ || t == "for"@
        || t == "if"@ || t == "nil"@ || t == "or"@ || t == "print"@ || t == "return"@ || t
        == "super"@ || t == "this"@ || t == "true"@ || t == "var"@ || t == "while"@
}

/// A lexeme matching a reserved word, case sensitively, always becomes
/// the keyword token and never an identifier; every other lexeme becomes
/// an identifier carrying exactly itself.
pub proof fn lemma_keyword_never_identifier(t: Seq<char>)
    ensures
        is_keyword_lexeme(t) <==> !(keyword_token(t) matches TokenV::Identifier(_)),
        !is_keyword_lexeme(t) ==> keyword_token(t) == TokenV::Identifier(t),
{
}

/// An identifier character under the cursor (one that no earlier token
/// class claims) yields the token of the maximal identifier lexeme from
/// it: a keyword token when the lexeme matches a reserved word, an
/// `Identifier` otherwise.
pub proof fn lemma_identifier_or_keyword(s: Seq<char>, i: int)
    requires
        0 <= i < s.len(),
        is_alpha_c(s[i]),
        !is_whitespace_char(s[i]),
        !is_ascii_digit_c(s[i]),
        s[i] != '(' && s[i] != ')' && s[i] != '{' && s[i] != '}' && s[i] != ',' && s[i] != '.'
            && s[i] != '-' && s[i] != '+' && s[i] != ';' && s[i] != '*' && s[i] != '!' && s[i]
            != '=' && s[i] != '<' && s[i] != '>' && s[i] != '/' && s[i] != '"',
    ensures
        ({
            let step = spec_next_token(s, i);
            let a = alnum_end(s, i + 1);
            step.result == Ok::<TokenV, TokErrV>(keyword_token(s.subrange(i, a))) && step.offset
                == byte_offset(s, i) && step.len == byte_offset(s, a) - byte_offset(s, i)
                && step.next == a
        }),
{
}

/// Whether the characters of `name` are exactly those of `lit`.
pub fn str_eq_chars(name: &Vec<char>, lit: &str) -> (r: bool)
    ensures
        r == (name@ == lit@),
{
    let n = lit.unicode_len();
    if name.len() != n {
        return false;
    }
    let mut i: usize = 0;
    while i < n
        invariant
            i <= n,
            n == lit@.len(),
            name@.len() == n,
            forall|j: int| 0 <= j < i ==> name@[j] == lit@[j],
        decreases n - i,
    {
        if name[i] != lit.get_char(i) {
            return false;
        }
        i += 1;
    }
    proof {
        assert(name@ =~= lit@);
    }
    true
}

} // verus!
