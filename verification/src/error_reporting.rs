//! The diagnostic formatter: maps a byte span back to line/column form
//! and renders the offending source line with a caret underline.
//!
//! Lines are separated by `\n` alone; columns count Unicode scalar
//! values, never bytes. The whole rendering is specified by
//! `spec_format`, and `format_err_message` is proved to return exactly
//! that text.

use vstd::prelude::*;

use crate::text::byte_offset;
use crate::text::char_index_of;
use crate::text::char_utf8_len;
use crate::text::chars_to_string;
use crate::text::collect_range;
use crate::text::dec_seq;
use crate::text::is_boundary;
use crate::text::lemma_boundary_unique;
use crate::text::lemma_byte_offset_ge_index;
use crate::text::lemma_byte_offset_mono;
use crate::text::push_all;
use crate::text::push_decimal;
use crate::text::push_repeat;
use crate::text::repeat_char;
use crate::text::str_chars;
use crate::text::total_bytes;
use crate::token::SourceLocation;
use crate::token::TokErrV;
use crate::token::TokError;
use crate::tokenizer::line_end;

verus! {

/// The number of newline characters among the first `i` characters.
pub open spec fn newline_count(s: Seq<char>, i: int) -> int
    decreases i,
{
    if i <= 0 {
        0
    } else {
        newline_count(s, i - 1) + (if s[i - 1] == '\n' {
            1int
        } else {
            0int
        })
    }
}

/// The character index where the line containing index `i` begins: just
/// after the most recent newline, or the start of the source.
pub open spec fn line_start(s: Seq<char>, i: int) -> int
    decreases i,
{
    if i <= 0 {
        0
    } else if s[i - 1] == '\n' {
        i
    } else {
        line_start(s, i - 1)
    }
}

pub proof fn lemma_newline_count_le(s: Seq<char>, i: int)
    requires
        0 <= i,
    ensures
        0 <= newline_count(s, i) <= i,
    decreases i,
{
    if i > 0 {
        lemma_newline_count_le(s, i - 1);
    }
}

pub proof fn lemma_line_start_le(s: Seq<char>, i: int)
    requires
        0 <= i,
    ensures
        0 <= line_start(s, i) <= i,
    decreases i,
{
    if i > 0 {
        lemma_line_start_le(s, i - 1);
    }
}

/// The display label for an optional file path: the path itself, or a
/// fixed placeholder.
pub open spec fn label_view(source_filepath: Option<&str>) -> Seq<char> {
    match source_filepath {
        Some(f) => f@,
        None => "<source>"@,
    }
}

/// The rendered diagnostic for a span of `len` bytes at byte offset
/// `off` of `s`: the description, a `file:line:col` locator, the source
/// line containing the start of the span up to the end of the line the
/// span ends on, and an underline of one caret per character of the
/// span, followed by the help text.
pub open spec fn spec_format(
    s: Seq<char>,
    off: int,
    len: int,
    label: Seq<char>,
    desc: Seq<char>,
    help: Seq<char>,
) -> Seq<char> {
    let ci = char_index_of(s, off);
    let cj = char_index_of(s, off + len);
    let lb = line_start(s, ci);
    let de = line_end(s, cj);
    let line = 1 + newline_count(s, ci);
    let col = ci - lb + 1;
    desc + "\n --> "@ + label + ":"@ + dec_seq(line) + ":"@ + dec_seq(col) + " \n  |\n"@ + dec_seq(
        line,
    ) + " | "@ + s.subrange(lb, de) + "\n  | "@ + repeat_char(' ', ci - lb) + repeat_char(
        '^',
        cj - ci,
    ) + " "@ + help
}

/// Where a flagged span sits in its source: its line and column, and the
/// character indexes bounding it and its display line.
struct SubjectInfo {
    /// 1-based line number of the span's first character.
    line: usize,
    /// 1-based column, counted in characters since the line start.
    col: usize,
    /// Character index where the span's line begins.
    subject_line_begin: usize,
    /// Character index where the line the span ends on stops (at its
    /// newline, or the end of input).
    next_line_begin: usize,
    /// Character index of the span's first character.
    subject_begin: usize,
    /// Character index just past the span's last character.
    subject_end: usize,
}

impl SubjectInfo {
    /// Scan `chars` from the start, tracking lines and columns, to
    /// resolve the byte span `offset..offset+len`.
    fn from_source(chars: &Vec<char>, offset: usize, len: usize) -> (r: SubjectInfo)
        requires
            is_boundary(chars@, offset as int),
            is_boundary(chars@, offset as int + len as int),
            2 * total_bytes(chars@) <= usize::MAX as int,
        ensures
            ({
                let s = chars@;
                let ci = char_index_of(s, offset as int);
                let cj = char_index_of(s, offset as int + len as int);
                r.line == 1 + newline_count(s, ci) && r.col == ci - line_start(s, ci) + 1
                    && r.subject_line_begin == line_start(s, ci) && r.next_line_begin == line_end(
                    s,
                    cj,
                ) && r.subject_begin == ci && r.subject_end == cj && r.subject_line_begin
                    <= r.subject_begin <= r.subject_end <= r.next_line_begin <= s.len() && 1
                    <= r.col
            }),
    {
        let ghost s = chars@;
        let ghost ci = char_index_of(s, offset as int);
        let ghost cj = char_index_of(s, offset as int + len as int);
        proof {
            assert(0 <= ci <= s.len() && byte_offset(s, ci) == offset as int);
            assert(0 <= cj <= s.len() && byte_offset(s, cj) == offset as int + len as int);
            if cj < ci {
                lemma_byte_offset_mono(s, cj, ci);
            }
            lemma_byte_offset_ge_index(s, s.len() as int);
            lemma_byte_offset_mono(s, cj, s.len() as int);
        }
        let mut i: usize = 0;
        let mut b: usize = 0;
        let mut line: usize = 1;
        let mut col: usize = 1;
        let mut lb: usize = 0;
        while b < offset
            invariant
                s == chars@,
                0 <= i <= ci <= s.len(),
                b == byte_offset(s, i as int),
                byte_offset(s, ci) == offset as int,
                b <= offset,
                line == 1 + newline_count(s, i as int),
                col == i - line_start(s, i as int) + 1,
                lb == line_start(s, i as int),
                2 * total_bytes(s) <= usize::MAX as int,
            decreases offset - b,
        {
            proof {
                if i as int == ci {
                    assert(false);
                }
                lemma_byte_offset_mono(s, i + 1, s.len() as int);
                lemma_newline_count_le(s, i as int);
                lemma_line_start_le(s, i as int);
                lemma_byte_offset_ge_index(s, s.len() as int);
                if !(i + 1 <= ci) {
                    lemma_byte_offset_mono(s, ci, i as int);
                }
                lemma_byte_offset_mono(s, i + 1, ci);
            }
            let c = chars[i];
            i = i + 1;
            let add = char_utf8_len(c);
            b = b + add;
            if c == '\n' {
                line = line + 1;
                col = 1;
                lb = i;
            } else {
                col = col + 1;
            }
        }
        proof {
            lemma_boundary_unique(s, i as int, ci);
        }
        let subject_begin = i;
        let target = offset + len;
        while b < target
            invariant
                s == chars@,
                0 <= i <= cj <= s.len(),
                b == byte_offset(s, i as int),
                byte_offset(s, cj) == offset as int + len as int,
                b <= target,
                target == offset as int + len as int,
                2 * total_bytes(s) <= usize::MAX as int,
            decreases target - b,
        {
            proof {
                if i as int == cj {
                    assert(false);
                }
                lemma_byte_offset_mono(s, i + 1, s.len() as int);
                if !(i + 1 <= cj) {
                    lemma_byte_offset_mono(s, cj, i as int);
                }
                lemma_byte_offset_mono(s, i + 1, cj);
                lemma_byte_offset_ge_index(s, s.len() as int);
            }
            let c = chars[i];
            i = i + 1;
            let add = char_utf8_len(c);
            b = b + add;
        }
        proof {
            lemma_boundary_unique(s, i as int, cj);
        }
        let subject_end = i;
        loop
            invariant
                s == chars@,
                0 <= subject_end as int <= i as int <= s.len(),
                line_end(s, subject_end as int) == line_end(s, i as int),
            ensures
                s == chars@,
                subject_end as int <= i as int <= s.len(),
                i as int == line_end(s, subject_end as int),
            decreases s.len() - i,
        {
            if i >= chars.len() {
                break;
            }
            if chars[i] == '\n' {
                break;
            }
            proof {
                assert(line_end(s, i as int) == line_end(s, i + 1));
            }
            i = i + 1;
        }
        proof {
            assert(i as int == line_end(s, subject_end as int));
            lemma_line_start_le(s, ci);
            lemma_newline_count_le(s, ci);
        }
        SubjectInfo {
            line,
            col,
            subject_line_begin: lb,
            next_line_begin: i,
            subject_begin,
            subject_end,
        }
    }
}

/// Render a diagnostic for the byte span `sloc` of `source`: the
/// description, a `--> file:line:col` locator (with a placeholder when
/// no file label is given), the source line of the span's start, and a
/// caret underline followed by the help text. The span's ends must lie
/// on character boundaries of `source`.
#[verifier::rlimit(100)]
pub fn format_err_message(
    source: &str,
    sloc: SourceLocation,
    source_filepath: Option<&str>,
    description: &str,
    help: &str,
) -> (r: String)
    requires
        is_boundary(source@, sloc.offset as int),
        is_boundary(source@, sloc.offset as int + sloc.len as int),
    ensures
        r@ == spec_format(
            source@,
            sloc.offset as int,
            sloc.len as int,
            label_view(source_filepath),
            description@,
            help@,
        ),
{
    let chars = str_chars(source);
    let info = SubjectInfo::from_source(&chars, sloc.offset, sloc.len);
    let ghost s = source@;
    let ghost ci = char_index_of(s, sloc.offset as int);
    let ghost cj = char_index_of(s, sloc.offset as int + sloc.len as int);
    let ghost lb = line_start(s, ci);
    let ghost de = line_end(s, cj);
    let ghost line = 1 + newline_count(s, ci);
    let ghost col = ci - lb + 1;
    proof {
        reveal_strlit("\n --> ");
        reveal_strlit(":");
        reveal_strlit(" \n  |\n");
        reveal_strlit(" | ");
        reveal_strlit("\n  | ");
        reveal_strlit(" ");
    }

    let mut out: Vec<char> = Vec::new();
    let desc_chars = str_chars(description);
    push_all(&mut out, &desc_chars);
    out.push('\n');
    out.push(' ');
    out.push('-');
    out.push('-');
    out.push('>');
    out.push(' ');
    let ghost t_arrow = description@ + "\n --> "@;
    proof {
        assert(out@ =~= t_arrow);
    }
    match source_filepath {
        Some(f) => {
            let fc = str_chars(f);
            push_all(&mut out, &fc);
        },
        None => {
            let pc = str_chars("<source>");
            push_all(&mut out, &pc);
        },
    }
    let ghost t_label = t_arrow + label_view(source_filepath);
    proof {
        assert(out@ =~= t_label);
    }
    out.push(':');
    push_decimal(&mut out, info.line);
    let ghost t_line1 = t_label + ":"@ + dec_seq(line);
    proof {
        assert(out@ =~= t_line1);
    }
    out.push(':');
    push_decimal(&mut out, info.col);
    let ghost t_col = t_line1 + ":"@ + dec_seq(col);
    proof {
        assert(out@ =~= t_col);
    }
    out.push(' ');
    out.push('\n');
    out.push(' ');
    out.push(' ');
    out.push('|');
    out.push('\n');
    push_decimal(&mut out, info.line);
    out.push(' ');
    out.push('|');
    out.push(' ');
    let ghost t_gutter = t_col + " \n  |\n"@ + dec_seq(line) + " | "@;
    proof {
        assert(out@ =~= t_gutter);
    }
    let subject_line = collect_range(&chars, info.subject_line_begin, info.next_line_begin);
    push_all(&mut out, &subject_line);
    out.push('\n');
    out.push(' ');
    out.push(' ');
    out.push('|');
    out.push(' ');
    let ghost t_excerpt = t_gutter + s.subrange(lb, de) + "\n  | "@;
    proof {
        assert(out@ =~= t_excerpt);
    }
    push_repeat(&mut out, ' ', info.col - 1);
    push_repeat(&mut out, '^', info.subject_end - info.subject_begin);
    out.push(' ');
    let help_chars = str_chars(help);
    push_all(&mut out, &help_chars);
    let ghost t_done = t_excerpt + repeat_char(' ', ci - lb) + repeat_char('^', cj - ci) + " "@
        + help@;
    proof {
        assert(out@ =~= t_done);
        assert(out@ == spec_format(
            s,
            sloc.offset as int,
            sloc.len as int,
            label_view(source_filepath),
            description@,
            help@,
        ));
    }
    chars_to_string(&out)
}

/// The diagnostic description for a lexical error.
pub open spec fn error_description(e: TokErrV) -> Seq<char> {
    match e {
        TokErrV::UnexpectedCharacter(c) => "error: unexpected character: `"@ + seq![c] + "`"@,
        TokErrV::UnterminatedString => "error: unterminated string"@,
        TokErrV::NumberParse(t) => "error: couldn't parse string as number: `"@ + t + "`"@,
    }
}

/// The help line for a lexical error.
pub open spec fn error_help(e: TokErrV) -> Seq<char> {
    match e {
        TokErrV::UnexpectedCharacter(_) => "help: remove this character"@,
        TokErrV::UnterminatedString => "starting here but never closed"@,
        TokErrV::NumberParse(_) => "help: supported format is [0-9]*(.[0-9]*)?"@,
    }
}

/// The span length a lexical error is rendered with: an unterminated
/// string may reach past its line, so only its opening quote is marked.
pub open spec fn error_render_len(e: TokErrV, len: int) -> int {
    match e {
        TokErrV::UnterminatedString => 1,
        _ => len,
    }
}

/// Render the standard diagnostic for a lexical error at span `sloc`.
/// For an unterminated string only the opening quote is underlined,
/// since the span runs to the end of the input.
pub fn tok_error_message(
    source: &str,
    e: &TokError,
    sloc: SourceLocation,
    source_filepath: Option<&str>,
) -> (r: String)
    requires
        is_boundary(source@, sloc.offset as int),
        is_boundary(
            source@,
            sloc.offset as int + error_render_len(e@, sloc.len as int),
        ),
    ensures
        r@ == spec_format(
            source@,
            sloc.offset as int,
            error_render_len(e@, sloc.len as int),
            label_view(source_filepath),
            error_description(e@),
            error_help(e@),
        ),
{
    match e {
        TokError::UnexpectedCharacter(c) => {
            let mut d = str_chars("error: unexpected character: `");
            d.push(*c);
            let tail = str_chars("`");
            push_all(&mut d, &tail);
            let ds = chars_to_string(&d);
            proof {
                assert(ds@ =~= error_description(e@));
            }
            format_err_message(source, sloc, source_filepath, ds.as_str(), "help: remove this character")
        },
        TokError::UnterminatedString => {
            let clamped = SourceLocation { offset: sloc.offset, len: 1 };
            format_err_message(
                source,
                clamped,
                source_filepath,
                "error: unterminated string",
                "starting here but never closed",
            )
        },
        TokError::NumberParse(t) => {
            let mut d = str_chars("error: couldn't parse string as number: `");
            let tc = str_chars(t.as_str());
            push_all(&mut d, &tc);
            let tail = str_chars("`");
            push_all(&mut d, &tail);
            let ds = chars_to_string(&d);
            proof {
                assert(ds@ =~= error_description(e@));
            }
            format_err_message(
                source,
                sloc,
                source_filepath,
                ds.as_str(),
                "help: supported format is [0-9]*(.[0-9]*)?",
            )
        },
    }
}

} // verus!
