//! Reading the language model's answer: each line of the form
//! `START - END | reason` (optionally numbered `1. `) names a candidate
//! section of the video. This module finds the candidate lines and their
//! fields; the numeric values of the fields are computed by the caller.
//!
//! The line form is the one the regular expression
//! `^\s*(?:\d+\.\s+)?(\d+\.?\d*)\s*-\s*(\d+\.?\d*)\s*\|\s*(.+)$` describes,
//! read as the `regex` crate reads it: `\s` is Unicode white space, `\d` a
//! Unicode decimal digit, `.` any character but a newline, repetitions and
//! the optional list number are greedy, and the first way to match (in that
//! order of preference) gives the fields.
use vstd::prelude::*;

use crate::text::{chars_of, is_space, is_space_char, split_chars, split_on, string_of_range, trim, trim_bounds, trimmed};

verus! {

/// Whether `c` is a Unicode decimal digit (general category `Nd`, Unicode
/// 16.0), the class that `\d` denotes.
pub open spec fn is_decimal_digit(c: char) -> bool {
    ||| ('\u{30}' <= c && c <= '\u{39}')
    ||| ('\u{660}' <= c && c <= '\u{669}')
    ||| ('\u{6f0}' <= c && c <= '\u{6f9}')
    ||| ('\u{7c0}' <= c && c <= '\u{7c9}')
    ||| ('\u{966}' <= c && c <= '\u{96f}')
    ||| ('\u{9e6}' <= c && c <= '\u{9ef}')
    ||| ('\u{a66}' <= c && c <= '\u{a6f}')
    ||| ('\u{ae6}' <= c && c <= '\u{aef}')
    ||| ('\u{b66}' <= c && c <= '\u{b6f}')
    ||| ('\u{be6}' <= c && c <= '\u{bef}')
    ||| ('\u{c66}' <= c && c <= '\u{c6f}')
    ||| ('\u{ce6}' <= c && c <= '\u{cef}')
    ||| ('\u{d66}' <= c && c <= '\u{d6f}')
    ||| ('\u{de6}' <= c && c <= '\u{def}')
    ||| ('\u{e50}' <= c && c <= '\u{e59}')
    ||| ('\u{ed0}' <= c && c <= '\u{ed9}')
    ||| ('\u{f20}' <= c && c <= '\u{f29}')
    ||| ('\u{1040}' <= c && c <= '\u{1049}')
    ||| ('\u{1090}' <= c && c <= '\u{1099}')
    ||| ('\u{17e0}' <= c && c <= '\u{17e9}')
    ||| ('\u{1810}' <= c && c <= '\u{1819}')
    ||| ('\u{1946}' <= c && c <= '\u{194f}')
    ||| ('\u{19d0}' <= c && c <= '\u{19d9}')
    ||| ('\u{1a80}' <= c && c <= '\u{1a89}')
    ||| ('\u{1a90}' <= c && c <= '\u{1a99}')
    ||| ('\u{1b50}' <= c && c <= '\u{1b59}')
    ||| ('\u{1bb0}' <= c && c <= '\u{1bb9}')
    ||| ('\u{1c40}' <= c && c <= '\u{1c49}')
    ||| ('\u{1c50}' <= c && c <= '\u{1c59}')
    ||| ('\u{a620}' <= c && c <= '\u{a629}')
    ||| ('\u{a8d0}' <= c && c <= '\u{a8d9}')
    ||| ('\u{a900}' <= c && c <= '\u{a909}')
    ||| ('\u{a9d0}' <= c && c <= '\u{a9d9}')
    ||| ('\u{a9f0}' <= c && c <= '\u{a9f9}')
    ||| ('\u{aa50}' <= c && c <= '\u{aa59}')
    ||| ('\u{abf0}' <= c && c <= '\u{abf9}')
    ||| ('\u{ff10}' <= c && c <= '\u{ff19}')
    ||| ('\u{104a0}' <= c && c <= '\u{104a9}')
    ||| ('\u{10d30}' <= c && c <= '\u{10d39}')
    ||| ('\u{10d40}' <= c && c <= '\u{10d49}')
    ||| ('\u{11066}' <= c && c <= '\u{1106f}')
    ||| ('\u{110f0}' <= c && c <= '\u{110f9}')
    ||| ('\u{11136}' <= c && c <= '\u{1113f}')
    ||| ('\u{111d0}' <= c && c <= '\u{111d9}')
    ||| ('\u{112f0}' <= c && c <= '\u{112f9}')
    ||| ('\u{11450}' <= c && c <= '\u{11459}')
    ||| ('\u{114d0}' <= c && c <= '\u{114d9}')
    ||| ('\u{11650}' <= c && c <= '\u{11659}')
    ||| ('\u{116c0}' <= c && c <= '\u{116c9}')
    ||| ('\u{116d0}' <= c && c <= '\u{116e3}')
    ||| ('\u{11730}' <= c && c <= '\u{11739}')
    ||| ('\u{118e0}' <= c && c <= '\u{118e9}')
    ||| ('\u{11950}' <= c && c <= '\u{11959}')
    ||| ('\u{11bf0}' <= c && c <= '\u{11bf9}')
    ||| ('\u{11c50}' <= c && c <= '\u{11c59}')
    ||| ('\u{11d50}' <= c && c <= '\u{11d59}')
    ||| ('\u{11da0}' <= c && c <= '\u{11da9}')
    ||| ('\u{11f50}' <= c && c <= '\u{11f59}')
    ||| ('\u{16130}' <= c && c <= '\u{16139}')
    ||| ('\u{16a60}' <= c && c <= '\u{16a69}')
    ||| ('\u{16ac0}' <= c && c <= '\u{16ac9}')
    ||| ('\u{16b50}' <= c && c <= '\u{16b59}')
    ||| ('\u{16d70}' <= c && c <= '\u{16d79}')
    ||| ('\u{1ccf0}' <= c && c <= '\u{1ccf9}')
    ||| ('\u{1d7ce}' <= c && c <= '\u{1d7ff}')
    ||| ('\u{1e140}' <= c && c <= '\u{1e149}')
    ||| ('\u{1e2f0}' <= c && c <= '\u{1e2f9}')
    ||| ('\u{1e4f0}' <= c && c <= '\u{1e4f9}')
    ||| ('\u{1e5f1}' <= c && c <= '\u{1e5fa}')
    ||| ('\u{1e950}' <= c && c <= '\u{1e959}')
    ||| ('\u{1fbf0}' <= c && c <= '\u{1fbf9}')
}

/// Whether `c` is a Unicode decimal digit.
pub fn is_decimal_digit_char(c: char) -> (b: bool)
    ensures
        b == is_decimal_digit(c),
{
    ('\u{30}' <= c && c <= '\u{39}') || ('\u{660}' <= c && c <= '\u{669}') || ('\u{6f0}' <= c && c <= '\u{6f9}') || ('\u{7c0}' <= c && c <= '\u{7c9}') || ('\u{966}' <= c && c <= '\u{96f}') || ('\u{9e6}' <= c && c <= '\u{9ef}') || ('\u{a66}' <= c && c <= '\u{a6f}') || ('\u{ae6}' <= c && c <= '\u{aef}') || ('\u{b66}' <= c && c <= '\u{b6f}') || ('\u{be6}' <= c && c <= '\u{bef}') || ('\u{c66}' <= c && c <= '\u{c6f}') || ('\u{ce6}' <= c && c <= '\u{cef}') || ('\u{d66}' <= c && c <= '\u{d6f}') || ('\u{de6}' <= c && c <= '\u{def}') || ('\u{e50}' <= c && c <= '\u{e59}') || ('\u{ed0}' <= c && c <= '\u{ed9}') || ('\u{f20}' <= c && c <= '\u{f29}') || ('\u{1040}' <= c && c <= '\u{1049}') || ('\u{1090}' <= c && c <= '\u{1099}') || ('\u{17e0}' <= c && c <= '\u{17e9}') || ('\u{1810}' <= c && c <= '\u{1819}') || ('\u{1946}' <= c && c <= '\u{194f}') || ('\u{19d0}' <= c && c <= '\u{19d9}') || ('\u{1a80}' <= c && c <= '\u{1a89}') || ('\u{1a90}' <= c && c <= '\u{1a99}') || ('\u{1b50}' <= c && c <= '\u{1b59}') || ('\u{1bb0}' <= c && c <= '\u{1bb9}') || ('\u{1c40}' <= c && c <= '\u{1c49}') || ('\u{1c50}' <= c && c <= '\u{1c59}') || ('\u{a620}' <= c && c <= '\u{a629}') || ('\u{a8d0}' <= c && c <= '\u{a8d9}') || ('\u{a900}' <= c && c <= '\u{a909}') || ('\u{a9d0}' <= c && c <= '\u{a9d9}') || ('\u{a9f0}' <= c && c <= '\u{a9f9}') || ('\u{aa50}' <= c && c <= '\u{aa59}') || ('\u{abf0}' <= c && c <= '\u{abf9}') || ('\u{ff10}' <= c && c <= '\u{ff19}') || ('\u{104a0}' <= c && c <= '\u{104a9}') || ('\u{10d30}' <= c && c <= '\u{10d39}') || ('\u{10d40}' <= c && c <= '\u{10d49}') || ('\u{11066}' <= c && c <= '\u{1106f}') || ('\u{110f0}' <= c && c <= '\u{110f9}') || ('\u{11136}' <= c && c <= '\u{1113f}') || ('\u{111d0}' <= c && c <= '\u{111d9}') || ('\u{112f0}' <= c && c <= '\u{112f9}') || ('\u{11450}' <= c && c <= '\u{11459}') || ('\u{114d0}' <= c && c <= '\u{114d9}') || ('\u{11650}' <= c && c <= '\u{11659}') || ('\u{116c0}' <= c && c <= '\u{116c9}') || ('\u{116d0}' <= c && c <= '\u{116e3}') || ('\u{11730}' <= c && c <= '\u{11739}') || ('\u{118e0}' <= c && c <= '\u{118e9}') || ('\u{11950}' <= c && c <= '\u{11959}') || ('\u{11bf0}' <= c && c <= '\u{11bf9}') || ('\u{11c50}' <= c && c <= '\u{11c59}') || ('\u{11d50}' <= c && c <= '\u{11d59}') || ('\u{11da0}' <= c && c <= '\u{11da9}') || ('\u{11f50}' <= c && c <= '\u{11f59}') || ('\u{16130}' <= c && c <= '\u{16139}') || ('\u{16a60}' <= c && c <= '\u{16a69}') || ('\u{16ac0}' <= c && c <= '\u{16ac9}') || ('\u{16b50}' <= c && c <= '\u{16b59}') || ('\u{16d70}' <= c && c <= '\u{16d79}') || ('\u{1ccf0}' <= c && c <= '\u{1ccf9}') || ('\u{1d7ce}' <= c && c <= '\u{1d7ff}') || ('\u{1e140}' <= c && c <= '\u{1e149}') || ('\u{1e2f0}' <= c && c <= '\u{1e2f9}') || ('\u{1e4f0}' <= c && c <= '\u{1e4f9}') || ('\u{1e5f1}' <= c && c <= '\u{1e5fa}') || ('\u{1e950}' <= c && c <= '\u{1e959}') || ('\u{1fbf0}' <= c && c <= '\u{1fbf9}')
}

/// The end of the run of white space that starts at `i`.
pub open spec fn space_end(s: Seq<char>, i: int) -> int
    decreases s.len() - i,
{
    if 0 <= i < s.len() && is_space(s[i]) {
        space_end(s, i + 1)
    } else {
        i
    }
}

/// The end of the run of decimal digits that starts at `i`.
pub open spec fn digit_end(s: Seq<char>, i: int) -> int
    decreases s.len() - i,
{
    if 0 <= i < s.len() && is_decimal_digit(s[i]) {
        digit_end(s, i + 1)
    } else {
        i
    }
}

/// The end of the number (`\d+\.?\d*`) that starts at `i`, or -1 when no
/// digit is there.
pub open spec fn number_end(s: Seq<char>, i: int) -> int {
    let j = digit_end(s, i);
    if j == i {
        -1
    } else if j < s.len() && s[j] == '.' {
        digit_end(s, j + 1)
    } else {
        j
    }
}

/// The fields of `START - END | reason` read from position `i` to the end
/// of `s`: the start and end numbers and the reason. The reason is what
/// follows the `|` and the white space after it; when nothing follows that
/// white space, the reason is its last character. A reason holding a
/// newline does not match.
pub open spec fn fields_from(s: Seq<char>, i: int) -> Option<(Seq<char>, Seq<char>, Seq<char>)> {
    let e1 = number_end(s, i);
    let a = space_end(s, e1);
    let b = space_end(s, a + 1);
    let e2 = number_end(s, b);
    let c = space_end(s, e2);
    let d = space_end(s, c + 1);
    let g = if d < s.len() {
        d
    } else {
        s.len() - 1
    };
    if e1 < 0 || a >= s.len() || s[a] != '-' {
        None
    } else if e2 < 0 || c >= s.len() || s[c] != '|' {
        None
    } else if g <= c || s.subrange(g, s.len() as int).contains('\n') {
        None
    } else {
        Some((s.subrange(i, e1), s.subrange(b, e2), s.subrange(g, s.len() as int)))
    }
}

/// The start, end and reason of a section line, or `None` when `line` does
/// not have the section form: leading white space, then (when it lets the
/// rest match) a list number made of digits, `.` and white space, then the
/// fields (see `fields_from`).
pub open spec fn section_line_fields(line: Seq<char>) -> Option<(Seq<char>, Seq<char>, Seq<char>)> {
    let p0 = space_end(line, 0);
    let k = digit_end(line, p0);
    let m = space_end(line, k + 1);
    let numbered = if k > p0 && k < line.len() && line[k] == '.' && m > k + 1 {
        fields_from(line, m)
    } else {
        None
    };
    if numbered is Some {
        numbered
    } else {
        fields_from(line, p0)
    }
}

proof fn lemma_space_end(s: Seq<char>, i: int)
    requires
        0 <= i <= s.len(),
    ensures
        i <= space_end(s, i) <= s.len(),
    decreases s.len() - i,
{
    if i < s.len() && is_space(s[i]) {
        lemma_space_end(s, i + 1);
    }
}

proof fn lemma_digit_end(s: Seq<char>, i: int)
    requires
        0 <= i <= s.len(),
    ensures
        i <= digit_end(s, i) <= s.len(),
    decreases s.len() - i,
{
    if i < s.len() && is_decimal_digit(s[i]) {
        lemma_digit_end(s, i + 1);
    }
}

/// The end of the run of white space in `s` that starts at `i`.
fn skip_spaces(s: &Vec<char>, i: usize) -> (r: usize)
    requires
        i <= s@.len(),
    ensures
        r == space_end(s@, i as int),
        i <= r <= s@.len(),
{
    proof {
        lemma_space_end(s@, i as int);
    }
    let mut j = i;
    while j < s.len() && is_space_char(s[j])
        invariant
            i <= j <= s@.len(),
            space_end(s@, i as int) == space_end(s@, j as int),
        decreases s@.len() - j,
    {
        j = j + 1;
    }
    j
}

/// The end of the run of decimal digits in `s` that starts at `i`.
fn skip_digits(s: &Vec<char>, i: usize) -> (r: usize)
    requires
        i <= s@.len(),
    ensures
        r == digit_end(s@, i as int),
        i <= r <= s@.len(),
{
    proof {
        lemma_digit_end(s@, i as int);
    }
    let mut j = i;
    while j < s.len() && is_decimal_digit_char(s[j])
        invariant
            i <= j <= s@.len(),
            digit_end(s@, i as int) == digit_end(s@, j as int),
        decreases s@.len() - j,
    {
        j = j + 1;
    }
    j
}

/// The end of the number that starts at `i`, if one does.
fn skip_number(s: &Vec<char>, i: usize) -> (r: Option<usize>)
    requires
        i <= s@.len(),
    ensures
        match r {
            Some(e) => e == number_end(s@, i as int) && i < e <= s@.len(),
            None => number_end(s@, i as int) == -1,
        },
{
    let j = skip_digits(s, i);
    if j == i {
        return None;
    }
    if j < s.len() && s[j] == '.' {
        Some(skip_digits(s, j + 1))
    } else {
        Some(j)
    }
}

/// The textual fields of one candidate section.
pub struct SectionFields {
    pub start: String,
    pub end: String,
    pub reason: String,
}

/// The textual view of the fields of a section.
pub open spec fn section_view(f: SectionFields) -> (Seq<char>, Seq<char>, Seq<char>) {
    (f.start@, f.end@, f.reason@)
}

/// Whether a newline occurs in `s` from position `g` on.
fn has_newline_from(s: &Vec<char>, g: usize) -> (b: bool)
    requires
        g <= s@.len(),
    ensures
        b == s@.subrange(g as int, s@.len() as int).contains('\n'),
{
    let mut k = g;
    while k < s.len()
        invariant
            g <= k <= s@.len(),
            forall|j: int| g <= j < k ==> s@[j] != '\n',
        decreases s@.len() - k,
    {
        if s[k] == '\n' {
            assert(s@.subrange(g as int, s@.len() as int)[k - g] == '\n');
            return true;
        }
        k = k + 1;
    }
    assert(!s@.subrange(g as int, s@.len() as int).contains('\n')) by {
        if s@.subrange(g as int, s@.len() as int).contains('\n') {
            let j = choose|j: int|
                0 <= j < s@.len() - g && s@.subrange(g as int, s@.len() as int)[j] == '\n';
            assert(s@[g + j] == '\n');
        }
    }
    false
}

/// The fields of `s` read from position `i` (see `fields_from`).
fn read_fields(s: &Vec<char>, i: usize) -> (r: Option<SectionFields>)
    requires
        i <= s@.len(),
    ensures
        match r {
            Some(f) => fields_from(s@, i as int) == Some(section_view(f)),
            None => fields_from(s@, i as int) is None,
        },
{
    let e1 = match skip_number(s, i) {
        Some(e) => e,
        None => return None,
    };
    let a = skip_spaces(s, e1);
    if a >= s.len() || s[a] != '-' {
        return None;
    }
    let b = skip_spaces(s, a + 1);
    let e2 = match skip_number(s, b) {
        Some(e) => e,
        None => return None,
    };
    let c = skip_spaces(s, e2);
    if c >= s.len() || s[c] != '|' {
        return None;
    }
    let d = skip_spaces(s, c + 1);
    let g = if d < s.len() {
        d
    } else {
        s.len() - 1
    };
    if g <= c {
        return None;
    }
    if has_newline_from(s, g) {
        return None;
    }
    Some(
        SectionFields {
            start: string_of_range(s, i, e1),
            end: string_of_range(s, b, e2),
            reason: string_of_range(s, g, s.len()),
        },
    )
}

/// The start, end and reason of a section line, or `None` when the line
/// does not have the section form (see `section_line_fields`).
pub fn match_section_line(line: &Vec<char>) -> (r: Option<SectionFields>)
    ensures
        match r {
            Some(f) => section_line_fields(line@) == Some(section_view(f)),
            None => section_line_fields(line@) is None,
        },
{
    let p0 = skip_spaces(line, 0);
    let k = skip_digits(line, p0);
    if k > p0 && k < line.len() && line[k] == '.' {
        let m = skip_spaces(line, k + 1);
        if m > k + 1 {
            let numbered = read_fields(line, m);
            if numbered.is_some() {
                return numbered;
            }
        }
    }
    read_fields(line, p0)
}

/// The lines among `lines` that are not blank, each without its
/// surrounding white space, in order.
pub open spec fn nonblank_lines(lines: Seq<Seq<char>>) -> Seq<Seq<char>>
    decreases lines.len(),
{
    if lines.len() == 0 {
        Seq::empty()
    } else {
        let before = nonblank_lines(lines.drop_last());
        let line = trimmed(lines.last());
        if line.len() == 0 {
            before
        } else {
            before.push(line)
        }
    }
}

/// The fields of one matched line: its start and end text and its reason
/// without surrounding white space.
pub open spec fn fields_of(caps: Option<(Seq<char>, Seq<char>, Seq<char>)>) -> Option<
    (Seq<char>, Seq<char>, Seq<char>),
> {
    match caps {
        Some((a, b, c)) => Some((a, b, trimmed(c))),
        None => None,
    }
}

/// The fields of the lines among `lines` that have the section form, in
/// order.
pub open spec fn candidates_in(lines: Seq<Seq<char>>) -> Seq<(Seq<char>, Seq<char>, Seq<char>)>
    decreases lines.len(),
{
    if lines.len() == 0 {
        Seq::empty()
    } else {
        let before = candidates_in(lines.drop_last());
        match fields_of(section_line_fields(lines.last())) {
            Some(f) => before.push(f),
            None => before,
        }
    }
}

/// The candidate sections of a whole answer, read line by line.
pub open spec fn section_candidates_of(response: Seq<char>) -> Seq<(Seq<char>, Seq<char>, Seq<char>)> {
    candidates_in(nonblank_lines(split_on(response, '\n')))
}

/// The textual view of a list of candidate sections.
pub open spec fn fields_view(v: Seq<SectionFields>) -> Seq<(Seq<char>, Seq<char>, Seq<char>)> {
    v.map_values(|f: SectionFields| section_view(f))
}

/// The lines of an answer that are not blank, trimmed, in order.
pub fn answer_lines(response: &str) -> (r: Vec<Vec<char>>)
    ensures
        r@.len() == nonblank_lines(split_on(response@, '\n')).len(),
        forall|k: int|
            0 <= k < r@.len() ==> #[trigger] r@[k]@ == nonblank_lines(split_on(response@, '\n'))[k],
{
    let all = chars_of(response);
    let lines = split_chars(&all, '\n');
    let ghost pieces = split_on(response@, '\n');
    let mut out: Vec<Vec<char>> = Vec::new();
    for i in 0..lines.len()
        invariant
            lines@.len() == pieces.len(),
            pieces == split_on(response@, '\n'),
            forall|k: int| 0 <= k < lines@.len() ==> #[trigger] lines@[k]@ == pieces[k],
            out@.len() == nonblank_lines(pieces.take(i as int)).len(),
            forall|k: int|
                0 <= k < out@.len() ==> #[trigger] out@[k]@ == nonblank_lines(pieces.take(i as int))[k],
    {
        let (a, b) = trim_bounds(&lines[i]);
        proof {
            let p = pieces.take(i + 1);
            assert(p.drop_last() == pieces.take(i as int));
            assert(p.last() == pieces[i as int]);
        }
        if a < b {
            let line = chars_of(string_of_range(&lines[i], a, b).as_str());
            out.push(line);
        }
    }
    assert(pieces.take(lines@.len() as int) == pieces);
    out
}

/// The candidate sections named by the lines of a language-model answer,
/// in the order of the lines, with their start, end and (trimmed) reason
/// as text. Blank lines and lines that do not have the section form are
/// skipped.
pub fn section_candidates(response: &str) -> (r: Vec<SectionFields>)
    ensures
        fields_view(r@) == section_candidates_of(response@),
{
    let lines = answer_lines(response);
    let ghost ls = nonblank_lines(split_on(response@, '\n'));
    let mut out: Vec<SectionFields> = Vec::new();
    for i in 0..lines.len()
        invariant
            lines@.len() == ls.len(),
            ls == nonblank_lines(split_on(response@, '\n')),
            forall|k: int| 0 <= k < lines@.len() ==> #[trigger] lines@[k]@ == ls[k],
            fields_view(out@) == candidates_in(ls.take(i as int)),
    {
        let ghost before = out@;
        proof {
            let p = ls.take(i + 1);
            assert(p.drop_last() == ls.take(i as int));
            assert(p.last() == ls[i as int]);
        }
        if let Some(f) = match_section_line(&lines[i]) {
            let reason = trim(f.reason.as_str());
            out.push(SectionFields { start: f.start, end: f.end, reason });
            assert(fields_view(out@) == fields_view(before).push(section_view(out@.last())));
        }
    }
    assert(ls.take(lines@.len() as int) == ls);
    out
}


// ---------------------------------------------------------------------------
// Digits and numbers
// ---------------------------------------------------------------------------

/// Among ASCII characters exactly `0` to `9` are decimal digits, and none of
/// the characters that separate the fields of a section line (white space,
/// `.`, `-`, `|`) is one.
pub proof fn ascii_decimal_digits(c: char)
    ensures
        (c as u32) < 128 ==> (is_decimal_digit(c) <==> '0' <= c && c <= '9'),
        is_space(c) || c == '.' || c == '-' || c == '|' ==> !is_decimal_digit(c),
{
}

proof fn lemma_digit_run(s: Seq<char>, i: int)
    requires
        0 <= i <= s.len(),
    ensures
        i <= digit_end(s, i) <= s.len(),
        forall|k: int| i <= k < digit_end(s, i) ==> is_decimal_digit(#[trigger] s[k]),
        digit_end(s, i) < s.len() ==> !is_decimal_digit(s[digit_end(s, i)]),
    decreases s.len() - i,
{
    if i < s.len() && is_decimal_digit(s[i]) {
        lemma_digit_run(s, i + 1);
    }
}

/// A number of a section line (`\d+\.?\d*`) is read whole: there is one
/// exactly when a digit stands at `i`; it then holds only digits and at most
/// one point, and the character after it, if any, is neither a digit nor a
/// point that the number could still take.
pub proof fn numbers_are_read_whole(s: Seq<char>, i: int)
    requires
        0 <= i <= s.len(),
    ensures
        number_end(s, i) == -1 <==> !(i < s.len() && is_decimal_digit(s[i])),
        number_end(s, i) >= 0 ==> ({
            let e = number_end(s, i);
            &&& i < e <= s.len()
            &&& forall|k: int| i <= k < e ==> is_decimal_digit(#[trigger] s[k]) || s[k] == '.'
            &&& forall|k: int, l: int| i <= k < l < e && #[trigger] s[k] == '.' ==> #[trigger] s[l] != '.'
            &&& e < s.len() ==> !is_decimal_digit(s[e])
            &&& e < s.len() && s[e] == '.' ==> exists|k: int| i <= k < e && #[trigger] s[k] == '.'
        }),
{
    lemma_digit_run(s, i);
    let j = digit_end(s, i);
    ascii_decimal_digits('.');
    if j > i && j < s.len() && s[j] == '.' {
        lemma_digit_run(s, j + 1);
        let e = digit_end(s, j + 1);
        assert forall|k: int, l: int| i <= k < l < e && #[trigger] s[k] == '.' implies #[trigger] s[l] != '.' by {
            if k < j {
                assert(is_decimal_digit(s[k]));
            } else if k == j {
                assert(is_decimal_digit(s[l]));
            } else {
                assert(is_decimal_digit(s[k]));
            }
        }
        if e < s.len() && s[e] == '.' {
            assert(s[j] == '.');
        }
    }
}

} // verus!
