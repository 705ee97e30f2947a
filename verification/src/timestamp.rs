//! The grammar of user timestamps: raw seconds (`90`, `15.5`), `HH:MM:SS`,
//! and `HH:MM:SS.mmm`. Reading a timestamp splits it into its numeric
//! fields and checks that each is a decimal numeral; the values of the
//! numerals are computed by the caller.
use vstd::prelude::*;

use crate::text::{
    chars_of, contains_char, find_last, is_ascii_digit, last_index_of, lemma_last_index_of, lemma_split_on_nonempty,
    split_chars, split_on, string_of, string_of_range, trim_bounds, trim_end, trim_start, trimmed,
    is_space,
};

verus! {

/// The fields of a timestamp.
pub enum TimestampShape {
    /// A plain number of seconds.
    Seconds { text: String },
    /// `HH:MM:SS`, with `fraction` holding `0.mmm` when the timestamp has a
    /// fractional part. `text` is the whole timestamp and `clock` its
    /// `HH:MM:SS` part.
    Clock {
        text: String,
        clock: String,
        hours: String,
        minutes: String,
        seconds: String,
        fraction: Option<String>,
    },
}

/// A field of a clock time.
#[derive(Clone, Copy, Debug, PartialEq, Eq)]
pub enum ClockField {
    Hours,
    Minutes,
    Seconds,
}

/// Why a timestamp was refused.
pub enum TimestampError {
    /// The clock part (shown in `clock`) does not have exactly three
    /// colon-separated fields.
    ExpectedClock { clock: String },
    /// The timestamp `text`, a plain number of seconds, is not a decimal
    /// numeral.
    InvalidNumber { text: String },
    /// The field `field` of the clock part `clock` is not a decimal numeral.
    InvalidField { field: ClockField, clock: String },
    /// The fraction of the clock time `text` is not made of digits.
    InvalidFraction { text: String },
}

/// The length of the sign that `s` starts with: 1 for `+` or `-`, else 0.
pub open spec fn sign_len(s: Seq<char>) -> int {
    if s.len() > 0 && (s[0] == '+' || s[0] == '-') {
        1
    } else {
        0
    }
}

/// Whether `s[a..b]` is the digits part of a decimal numeral: ASCII digits
/// with at most one point among them, and at least one digit.
pub open spec fn is_mantissa(s: Seq<char>, a: int, b: int) -> bool {
    &&& forall|k: int| a <= k < b ==> is_ascii_digit(#[trigger] s[k]) || s[k] == '.'
    &&& forall|k: int, l: int| a <= k < l < b && #[trigger] s[k] == '.' ==> #[trigger] s[l] != '.'
    &&& exists|k: int| a <= k < b && is_ascii_digit(#[trigger] s[k])
}

/// Whether `s` from `j` on is the exponent of a numeral after its `e`: an
/// optional sign, then one or more ASCII digits.
pub open spec fn is_exponent(s: Seq<char>, j: int) -> bool {
    let d = if j < s.len() && (s[j] == '+' || s[j] == '-') {
        j + 1
    } else {
        j
    };
    d < s.len() && forall|k: int| d <= k < s.len() ==> is_ascii_digit(#[trigger] s[k])
}

/// Whether `s` is a decimal numeral as `f64` parsing reads one: an optional
/// sign, then ASCII digits with at most one point among them and at least
/// one digit, then optionally `e` or `E` and an exponent.
pub open spec fn is_numeral(s: Seq<char>) -> bool {
    let st = sign_len(s);
    ||| is_mantissa(s, st, s.len() as int)
    ||| exists|e: int|
        st <= e < s.len() && (#[trigger] s[e] == 'e' || s[e] == 'E') && is_mantissa(s, st, e)
            && is_exponent(s, e + 1)
}

/// Decides `is_exponent`.
fn exponent(s: &Vec<char>, j: usize) -> (b: bool)
    requires
        j <= s.len(),
    ensures
        b == is_exponent(s@, j as int),
{
    let d = if j < s.len() && (s[j] == '+' || s[j] == '-') {
        j + 1
    } else {
        j
    };
    assert(d == (if j < s@.len() && (s@[j as int] == '+' || s@[j as int] == '-') {
        j + 1
    } else {
        j as int
    }));
    if d >= s.len() {
        return false;
    }
    let mut i = d;
    while i < s.len()
        invariant
            d <= i <= s.len(),
            d == (if j < s@.len() && (s@[j as int] == '+' || s@[j as int] == '-') {
                j + 1
            } else {
                j as int
            }),
            forall|k: int| d <= k < i ==> is_ascii_digit(#[trigger] s@[k]),
        decreases s.len() - i,
    {
        let c = s[i];
        if !('0' <= c && c <= '9') {
            assert(!is_ascii_digit(s@[i as int]));
            return false;
        }
        i = i + 1;
    }
    true
}

/// Decides `is_numeral`.
pub fn numeral(s: &Vec<char>) -> (b: bool)
    ensures
        b == is_numeral(s@),
{
    let st: usize = if s.len() > 0 && (s[0] == '+' || s[0] == '-') {
        1
    } else {
        0
    };
    let mut dot: Option<usize> = None;
    let mut digit = false;
    let mut i = st;
    while i < s.len()
        invariant
            st == sign_len(s@),
            st <= i <= s.len(),
            forall|k: int| st <= k < i ==> is_ascii_digit(#[trigger] s@[k]) || s@[k] == '.',
            forall|k: int, l: int| st <= k < l < i && #[trigger] s@[k] == '.' ==> #[trigger] s@[l] != '.',
            dot matches Some(d) ==> st <= d < i && s@[d as int] == '.',
            dot is None ==> forall|k: int| st <= k < i ==> #[trigger] s@[k] != '.',
            digit <==> exists|k: int| st <= k < i && is_ascii_digit(#[trigger] s@[k]),
        decreases s.len() - i,
    {
        let c = s[i];
        if c == '.' {
            if let Some(d) = dot {
                assert(s@[d as int] == '.' && s@[i as int] == '.');
                assert(!is_mantissa(s@, st as int, s@.len() as int));
                assert forall|e: int|
                    st <= e < s@.len() && (#[trigger] s@[e] == 'e' || s@[e] == 'E') implies !is_mantissa(
                    s@,
                    st as int,
                    e,
                ) by {
                    if e <= i {
                        assert(is_ascii_digit(s@[e]) || s@[e] == '.' || e == i);
                    } else {
                        assert(s@[d as int] == '.' && s@[i as int] == '.');
                    }
                }
                return false;
            }
            dot = Some(i);
        } else if '0' <= c && c <= '9' {
            digit = true;
        } else {
            assert(!(is_ascii_digit(s@[i as int]) || s@[i as int] == '.'));
            assert(!is_mantissa(s@, st as int, s@.len() as int));
            if (c == 'e' || c == 'E') && digit {
                let r = exponent(s, i + 1);
                proof {
                    assert(is_mantissa(s@, st as int, i as int));
                    assert forall|e: int|
                        st <= e < s@.len() && (#[trigger] s@[e] == 'e' || s@[e] == 'E')
                            && is_mantissa(s@, st as int, e) implies e == i by {
                        if e < i {
                            assert(is_ascii_digit(s@[e]) || s@[e] == '.');
                        } else if e > i {
                            assert(is_ascii_digit(s@[i as int]) || s@[i as int] == '.');
                        }
                    }
                }
                return r;
            }
            assert forall|e: int|
                st <= e < s@.len() && (#[trigger] s@[e] == 'e' || s@[e] == 'E') implies !is_mantissa(
                s@,
                st as int,
                e,
            ) by {
                if e < i {
                    assert(is_ascii_digit(s@[e]) || s@[e] == '.');
                } else if e > i {
                    assert(!(is_ascii_digit(s@[i as int]) || s@[i as int] == '.'));
                }
            }
            return false;
        }
        i = i + 1;
    }
    assert forall|e: int| st <= e < s@.len() implies !(#[trigger] s@[e] == 'e' || s@[e] == 'E') by {
        assert(is_ascii_digit(s@[e]) || s@[e] == '.');
    }
    digit
}

/// The fields of a timestamp, as character sequences.
pub enum TimestampFields {
    Seconds(Seq<char>),
    Clock {
        text: Seq<char>,
        clock: Seq<char>,
        hours: Seq<char>,
        minutes: Seq<char>,
        seconds: Seq<char>,
        fraction: Option<Seq<char>>,
    },
    BadClock(Seq<char>),
}

/// The fields of the clock part `clock` of the timestamp `text`.
pub open spec fn clock_fields(text: Seq<char>, clock: Seq<char>, fraction: Option<Seq<char>>) -> TimestampFields {
    let parts = split_on(clock, ':');
    if parts.len() != 3 {
        TimestampFields::BadClock(clock)
    } else {
        TimestampFields::Clock {
            text,
            clock,
            hours: parts[0],
            minutes: parts[1],
            seconds: parts[2],
            fraction,
        }
    }
}

/// The fields of the timestamp `input`. Surrounding white space is ignored.
/// When the part before the last `.` holds a `:`, that part is the clock and
/// what follows the `.` is the fraction; otherwise a timestamp with a `:` is
/// a clock without fraction, and any other is a number of seconds.
pub open spec fn timestamp_fields(input: Seq<char>) -> TimestampFields {
    let t = trimmed(input);
    let dot = last_index_of(t, '.');
    if dot >= 0 && t.take(dot).contains(':') {
        clock_fields(t, t.take(dot), Some(seq!['0', '.'] + t.skip(dot + 1)))
    } else if t.contains(':') {
        clock_fields(t, t, None)
    } else {
        TimestampFields::Seconds(t)
    }
}

/// Whether the outcome `r` of reading a timestamp holds the fields `f`.
pub open spec fn shape_has_fields(r: Result<TimestampShape, TimestampError>, f: TimestampFields) -> bool {
    match f {
        TimestampFields::Seconds(t) => if is_numeral(t) {
            r matches Ok(TimestampShape::Seconds { text }) && text@ == t
        } else {
            r matches Err(TimestampError::InvalidNumber { text }) && text@ == t
        },
        TimestampFields::Clock { text, clock, hours, minutes, seconds, fraction } => if !is_numeral(
            hours,
        ) {
            r matches Err(TimestampError::InvalidField { field, clock: c2 }) && field
                == ClockField::Hours && c2@ == clock
        } else if !is_numeral(minutes) {
            r matches Err(TimestampError::InvalidField { field, clock: c2 }) && field
                == ClockField::Minutes && c2@ == clock
        } else if !is_numeral(seconds) {
            r matches Err(TimestampError::InvalidField { field, clock: c2 }) && field
                == ClockField::Seconds && c2@ == clock
        } else if fraction matches Some(fr) && !is_numeral(fr) {
            r matches Err(TimestampError::InvalidFraction { text: t2 }) && t2@ == text
        } else {
            match r {
            Ok(TimestampShape::Clock { text: t2, clock: c2, hours: h2, minutes: m2, seconds: s2, fraction: f2 }) => {
                &&& t2@ == text
                &&& c2@ == clock
                &&& h2@ == hours
                &&& m2@ == minutes
                &&& s2@ == seconds
                &&& match (f2, fraction) {
                    (Some(a), Some(b)) => a@ == b,
                    (None, None) => true,
                    _ => false,
                }
            },
            _ => false,
        }
        },
        TimestampFields::BadClock(clock) => r matches Err(TimestampError::ExpectedClock { clock: c2 })
            && c2@ == clock,
    }
}

/// Splits the clock part `clock` (of the timestamp `text`) into its fields.
fn read_clock(text: &Vec<char>, clock: &Vec<char>, fraction: Option<String>) -> (r: Result<
    TimestampShape,
    TimestampError,
>)
    ensures
        shape_has_fields(
            r,
            clock_fields(
                text@,
                clock@,
                match fraction {
                    Some(f) => Some(f@),
                    None => None,
                },
            ),
        ),
{
    let parts = split_chars(clock, ':');
    if parts.len() != 3 {
        return Err(TimestampError::ExpectedClock { clock: string_of(clock) });
    }
    if !numeral(&parts[0]) {
        return Err(TimestampError::InvalidField { field: ClockField::Hours, clock: string_of(clock) });
    }
    if !numeral(&parts[1]) {
        return Err(
            TimestampError::InvalidField { field: ClockField::Minutes, clock: string_of(clock) },
        );
    }
    if !numeral(&parts[2]) {
        return Err(
            TimestampError::InvalidField { field: ClockField::Seconds, clock: string_of(clock) },
        );
    }
    if let Some(f) = &fraction {
        if !numeral(&chars_of(f.as_str())) {
            return Err(TimestampError::InvalidFraction { text: string_of(text) });
        }
    }
    Ok(
        TimestampShape::Clock {
            text: string_of(text),
            clock: string_of(clock),
            hours: string_of(&parts[0]),
            minutes: string_of(&parts[1]),
            seconds: string_of(&parts[2]),
            fraction,
        },
    )
}

/// Splits a timestamp into its fields: a number of seconds, or the hours,
/// minutes and seconds of a clock time and its optional fraction (given as
/// `0.` followed by the digits after the point). Each field must be a
/// decimal numeral; the first that is not is named in the error.
pub fn timestamp_shape(input: &str) -> (r: Result<TimestampShape, TimestampError>)
    ensures
        shape_has_fields(r, timestamp_fields(input@)),
{
    let all = chars_of(input);
    let (a, b) = trim_bounds(&all);
    let t = chars_of(string_of_range(&all, a, b).as_str());
    assert(t@ == trimmed(input@));
    proof {
        lemma_last_index_of(t@, '.');
    }
    if let Some(dot) = find_last(&t, '.') {
        let mut clock: Vec<char> = Vec::new();
        for i in 0..dot
            invariant
                dot < t.len(),
                clock@ == t@.take(i as int),
        {
            clock.push(t[i]);
            assert(t@.take(i + 1) == t@.take(i as int).push(t@[i as int]));
        }
        if contains_char(&clock, ':') {
            let mut fraction = String::new();
            fraction.push('0');
            fraction.push('.');
            let after = string_of_range(&t, dot + 1, t.len());
            crate::text::push_str(&mut fraction, after.as_str());
            assert(t@.subrange(dot + 1, t@.len() as int) == t@.skip(dot + 1));
            assert(clock@ == t@.take(dot as int));
            assert(fraction@ == seq!['0', '.'] + t@.skip(dot + 1));
            return read_clock(&t, &clock, Some(fraction));
        }
    }
    if contains_char(&t, ':') {
        let copy = chars_of(string_of(&t).as_str());
        read_clock(&t, &copy, None)
    } else if numeral(&t) {
        Ok(TimestampShape::Seconds { text: string_of(&t) })
    } else {
        Err(TimestampError::InvalidNumber { text: string_of(&t) })
    }
}

// ---------------------------------------------------------------------------
// The documented forms are read field by field
// ---------------------------------------------------------------------------

proof fn lemma_split_without_sep(a: Seq<char>, sep: char)
    requires
        !a.contains(sep),
    ensures
        split_on(a, sep) == seq![a],
    decreases a.len(),
{
    if a.len() > 0 {
        let init = a.drop_last();
        assert(!init.contains(sep)) by {
            if init.contains(sep) {
                let k = choose|k: int| 0 <= k < init.len() && init[k] == sep;
                assert(a[k] == sep);
            }
        }
        lemma_split_without_sep(init, sep);
        assert(a.last() != sep) by {
            assert(a[a.len() - 1] == a.last());
        }
        assert(init.push(a.last()) == a);
    } else {
        assert(a == Seq::<char>::empty());
    }
}

proof fn lemma_split_concat(x: Seq<char>, y: Seq<char>, sep: char)
    ensures
        split_on(x.push(sep) + y, sep) == split_on(x, sep) + split_on(y, sep),
    decreases y.len(),
{
    let z = x.push(sep) + y;
    if y.len() == 0 {
        assert(z == x.push(sep));
        assert(z.drop_last() == x);
        assert(split_on(y, sep) == seq![Seq::<char>::empty()]);
    } else {
        let y0 = y.drop_last();
        lemma_split_concat(x, y0, sep);
        assert(z.drop_last() == x.push(sep) + y0);
        assert(z.last() == y.last());
        lemma_split_on_nonempty(y0, sep);
        lemma_split_on_nonempty(x, sep);
        let a = split_on(x, sep);
        let b = split_on(y0, sep);
        if y.last() == sep {
            assert((a + b).push(Seq::<char>::empty()) == a + b.push(Seq::<char>::empty()));
        } else {
            assert((a + b).update((a + b).len() - 1, (a + b).last().push(y.last())) == a + b.update(
                b.len() - 1,
                b.last().push(y.last()),
            ));
        }
    }
}

proof fn lemma_last_index_after(x: Seq<char>, y: Seq<char>, c: char)
    requires
        !y.contains(c),
    ensures
        last_index_of(x.push(c) + y, c) == x.len(),
    decreases y.len(),
{
    let z = x.push(c) + y;
    if y.len() == 0 {
        assert(z == x.push(c));
    } else {
        let y0 = y.drop_last();
        assert(!y0.contains(c)) by {
            if y0.contains(c) {
                let k = choose|k: int| 0 <= k < y0.len() && y0[k] == c;
                assert(y[k] == c);
            }
        }
        lemma_last_index_after(x, y0, c);
        assert(z.drop_last() == x.push(c) + y0);
        assert(y.last() != c) by {
            assert(y[y.len() - 1] == y.last());
        }
    }
}

/// Whether `s` holds none of the characters that delimit timestamp fields
/// and no white space.
pub open spec fn plain_field(s: Seq<char>) -> bool {
    forall|i: int| 0 <= i < s.len() ==> #[trigger] s[i] != ':' && s[i] != '.' && !is_space(s[i])
}

/// The text `h:m:s`.
pub open spec fn clock_text(h: Seq<char>, m: Seq<char>, s: Seq<char>) -> Seq<char> {
    h.push(':') + m.push(':') + s
}

proof fn lemma_plain_no(s: Seq<char>, c: char)
    requires
        plain_field(s),
        c == ':' || c == '.',
    ensures
        !s.contains(c),
{
    if s.contains(c) {
        let k = choose|k: int| 0 <= k < s.len() && s[k] == c;
        assert(s[k] != ':' && s[k] != '.');
    }
}

proof fn lemma_clock_split(h: Seq<char>, m: Seq<char>, s: Seq<char>)
    requires
        plain_field(h),
        plain_field(m),
        plain_field(s),
    ensures
        split_on(clock_text(h, m, s), ':') == seq![h, m, s],
        clock_text(h, m, s).contains(':'),
        !clock_text(h, m, s).contains('.'),
{
    lemma_plain_no(h, ':');
    lemma_plain_no(m, ':');
    lemma_plain_no(s, ':');
    lemma_plain_no(h, '.');
    lemma_plain_no(m, '.');
    lemma_plain_no(s, '.');
    lemma_split_without_sep(h, ':');
    lemma_split_without_sep(m, ':');
    lemma_split_without_sep(s, ':');
    lemma_split_concat(m, s, ':');
    lemma_split_concat(h, m.push(':') + s, ':');
    assert(clock_text(h, m, s) == h.push(':') + (m.push(':') + s));
    let t = clock_text(h, m, s);
    assert(t[h.len() as int] == ':');
    assert(!t.contains('.')) by {
        if t.contains('.') {
            let k = choose|k: int| 0 <= k < t.len() && t[k] == '.';
            if k < h.len() {
                assert(t[k] == h[k]);
            } else if k == h.len() {
            } else if k < h.len() + 1 + m.len() {
                assert(t[k] == m[k - h.len() - 1]);
            } else if k == h.len() + 1 + m.len() {
            } else {
                assert(t[k] == s[k - h.len() - 2 - m.len()]);
            }
        }
    }
}

proof fn lemma_untrimmed(t: Seq<char>)
    requires
        t.len() > 0,
        !is_space(t[0]),
        !is_space(t.last()),
    ensures
        trimmed(t) == t,
{
    assert(trim_start(t) == t);
    assert(trim_end(t) == t);
}

/// A timestamp written `HH:MM:SS` is read as that clock time without a
/// fraction, and one written `HH:MM:SS.mmm` as that clock time with the
/// fraction `0.mmm`, whatever the fields hold besides `:`, `.` and white
/// space.
pub proof fn clock_timestamps_read_back(h: Seq<char>, m: Seq<char>, s: Seq<char>, f: Seq<char>)
    requires
        plain_field(h),
        plain_field(m),
        plain_field(s),
        plain_field(f),
    ensures
        timestamp_fields(clock_text(h, m, s)) == (TimestampFields::Clock {
            text: clock_text(h, m, s),
            clock: clock_text(h, m, s),
            hours: h,
            minutes: m,
            seconds: s,
            fraction: None,
        }),
        timestamp_fields(clock_text(h, m, s).push('.') + f) == (TimestampFields::Clock {
            text: clock_text(h, m, s).push('.') + f,
            clock: clock_text(h, m, s),
            hours: h,
            minutes: m,
            seconds: s,
            fraction: Some(seq!['0', '.'] + f),
        }),
{
    let c = clock_text(h, m, s);
    lemma_clock_split(h, m, s);
    // the first character is that of `h` or the first ':'; the last that of `s` or the second ':'
    assert(c.len() > 0);
    assert(!is_space(c[0])) by {
        if h.len() > 0 {
            assert(c[0] == h[0]);
        } else {
            assert(c[0] == ':');
        }
    }
    assert(!is_space(c.last())) by {
        if s.len() > 0 {
            assert(c.last() == s[s.len() - 1]);
        } else {
            assert(c.last() == ':');
        }
    }
    lemma_untrimmed(c);
    assert(last_index_of(c, '.') == -1) by {
        lemma_last_index_of(c, '.');
        if last_index_of(c, '.') >= 0 {
            assert(c[last_index_of(c, '.')] == '.');
        }
    }
    let g = c.push('.') + f;
    assert(g.len() > 0);
    assert(g[0] == c[0]);
    assert(!is_space(g.last())) by {
        if f.len() > 0 {
            assert(g.last() == f[f.len() - 1]);
        } else {
            assert(g.last() == '.');
        }
    }
    lemma_untrimmed(g);
    lemma_plain_no(f, '.');
    lemma_last_index_after(c, f, '.');
    assert(g.take(c.len() as int) == c);
    assert(g.skip(c.len() as int + 1) == f);
}

} // verus!
