//! Character-sequence helpers shared by the parsers and formatters of the
//! library: Unicode white space and trimming, splitting on a separator,
//! and zero-padded decimal rendering of integers.
use vstd::prelude::*;

verus! {

/// `String::push` appends the character `ch` at the end of `s`, as its
/// documentation states.
pub assume_specification[ String::push ](s: &mut String, ch: char)
    ensures
        final(s)@ == old(s)@.push(ch),
;

// ---------------------------------------------------------------------------
// Conversions between strings and character vectors
// ---------------------------------------------------------------------------

/// The characters of `s`, in order.
pub fn chars_of(s: &str) -> (v: Vec<char>)
    ensures
        v@ == s@,
{
    let mut v: Vec<char> = Vec::new();
    for c in it: s.chars()
        invariant
            v@ == it.seq().take(it.index() as int),
    {
        v.push(c);
    }
    v
}

/// A `String` holding the characters `v[from..to]`.
pub fn string_of_range(v: &Vec<char>, from: usize, to: usize) -> (s: String)
    requires
        from <= to <= v.len(),
    ensures
        s@ == v@.subrange(from as int, to as int),
{
    let mut s = String::new();
    let mut i = from;
    while i < to
        invariant
            from <= i <= to <= v.len(),
            s@ == v@.subrange(from as int, i as int),
        decreases to - i,
    {
        s.push(v[i]);
        assert(v@.subrange(from as int, i + 1) == v@.subrange(from as int, i as int).push(
            v@[i as int],
        ));
        i = i + 1;
    }
    s
}

/// A `String` holding the characters of `v`.
pub fn string_of(v: &Vec<char>) -> (s: String)
    ensures
        s@ == v@,
{
    let s = string_of_range(v, 0, v.len());
    assert(v@.subrange(0, v@.len() as int) == v@);
    s
}

/// Appends the characters of `t` to `s`.
pub fn push_str(s: &mut String, t: &str)
    ensures
        final(s)@ == old(s)@ + t@,
{
    let v = chars_of(t);
    let ghost start = s@;
    for i in 0..v.len()
        invariant
            v@ == t@,
            s@ == start + v@.take(i as int),
    {
        s.push(v[i]);
        assert(v@.take(i + 1) == v@.take(i as int).push(v@[i as int]));
    }
    assert(v@.take(v@.len() as int) == v@);
}

// ---------------------------------------------------------------------------
// White space and trimming
// ---------------------------------------------------------------------------

/// The Unicode `White_Space` property, which `char::is_whitespace` and the
/// `\s` class of regular expressions both follow.
pub open spec fn is_space(c: char) -> bool {
    ||| ('\u{9}' <= c && c <= '\u{d}')
    ||| c == ' '
    ||| c == '\u{85}'
    ||| c == '\u{a0}'
    ||| c == '\u{1680}'
    ||| ('\u{2000}' <= c && c <= '\u{200a}')
    ||| c == '\u{2028}'
    ||| c == '\u{2029}'
    ||| c == '\u{202f}'
    ||| c == '\u{205f}'
    ||| c == '\u{3000}'
}

/// Whether `c` is white space.
pub fn is_space_char(c: char) -> (b: bool)
    ensures
        b == is_space(c),
{
    ('\u{9}' <= c && c <= '\u{d}') || c == ' ' || c == '\u{85}' || c == '\u{a0}' || c
        == '\u{1680}' || ('\u{2000}' <= c && c <= '\u{200a}') || c == '\u{2028}' || c
        == '\u{2029}' || c == '\u{202f}' || c == '\u{205f}' || c == '\u{3000}'
}

/// `s` without its leading white space.
pub open spec fn trim_start(s: Seq<char>) -> Seq<char>
    decreases s.len(),
{
    if s.len() > 0 && is_space(s[0]) {
        trim_start(s.drop_first())
    } else {
        s
    }
}

/// `s` without its trailing white space.
pub open spec fn trim_end(s: Seq<char>) -> Seq<char>
    decreases s.len(),
{
    if s.len() > 0 && is_space(s.last()) {
        trim_end(s.drop_last())
    } else {
        s
    }
}

/// `s` without leading and trailing white space, as `str::trim` gives it.
pub open spec fn trimmed(s: Seq<char>) -> Seq<char> {
    trim_end(trim_start(s))
}

proof fn lemma_trim_start_at(s: Seq<char>, a: int)
    requires
        0 <= a <= s.len(),
        forall|k: int| 0 <= k < a ==> is_space(#[trigger] s[k]),
        a == s.len() || !is_space(s[a]),
    ensures
        trim_start(s) == s.subrange(a, s.len() as int),
    decreases a,
{
    if a == 0 {
        assert(s.subrange(0, s.len() as int) == s);
    } else {
        let t = s.drop_first();
        assert forall|k: int| 0 <= k < a - 1 implies is_space(#[trigger] t[k]) by {
            assert(t[k] == s[k + 1]);
        }
        if a < s.len() {
            assert(t[a - 1] == s[a]);
        }
        lemma_trim_start_at(t, a - 1);
        assert(t.subrange(a - 1, t.len() as int) == s.subrange(a, s.len() as int));
    }
}

proof fn lemma_trim_end_at(s: Seq<char>, b: int)
    requires
        0 <= b <= s.len(),
        forall|k: int| b <= k < s.len() ==> is_space(#[trigger] s[k]),
        b == 0 || !is_space(s[b - 1]),
    ensures
        trim_end(s) == s.subrange(0, b),
    decreases s.len() - b,
{
    if b == s.len() {
        assert(s.subrange(0, s.len() as int) == s);
    } else {
        let t = s.drop_last();
        assert forall|k: int| b <= k < t.len() implies is_space(#[trigger] t[k]) by {
            assert(t[k] == s[k]);
        }
        if b > 0 {
            assert(t[b - 1] == s[b - 1]);
        }
        lemma_trim_end_at(t, b);
        assert(t.subrange(0, b) == s.subrange(0, b));
    }
}

/// The bounds `[a, b)` of the trimmed part of `v`.
pub fn trim_bounds(v: &Vec<char>) -> (r: (usize, usize))
    ensures
        r.0 <= r.1 <= v.len(),
        trimmed(v@) == v@.subrange(r.0 as int, r.1 as int),
{
    let mut a: usize = 0;
    while a < v.len() && is_space_char(v[a])
        invariant
            a <= v.len(),
            forall|k: int| 0 <= k < a ==> is_space(#[trigger] v@[k]),
        decreases v.len() - a,
    {
        a = a + 1;
    }
    proof {
        lemma_trim_start_at(v@, a as int);
    }
    let ghost t = v@.subrange(a as int, v@.len() as int);
    let mut b: usize = v.len();
    while b > a && is_space_char(v[b - 1])
        invariant
            a <= b <= v.len(),
            t == v@.subrange(a as int, v@.len() as int),
            forall|k: int| b <= k < v.len() ==> is_space(#[trigger] v@[k]),
        decreases b,
    {
        b = b - 1;
    }
    proof {
        assert forall|k: int| b - a <= k < t.len() implies is_space(#[trigger] t[k]) by {
            assert(t[k] == v@[k + a]);
        }
        if b > a {
            assert(t[b - a - 1] == v@[b - 1]);
        }
        lemma_trim_end_at(t, b - a);
        assert(t.subrange(0, b - a) == v@.subrange(a as int, b as int));
    }
    (a, b)
}

/// `s` without leading and trailing white space.
pub fn trim(s: &str) -> (r: String)
    ensures
        r@ == trimmed(s@),
{
    let v = chars_of(s);
    let (a, b) = trim_bounds(&v);
    string_of_range(&v, a, b)
}

// ---------------------------------------------------------------------------
// Splitting
// ---------------------------------------------------------------------------

/// The pieces of `s` between occurrences of `sep`, as `str::split` yields
/// them: one more piece than there are separators, empty pieces included.
pub open spec fn split_on(s: Seq<char>, sep: char) -> Seq<Seq<char>>
    decreases s.len(),
{
    if s.len() == 0 {
        seq![Seq::<char>::empty()]
    } else {
        let init = split_on(s.drop_last(), sep);
        if s.last() == sep {
            init.push(Seq::<char>::empty())
        } else {
            init.update(init.len() - 1, init.last().push(s.last()))
        }
    }
}

pub proof fn lemma_split_on_nonempty(s: Seq<char>, sep: char)
    ensures
        split_on(s, sep).len() >= 1,
    decreases s.len(),
{
    if s.len() > 0 {
        lemma_split_on_nonempty(s.drop_last(), sep);
    }
}

/// Splits `s` at every occurrence of `sep`.
pub fn split_chars(s: &Vec<char>, sep: char) -> (pieces: Vec<Vec<char>>)
    ensures
        pieces@.len() == split_on(s@, sep).len(),
        forall|i: int| 0 <= i < pieces@.len() ==> #[trigger] pieces@[i]@ == split_on(s@, sep)[i],
{
    let mut pieces: Vec<Vec<char>> = Vec::new();
    let mut cur: Vec<char> = Vec::new();
    proof {
        assert(s@.take(0) == Seq::<char>::empty());
    }
    for i in 0..s.len()
        invariant
            split_on(s@.take(i as int), sep).len() == pieces@.len() + 1,
            forall|k: int|
                0 <= k < pieces@.len() ==> #[trigger] pieces@[k]@ == split_on(
                    s@.take(i as int),
                    sep,
                )[k],
            cur@ == split_on(s@.take(i as int), sep).last(),
    {
        let c = s[i];
        proof {
            let p = s@.take(i + 1);
            assert(p.drop_last() == s@.take(i as int));
            assert(p.last() == c);
            lemma_split_on_nonempty(s@.take(i as int), sep);
        }
        if c == sep {
            pieces.push(cur);
            cur = Vec::new();
        } else {
            cur.push(c);
        }
    }
    assert(s@.take(s@.len() as int) == s@);
    pieces.push(cur);
    pieces
}

// ---------------------------------------------------------------------------
// Searching
// ---------------------------------------------------------------------------

/// The index of the last occurrence of `c` in `s`, or -1.
pub open spec fn last_index_of(s: Seq<char>, c: char) -> int
    decreases s.len(),
{
    if s.len() == 0 {
        -1
    } else if s.last() == c {
        s.len() - 1
    } else {
        last_index_of(s.drop_last(), c)
    }
}

pub proof fn lemma_last_index_of(s: Seq<char>, c: char)
    ensures
        -1 <= last_index_of(s, c) < s.len(),
        last_index_of(s, c) >= 0 ==> s[last_index_of(s, c)] == c,
        forall|k: int| last_index_of(s, c) < k < s.len() ==> #[trigger] s[k] != c,
    decreases s.len(),
{
    if s.len() > 0 && s.last() != c {
        let t = s.drop_last();
        lemma_last_index_of(t, c);
        assert forall|k: int| last_index_of(s, c) < k < s.len() implies #[trigger] s[k] != c by {
            if k < s.len() - 1 {
                assert(s[k] == t[k]);
            }
        }
    }
}

/// The index of the last occurrence of `c` in `s`, if any.
pub fn find_last(s: &Vec<char>, c: char) -> (r: Option<usize>)
    ensures
        match r {
            Some(i) => i == last_index_of(s@, c),
            None => last_index_of(s@, c) == -1,
        },
{
    let mut i = s.len();
    assert(s@.take(i as int) == s@);
    while i > 0
        invariant
            i <= s.len(),
            last_index_of(s@, c) == last_index_of(s@.take(i as int), c),
        decreases i,
    {
        assert(s@.take(i as int).drop_last() == s@.take(i - 1));
        if s[i - 1] == c {
            return Some(i - 1);
        }
        i = i - 1;
    }
    None
}

/// Whether `c` occurs in `s`.
pub fn contains_char(s: &Vec<char>, c: char) -> (b: bool)
    ensures
        b == s@.contains(c),
{
    for i in 0..s.len()
        invariant
            forall|k: int| 0 <= k < i ==> s@[k] != c,
    {
        if s[i] == c {
            return true;
        }
    }
    false
}

// ---------------------------------------------------------------------------
// Decimal rendering
// ---------------------------------------------------------------------------

/// Whether `c` is one of the ASCII digits `0` to `9`.
pub open spec fn is_ascii_digit(c: char) -> bool {
    '0' <= c && c <= '9'
}

/// Whether `a` comes no later than `b` in the order of strings: `a` is a
/// prefix of `b`, or at the first place where they differ `a` holds the
/// smaller character.
pub open spec fn str_le(a: Seq<char>, b: Seq<char>) -> bool {
    ||| a.len() <= b.len() && b.take(a.len() as int) == a
    ||| exists|i: int|
        #![trigger a[i], b[i]]
        0 <= i < a.len() && i < b.len() && a.take(i) == b.take(i) && a[i] < b[i]
}

/// The character of the decimal digit `d`.
pub open spec fn digit_char(d: nat) -> char {
    (d + 48) as char
}

/// The decimal digits of `n`, without leading zeros ("0" for zero).
pub open spec fn dec_digits(n: nat) -> Seq<char>
    decreases n,
{
    if n < 10 {
        seq![digit_char(n)]
    } else {
        dec_digits(n / 10).push(digit_char(n % 10))
    }
}

/// `s` padded on the left with zeros to at least `w` characters.
pub open spec fn pad_zeros(s: Seq<char>, w: nat) -> Seq<char> {
    if s.len() < w {
        Seq::new((w - s.len()) as nat, |_i: int| '0') + s
    } else {
        s
    }
}

/// `n` rendered as `format!("{n:0w$}")` renders an integer: a minus sign for
/// a negative number, then the digits of its magnitude, with zeros between
/// them so that the whole is at least `w` characters long.
pub open spec fn fmt_int(n: int, w: nat) -> Seq<char> {
    if n >= 0 {
        pad_zeros(dec_digits(n as nat), w)
    } else {
        seq!['-'] + pad_zeros(dec_digits((-n) as nat), if w >= 1 { (w - 1) as nat } else { 0 })
    }
}

/// The value of a decimal numeral.
pub open spec fn digits_value(s: Seq<char>) -> int
    decreases s.len(),
{
    if s.len() == 0 {
        0
    } else {
        digits_value(s.drop_last()) * 10 + (s.last() as int - 48)
    }
}

pub proof fn lemma_digits_value_of_dec(k: nat)
    ensures
        digits_value(dec_digits(k)) == k,
    decreases k,
{
    let r = k % 10;
    assert(digit_char(r) as int == r + 48);
    if k >= 10 {
        lemma_digits_value_of_dec(k / 10);
        let d = dec_digits(k);
        assert(d == dec_digits(k / 10).push(digit_char(r)));
        assert(d.drop_last() == dec_digits(k / 10));
        assert(d.last() == digit_char(r));
        assert(digits_value(d) == digits_value(d.drop_last()) * 10 + (d.last() as int - 48));
    } else {
        let d = dec_digits(k);
        assert(d == seq![digit_char(k)]);
        assert(d.drop_last() =~= Seq::<char>::empty());
        assert(digits_value(d) == digits_value(d.drop_last()) * 10 + (d.last() as int - 48));
    }
}

pub proof fn lemma_digits_value_leading_zeros(z: nat, s: Seq<char>)
    ensures
        digits_value(Seq::new(z, |_i: int| '0') + s) == digits_value(s),
    decreases s.len(), z,
{
    let zs = Seq::new(z, |_i: int| '0');
    if s.len() == 0 {
        assert(zs + s == zs);
        if z > 0 {
            assert(zs.drop_last() == Seq::new((z - 1) as nat, |_i: int| '0'));
            lemma_digits_value_leading_zeros((z - 1) as nat, Seq::<char>::empty());
            assert(Seq::new((z - 1) as nat, |_i: int| '0') + Seq::<char>::empty() == Seq::new(
                (z - 1) as nat,
                |_i: int| '0',
            ));
        }
    } else {
        lemma_digits_value_leading_zeros(z, s.drop_last());
        assert((zs + s).drop_last() == zs + s.drop_last());
        assert((zs + s).last() == s.last());
    }
}

/// A zero-padded rendering of a number that is not negative reads back as
/// that number.
pub proof fn lemma_padded_value(n: nat, w: nat)
    ensures
        digits_value(fmt_int(n as int, w)) == n,
{
    let d = dec_digits(n);
    lemma_digits_value_of_dec(n);
    if d.len() < w {
        lemma_digits_value_leading_zeros((w - d.len()) as nat, d);
    }
}

/// The decimal digits of `n`.
pub fn decimal_digits(n: u64) -> (v: Vec<char>)
    ensures
        v@ == dec_digits(n as nat),
{
    // Digits are produced least significant first, then reversed.
    let mut rev: Vec<char> = Vec::new();
    let mut m = n;
    let ghost mut tail: Seq<char> = Seq::empty();
    // Invariant: dec_digits(n) == dec_digits(m) + tail (for m > 0 after the first step).
    loop
        invariant_except_break
            dec_digits(n as nat) == dec_digits(m as nat) + tail,
        invariant
            m <= n,
            rev@.len() == tail.len(),
            forall|k: int| 0 <= k < tail.len() ==> #[trigger] tail[k] == rev@[tail.len() - 1 - k],
        ensures
            dec_digits(n as nat) == tail,
        decreases m,
    {
        if m < 10 {
            let d = ((m as u8) + 48u8) as char;
            proof {
                assert(dec_digits(m as nat) == seq![digit_char(m as nat)]);
            }
            rev.push(d);
            proof {
                let old_tail = tail;
                tail = seq![d] + old_tail;
                assert(dec_digits(n as nat) == tail);
                assert forall|k: int| 0 <= k < tail.len() implies #[trigger] tail[k] == rev@[tail.len()
                    - 1 - k] by {
                    if k > 0 {
                        assert(tail[k] == old_tail[k - 1]);
                    }
                }
            }
            break ;
        }
        let d = (((m % 10) as u8) + 48u8) as char;
        proof {
            assert(dec_digits(m as nat) == dec_digits((m / 10) as nat).push(
                digit_char((m % 10) as nat),
            ));
        }
        rev.push(d);
        proof {
            let old_tail = tail;
            tail = seq![d] + old_tail;
            assert(dec_digits(m as nat) + old_tail == dec_digits((m / 10) as nat) + tail);
            assert forall|k: int| 0 <= k < tail.len() implies #[trigger] tail[k] == rev@[tail.len()
                - 1 - k] by {
                if k > 0 {
                    assert(tail[k] == old_tail[k - 1]);
                }
            }
        }
        m = m / 10;
    }
    let mut v: Vec<char> = Vec::new();
    let mut i = rev.len();
    while i > 0
        invariant
            i <= rev.len(),
            rev@.len() == tail.len(),
            forall|k: int| 0 <= k < tail.len() ==> #[trigger] tail[k] == rev@[tail.len() - 1 - k],
            v@ == tail.take((rev.len() - i) as int),
        decreases i,
    {
        v.push(rev[i - 1]);
        proof {
            let j = rev.len() - i;
            assert(tail[j as int] == rev@[i - 1]);
            assert(tail.take(j + 1) == tail.take(j as int).push(tail[j as int]));
        }
        i = i - 1;
    }
    assert(tail.take(tail.len() as int) == tail);
    v
}

/// Appends `count` zeros to `s`.
fn push_zeros(s: &mut String, count: usize)
    ensures
        final(s)@ == old(s)@ + Seq::new(count as nat, |_i: int| '0'),
{
    let ghost start = s@;
    for i in 0..count
        invariant
            s@ == start + Seq::new(i as nat, |_i: int| '0'),
    {
        s.push('0');
        assert(Seq::new((i + 1) as nat, |_i: int| '0') == Seq::new(i as nat, |_i: int| '0').push(
            '0',
        ));
    }
}

/// Appends the digits `v` to `s`.
fn push_chars(s: &mut String, v: &Vec<char>)
    ensures
        final(s)@ == old(s)@ + v@,
{
    let ghost start = s@;
    for i in 0..v.len()
        invariant
            s@ == start + v@.take(i as int),
    {
        s.push(v[i]);
        assert(v@.take(i + 1) == v@.take(i as int).push(v@[i as int]));
    }
    assert(v@.take(v@.len() as int) == v@);
}

/// Appends `n` zero-padded to at least `w` characters, as
/// `format!("{n:0w$}")` would, to `s`.
pub fn push_int(s: &mut String, n: i64, w: usize)
    ensures
        final(s)@ == old(s)@ + fmt_int(n as int, w as nat),
{
    let ghost start = s@;
    let (neg, mag) = if n == i64::MIN {
        (true, 9_223_372_036_854_775_808u64)
    } else if n < 0 {
        (true, (-n) as u64)
    } else {
        (false, n as u64)
    };
    let digits = decimal_digits(mag);
    let width = if neg {
        s.push('-');
        if w >= 1 {
            w - 1
        } else {
            0
        }
    } else {
        w
    };
    if digits.len() < width {
        push_zeros(s, width - digits.len());
    }
    push_chars(s, &digits);
    proof {
        let body = pad_zeros(dec_digits(mag as nat), width as nat);
        if neg {
            assert(mag as int == -(n as int));
            assert(s@ == start + seq!['-'] + body);
            assert(s@ == start + (seq!['-'] + body));
        } else {
            assert(s@ == start + body);
        }
    }
}

/// Appends the decimal digits of `n` to `s`.
pub fn push_u64(s: &mut String, n: u64)
    ensures
        final(s)@ == old(s)@ + dec_digits(n as nat),
{
    let digits = decimal_digits(n);
    push_chars(s, &digits);
}

} // verus!
