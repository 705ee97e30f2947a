//! Names of the files that the operations write.
use vstd::prelude::*;

use crate::text::{
    dec_digits, digit_char, digits_value, fmt_int, lemma_digits_value_of_dec, lemma_padded_value,
    push_int, push_str, push_u64,
};

verus! {

/// `part_NNN.mp4`: the name of the `number`-th piece of a split, its number
/// zero-padded to three digits.
pub open spec fn part_name(number: nat) -> Seq<char> {
    seq!['p', 'a', 'r', 't', '_'] + fmt_int(number as int, 3) + seq!['.', 'm', 'p', '4']
}

/// The file name of the `number`-th piece of a split (numbered from 1).
pub fn part_file_name(number: u64) -> (r: String)
    requires
        number <= i64::MAX,
    ensures
        r@ == part_name(number as nat),
{
    let mut s = String::new();
    s.push('p');
    s.push('a');
    s.push('r');
    s.push('t');
    s.push('_');
    push_int(&mut s, number as i64, 3);
    s.push('.');
    s.push('m');
    s.push('p');
    s.push('4');
    s
}

/// The stem of a summary output name: the output's stem, or `summary`.
pub open spec fn stem_or_default(stem: Option<Seq<char>>) -> Seq<char> {
    match stem {
        Some(s) => s,
        None => "summary"@,
    }
}

/// The extension of a summary output name: the output's, or `mp4`.
pub open spec fn ext_or_default(ext: Option<Seq<char>>) -> Seq<char> {
    match ext {
        Some(e) => e,
        None => "mp4"@,
    }
}

/// `{stem}_{number}.{ext}`.
pub open spec fn numbered_name(stem: Option<Seq<char>>, ext: Option<Seq<char>>, number: nat) -> Seq<char> {
    stem_or_default(stem) + seq!['_'] + dec_digits(number) + seq!['.'] + ext_or_default(ext)
}

/// `{stem}_mobile.{ext}`.
pub open spec fn mobile_name(stem: Option<Seq<char>>, ext: Option<Seq<char>>) -> Seq<char> {
    stem_or_default(stem) + seq!['_'] + "mobile"@ + seq!['.'] + ext_or_default(ext)
}

fn push_stem(s: &mut String, stem: Option<&str>)
    ensures
        final(s)@ == old(s)@ + stem_or_default(
            match stem {
                Some(t) => Some(t@),
                None => None,
            },
        ),
{
    match stem {
        Some(t) => push_str(s, t),
        None => push_str(s, "summary"),
    }
}

fn push_ext(s: &mut String, ext: Option<&str>)
    ensures
        final(s)@ == old(s)@ + ext_or_default(
            match ext {
                Some(t) => Some(t@),
                None => None,
            },
        ),
{
    match ext {
        Some(t) => push_str(s, t),
        None => push_str(s, "mp4"),
    }
}

/// The file name of the `number`-th section of a summary (numbered from 1),
/// built from the stem and extension of the summary's output file name.
pub fn summary_part_name(stem: Option<&str>, ext: Option<&str>, number: u64) -> (r: String)
    ensures
        r@ == numbered_name(
            match stem {
                Some(t) => Some(t@),
                None => None,
            },
            match ext {
                Some(t) => Some(t@),
                None => None,
            },
            number as nat,
        ),
{
    let mut s = String::new();
    push_stem(&mut s, stem);
    s.push('_');
    push_u64(&mut s, number);
    s.push('.');
    push_ext(&mut s, ext);
    s
}

/// The file name of the portrait crop of a summary, built from the stem and
/// extension of the summary's output file name.
pub fn summary_mobile_name(stem: Option<&str>, ext: Option<&str>) -> (r: String)
    ensures
        r@ == mobile_name(
            match stem {
                Some(t) => Some(t@),
                None => None,
            },
            match ext {
                Some(t) => Some(t@),
                None => None,
            },
        ),
{
    let mut s = String::new();
    push_stem(&mut s, stem);
    s.push('_');
    push_str(&mut s, "mobile");
    s.push('.');
    push_ext(&mut s, ext);
    s
}

// ---------------------------------------------------------------------------
// Distinct outputs get distinct names
// ---------------------------------------------------------------------------

proof fn lemma_middle_equal(p: Seq<char>, x: Seq<char>, y: Seq<char>, q: Seq<char>)
    requires
        p + x + q == p + y + q,
    ensures
        x == y,
{
    let l = p + x + q;
    assert(l.len() == p.len() + x.len() + q.len());
    assert((p + y + q).len() == p.len() + y.len() + q.len());
    assert(x.len() == y.len());
    assert(l.subrange(p.len() as int, (p.len() + x.len()) as int) == x);
    assert((p + y + q).subrange(p.len() as int, (p.len() + y.len()) as int) == y);
}

proof fn lemma_dec_digits_are_digits(n: nat)
    ensures
        forall|i: int| 0 <= i < dec_digits(n).len() ==> '0' <= #[trigger] dec_digits(n)[i] <= '9',
    decreases n,
{
    assert(digit_char(n % 10) as int == n % 10 + 48);
    if n >= 10 {
        lemma_dec_digits_are_digits(n / 10);
        let d = dec_digits(n);
        assert(d == dec_digits(n / 10).push(digit_char(n % 10)));
        assert forall|i: int| 0 <= i < d.len() implies '0' <= #[trigger] d[i] <= '9' by {
            if i < d.len() - 1 {
                assert(d[i] == dec_digits(n / 10)[i]);
            }
        }
    } else {
        assert(dec_digits(n) == seq![digit_char(n)]);
    }
}

/// Distinct pieces of a split are written to distinct files.
pub proof fn part_names_are_distinct(a: nat, b: nat)
    requires
        a != b,
    ensures
        part_name(a) != part_name(b),
{
    if part_name(a) == part_name(b) {
        lemma_middle_equal(
            seq!['p', 'a', 'r', 't', '_'],
            fmt_int(a as int, 3),
            fmt_int(b as int, 3),
            seq!['.', 'm', 'p', '4'],
        );
        lemma_padded_value(a, 3);
        lemma_padded_value(b, 3);
    }
}

/// The sections of a summary are written to distinct files, none of which
/// is the file of the portrait crop.
pub proof fn summary_names_are_distinct(stem: Option<Seq<char>>, ext: Option<Seq<char>>, a: nat, b: nat)
    ensures
        a != b ==> numbered_name(stem, ext, a) != numbered_name(stem, ext, b),
        numbered_name(stem, ext, a) != mobile_name(stem, ext),
{
    let p = stem_or_default(stem) + seq!['_'];
    let q = seq!['.'] + ext_or_default(ext);
    assert(numbered_name(stem, ext, a) == p + dec_digits(a) + q);
    assert(numbered_name(stem, ext, b) == p + dec_digits(b) + q);
    assert(mobile_name(stem, ext) == p + "mobile"@ + q);
    if a != b && numbered_name(stem, ext, a) == numbered_name(stem, ext, b) {
        lemma_middle_equal(p, dec_digits(a), dec_digits(b), q);
        lemma_digits_value_of_dec(a);
        lemma_digits_value_of_dec(b);
    }
    if numbered_name(stem, ext, a) == mobile_name(stem, ext) {
        lemma_middle_equal(p, dec_digits(a), "mobile"@, q);
        reveal_strlit("mobile");
        lemma_dec_digits_are_digits(a);
        assert('0' <= dec_digits(a)[0] <= '9');
    }
}

} // verus!
