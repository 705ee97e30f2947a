//! Timed transcript segments and their renderings: plain text, SRT
//! subtitles, and the condensed listing that is handed to the language model.
use vstd::prelude::*;

use crate::text::{
    dec_digits, digit_char, digits_value, fmt_int, is_ascii_digit, lemma_padded_value, str_le,
    push_int, push_str, push_u64, trim, trimmed,
};

verus! {

/// A piece of recognised speech with its time span in milliseconds.
pub struct Segment {
    pub start_ms: i64,
    pub end_ms: i64,
    pub text: String,
}

// ---------------------------------------------------------------------------
// SRT time stamps
// ---------------------------------------------------------------------------

/// Integer division rounding toward zero, as Rust's `/` on signed integers.
pub open spec fn trunc_div(a: int, b: int) -> int {
    if a >= 0 {
        a / b
    } else {
        -((-a) / b)
    }
}

/// The remainder that goes with `trunc_div`, as Rust's `%` on signed integers.
pub open spec fn trunc_rem(a: int, b: int) -> int {
    a - b * trunc_div(a, b)
}

/// `HH:MM:SS,mmm` for a time in milliseconds: hours, minutes and seconds
/// zero-padded to two digits, milliseconds to three, each computed with
/// Rust's truncating integer division.
pub open spec fn srt_time(ms: int) -> Seq<char> {
    let total = trunc_div(ms, 1000);
    let millis = trunc_rem(ms, 1000);
    let hours = trunc_div(total, 3600);
    let minutes = trunc_div(trunc_rem(total, 3600), 60);
    let seconds = trunc_rem(total, 60);
    fmt_int(hours, 2) + seq![':'] + fmt_int(minutes, 2) + seq![':'] + fmt_int(seconds, 2) + seq![
        ',',
    ] + fmt_int(millis, 3)
}

/// Renders a time in milliseconds as an SRT time stamp (`HH:MM:SS,mmm`).
pub fn ms_to_srt_time(ms: i64) -> (r: String)
    ensures
        r@ == srt_time(ms as int),
{
    let total_secs = ms / 1000;
    let millis = ms % 1000;
    let hours = total_secs / 3600;
    let within_hour = total_secs % 3600;
    let minutes = within_hour / 60;
    let seconds = total_secs % 60;
    proof {
        assert(total_secs == trunc_div(ms as int, 1000));
        assert(millis == trunc_rem(ms as int, 1000));
        assert(hours == trunc_div(total_secs as int, 3600));
        assert(within_hour == trunc_rem(total_secs as int, 3600));
        assert(minutes == trunc_div(trunc_rem(total_secs as int, 3600), 60));
        assert(seconds == trunc_rem(total_secs as int, 60));
    }
    let mut s = String::new();
    push_int(&mut s, hours, 2);
    s.push(':');
    push_int(&mut s, minutes, 2);
    s.push(':');
    push_int(&mut s, seconds, 2);
    s.push(',');
    push_int(&mut s, millis, 3);
    assert(s@ == srt_time(ms as int));
    s
}

// ---------------------------------------------------------------------------
// SRT documents and plain text
// ---------------------------------------------------------------------------

/// One SRT entry: its 1-based number, the time span, the text, a blank line.
pub open spec fn srt_block(number: nat, seg: Segment) -> Seq<char> {
    dec_digits(number) + seq!['\n'] + srt_time(seg.start_ms as int) + seq![' ', '-', '-', '>', ' ']
        + srt_time(seg.end_ms as int) + seq!['\n'] + seg.text@ + seq!['\n', '\n']
}

/// The SRT document for `segs`: their entries, numbered from 1, in order.
pub open spec fn srt_document(segs: Seq<Segment>) -> Seq<char>
    decreases segs.len(),
{
    if segs.len() == 0 {
        Seq::empty()
    } else {
        srt_document(segs.drop_last()) + srt_block(segs.len(), segs.last())
    }
}

/// One SRT entry numbered `number`.
fn srt_entry(number: u64, seg: &Segment) -> (r: String)
    ensures
        r@ == srt_block(number as nat, *seg),
{
    let mut block = String::new();
    push_u64(&mut block, number);
    block.push('\n');
    let ghost a = block@;
    let start = ms_to_srt_time(seg.start_ms);
    push_str(&mut block, start.as_str());
    block.push(' ');
    block.push('-');
    block.push('-');
    block.push('>');
    block.push(' ');
    let ghost b = block@;
    assert(b == a + srt_time(seg.start_ms as int) + seq![' ', '-', '-', '>', ' ']);
    let end = ms_to_srt_time(seg.end_ms);
    push_str(&mut block, end.as_str());
    block.push('\n');
    let ghost c = block@;
    assert(c == b + srt_time(seg.end_ms as int) + seq!['\n']);
    push_str(&mut block, seg.text.as_str());
    block.push('\n');
    block.push('\n');
    assert(block@ == c + seg.text@ + seq!['\n', '\n']);
    block
}

/// Renders segments as an SRT subtitle document.
pub fn format_srt(segments: &[Segment]) -> (r: String)
    ensures
        r@ == srt_document(segments@),
{
    let mut out = String::new();
    for i in 0..segments.len()
        invariant
            out@ == srt_document(segments@.take(i as int)),
    {
        let seg = &segments[i];
        let ghost before = out@;
        let block = srt_entry((i as u64) + 1, seg);
        push_str(&mut out, block.as_str());
        proof {
            let p = segments@.take(i + 1);
            assert(p.drop_last() == segments@.take(i as int));
            assert(p.last() == *seg);
        }
    }
    assert(segments@.take(segments@.len() as int) == segments@);
    out
}

/// The texts of `segs`, one per line, separated (not terminated) by newlines.
pub open spec fn text_lines(segs: Seq<Segment>) -> Seq<char>
    decreases segs.len(),
{
    if segs.len() == 0 {
        Seq::empty()
    } else if segs.len() == 1 {
        segs[0].text@
    } else {
        text_lines(segs.drop_last()) + seq!['\n'] + segs.last().text@
    }
}

/// Renders segments as plain text, one segment per line.
pub fn format_txt(segments: &[Segment]) -> (r: String)
    ensures
        r@ == text_lines(segments@),
{
    let mut out = String::new();
    for i in 0..segments.len()
        invariant
            out@ == text_lines(segments@.take(i as int)),
    {
        let ghost before = out@;
        if i > 0 {
            out.push('\n');
        }
        push_str(&mut out, segments[i].text.as_str());
        proof {
            let p = segments@.take(i + 1);
            assert(p.drop_last() == segments@.take(i as int));
            if i == 0 {
                assert(p.len() == 1);
                assert(before == Seq::<char>::empty());
            }
        }
    }
    assert(segments@.take(segments@.len() as int) == segments@);
    out
}

// ---------------------------------------------------------------------------
// Condensed listing for the language model
// ---------------------------------------------------------------------------

/// At most this many entries are wanted in the condensed listing.
pub open spec fn condense_target() -> int {
    400
}

/// Every `stride`-th segment is kept: 1 for transcripts of at most 400
/// segments, otherwise `n / 400`.
pub open spec fn condense_stride(n: int) -> int {
    if n > condense_target() {
        n / condense_target()
    } else {
        1
    }
}

/// One line of the condensed listing: `[stamp] text`.
pub open spec fn condensed_entry(stamp: Seq<char>, text: Seq<char>) -> Seq<char> {
    seq!['['] + stamp + seq![']', ' '] + text + seq!['\n']
}

/// The condensed listing of the first `upto` segments, keeping those whose
/// index is a multiple of `stride`.
pub open spec fn condensed(segs: Seq<Segment>, stamps: Seq<Seq<char>>, stride: int, upto: int) -> Seq<
    char,
>
    decreases upto,
{
    if upto <= 0 {
        Seq::empty()
    } else {
        let i = upto - 1;
        condensed(segs, stamps, stride, i) + if i % stride == 0 {
            condensed_entry(stamps[i], segs[i].text@)
        } else {
            Seq::empty()
        }
    }
}

/// The number of indices below `n` that are multiples of `stride`.
pub open spec fn sampled_count(n: int, stride: int) -> int
    decreases n,
{
    if n <= 0 {
        0
    } else {
        sampled_count(n - 1, stride) + if (n - 1) % stride == 0 {
            1int
        } else {
            0
        }
    }
}

/// Condenses a transcript into `[stamp] text` lines for a prompt, keeping
/// every segment of a short transcript and an evenly spaced subsample of a
/// long one. `stamps[i]` is the start time of `segments[i]` as it is to be
/// shown (seconds with one decimal).
pub fn condense_transcript(segments: &[Segment], stamps: &[String]) -> (r: String)
    requires
        stamps@.len() == segments@.len(),
    ensures
        r@ == condensed(
            segments@,
            stamps@.map_values(|s: String| s@),
            condense_stride(segments@.len() as int),
            segments@.len() as int,
        ),
{
    let max_entries: usize = 400;
    let stride = if segments.len() > max_entries {
        segments.len() / max_entries
    } else {
        1
    };
    let ghost views = stamps@.map_values(|s: String| s@);
    let mut out = String::new();
    for i in 0..segments.len()
        invariant
            stride == condense_stride(segments@.len() as int),
            stride >= 1,
            stamps@.len() == segments@.len(),
            views == stamps@.map_values(|s: String| s@),
            out@ == condensed(segments@, views, stride as int, i as int),
    {
        let ghost before = out@;
        if i % stride == 0 {
            out.push('[');
            push_str(&mut out, stamps[i].as_str());
            out.push(']');
            out.push(' ');
            push_str(&mut out, segments[i].text.as_str());
            out.push('\n');
            assert(views[i as int] == stamps@[i as int]@);
            assert(out@ == before + condensed_entry(views[i as int], segments@[i as int].text@));
        } else {
            assert(out@ == before + Seq::<char>::empty());
        }
    }
    out
}

proof fn lemma_sampled_count(n: int, stride: int)
    requires
        n >= 0,
        stride >= 1,
    ensures
        sampled_count(n, stride) == (n + stride - 1) / stride,
    decreases n,
{
    if n == 0 {
        assert((stride - 1) / stride == 0) by (nonlinear_arith)
            requires
                stride >= 1,
        ;
    } else {
        lemma_sampled_count(n - 1, stride);
        let q = (n - 1) / stride;
        let r = (n - 1) % stride;
        assert(n - 1 == q * stride + r) by (nonlinear_arith)
            requires
                q == (n - 1) / stride,
                r == (n - 1) % stride,
                stride >= 1,
        ;
        assert(sampled_count(n, stride) == sampled_count(n - 1, stride) + if r == 0 {
            1int
        } else {
            0
        });
        if r == 0 {
            assert((n - 1 + stride - 1) / stride == q) by (nonlinear_arith)
                requires
                    n - 1 == q * stride,
                    stride >= 1,
                    q >= 0,
            ;
            assert((n + stride - 1) / stride == q + 1) by (nonlinear_arith)
                requires
                    n - 1 == q * stride,
                    stride >= 1,
                    q >= 0,
            ;
        } else {
            assert((n - 1 + stride - 1) / stride == q + 1) by (nonlinear_arith)
                requires
                    n - 1 == q * stride + r,
                    1 <= r < stride,
                    q >= 0,
            ;
            assert((n + stride - 1) / stride == q + 1) by (nonlinear_arith)
                requires
                    n - 1 == q * stride + r,
                    1 <= r < stride,
                    q >= 0,
            ;
        }
    }
}

/// The condensed listing keeps every segment of a transcript of at most 400
/// segments, and fewer than 800 segments of any longer one.
pub proof fn condensed_listing_is_bounded(n: int)
    requires
        n >= 0,
    ensures
        n <= condense_target() ==> sampled_count(n, condense_stride(n)) == n,
        sampled_count(n, condense_stride(n)) < 2 * condense_target(),
{
    let s = condense_stride(n);
    if n <= 400 {
        lemma_sampled_count(n, 1);
    } else {
        assert(s >= 1);
        lemma_sampled_count(n, s);
        assert(n < 400 * (s + 1)) by (nonlinear_arith)
            requires
                s == n / 400,
                n > 400,
        ;
        assert((n + s - 1) / s < 800) by (nonlinear_arith)
            requires
                n < 400 * (s + 1),
                s >= 1,
        ;
    }
}

// ---------------------------------------------------------------------------
// Time shifts and construction
// ---------------------------------------------------------------------------

/// `segs` with every start and end moved by `offset` milliseconds.
pub open spec fn shifted(segs: Seq<Segment>, offset: int) -> Seq<Segment> {
    segs.map_values(
        |s: Segment| Segment { start_ms: (s.start_ms + offset) as i64, end_ms: (s.end_ms + offset) as i64, text: s.text },
    )
}

/// Whether every time of `segs`, moved by `offset`, still fits in an `i64`.
pub open spec fn can_shift(segs: Seq<Segment>, offset: int) -> bool {
    forall|i: int|
        0 <= i < segs.len() ==> i64::MIN <= #[trigger] segs[i].start_ms + offset <= i64::MAX
            && i64::MIN <= segs[i].end_ms + offset <= i64::MAX
}

/// Moves every segment by `offset_ms` milliseconds, as a transcript of a
/// clip that starts `offset_ms` into the video is moved to video time.
pub fn shift_segments(segments: &mut Vec<Segment>, offset_ms: i64)
    requires
        can_shift(old(segments)@, offset_ms as int),
    ensures
        final(segments)@ == shifted(old(segments)@, offset_ms as int),
{
    let ghost orig = segments@;
    let n = segments.len();
    for i in 0..n
        invariant
            n == orig.len(),
            segments@.len() == n,
            can_shift(orig, offset_ms as int),
            forall|k: int| 0 <= k < i ==> #[trigger] segments@[k] == shifted(orig, offset_ms as int)[k],
            forall|k: int| i <= k < n ==> #[trigger] segments@[k] == orig[k],
    {
        assert(segments@[i as int] == orig[i as int]);
        let mut seg = segments.remove(i);
        seg.start_ms = seg.start_ms + offset_ms;
        seg.end_ms = seg.end_ms + offset_ms;
        segments.insert(i, seg);
    }
    assert(segments@ == shifted(orig, offset_ms as int));
}

/// Shifting a transcript forward and then back by the same amount restores
/// it.
pub proof fn shift_then_unshift(segs: Seq<Segment>, offset: int)
    requires
        can_shift(segs, offset),
    ensures
        can_shift(shifted(segs, offset), -offset),
        shifted(shifted(segs, offset), -offset) == segs,
{
    let once = shifted(segs, offset);
    assert forall|i: int| 0 <= i < once.len() implies i64::MIN <= #[trigger] once[i].start_ms
        + -offset <= i64::MAX && i64::MIN <= once[i].end_ms + -offset <= i64::MAX by {
        assert(i64::MIN <= segs[i].start_ms + offset <= i64::MAX);
    }
    let twice = shifted(once, -offset);
    assert forall|i: int| 0 <= i < segs.len() implies #[trigger] twice[i] == segs[i] by {
        assert(i64::MIN <= segs[i].start_ms + offset <= i64::MAX);
    }
    assert(twice =~= segs);
}

/// A segment from speech-recognition output, whose times are in hundredths
/// of a second: the times in milliseconds, the text without surrounding
/// white space.
pub fn segment_from_centiseconds(t0: i64, t1: i64, text: &str) -> (seg: Segment)
    requires
        i64::MIN <= t0 * 10 <= i64::MAX,
        i64::MIN <= t1 * 10 <= i64::MAX,
    ensures
        seg.start_ms == t0 * 10,
        seg.end_ms == t1 * 10,
        seg.text@ == trimmed(text@),
{
    Segment { start_ms: t0 * 10, end_ms: t1 * 10, text: trim(text) }
}


// ---------------------------------------------------------------------------
// SRT time stamps read back
// ---------------------------------------------------------------------------

/// The time in milliseconds that an `H..H:MM:SS,mmm` stamp denotes.
pub open spec fn srt_time_value(t: Seq<char>) -> int {
    let n = t.len() as int;
    digits_value(t.take(n - 10)) * 3_600_000 + digits_value(t.subrange(n - 9, n - 7)) * 60_000
        + digits_value(t.subrange(n - 6, n - 4)) * 1000 + digits_value(t.subrange(n - 3, n))
}

proof fn lemma_dec_digits_short(k: nat, w: nat)
    requires
        (w == 1 && k < 10) || (w == 2 && k < 100) || (w == 3 && k < 1000),
    ensures
        dec_digits(k).len() <= w,
{
    if k >= 10 {
        assert(dec_digits(k / 10).len() == 1 || k >= 100);
        if k >= 100 {
            assert(dec_digits(k / 100).len() == 1);
            assert(dec_digits(k / 10) == dec_digits(k / 10 / 10).push(digit_char(k / 10 % 10)));
        }
    }
}

proof fn lemma_padded_field(k: nat, w: nat)
    requires
        (w == 2 && k < 100) || (w == 3 && k < 1000),
    ensures
        fmt_int(k as int, w).len() == w,
        digits_value(fmt_int(k as int, w)) == k,
{
    lemma_dec_digits_short(k, w);
    lemma_padded_value(k, w);
}

/// An SRT time stamp of a time that is not negative reads back as that
/// time: its last ten characters are `:MM:SS,mmm`, and hours, minutes,
/// seconds and milliseconds add up to the time.
pub proof fn srt_time_reads_back(ms: int)
    requires
        0 <= ms,
    ensures
        ({
            let t = srt_time(ms);
            let n = t.len() as int;
            &&& n >= 12
            &&& t[n - 10] == ':' && t[n - 7] == ':' && t[n - 4] == ','
            &&& srt_time_value(t) == ms
        }),
{
    let total = ms / 1000;
    let millis = ms % 1000;
    let hours = total / 3600;
    let minutes = (total % 3600) / 60;
    let seconds = total % 60;
    assert(trunc_div(ms, 1000) == total);
    assert(trunc_rem(ms, 1000) == millis);
    assert(trunc_div(total, 3600) == hours);
    assert(trunc_rem(total, 3600) == total % 3600);
    assert(trunc_div(total % 3600, 60) == minutes);
    assert(trunc_rem(total, 60) == seconds);
    let hf = fmt_int(hours, 2);
    let mf = fmt_int(minutes, 2);
    let sf = fmt_int(seconds, 2);
    let rf = fmt_int(millis, 3);
    lemma_padded_value(hours as nat, 2);
    assert(hf.len() >= 2);
    lemma_padded_field(minutes as nat, 2);
    lemma_padded_field(seconds as nat, 2);
    lemma_padded_field(millis as nat, 3);
    let t = srt_time(ms);
    assert(t == hf + seq![':'] + mf + seq![':'] + sf + seq![','] + rf);
    let n = t.len() as int;
    let h = hf.len() as int;
    assert(n == h + 10);
    assert(t.take(n - 10) == hf);
    assert(t.subrange(n - 9, n - 7) == mf);
    assert(t.subrange(n - 6, n - 4) == sf);
    assert(t.subrange(n - 3, n) == rf);
    assert(hours * 3_600_000 + minutes * 60_000 + seconds * 1000 + millis == ms) by (nonlinear_arith)
        requires
            total == ms / 1000,
            millis == ms % 1000,
            hours == total / 3600,
            minutes == (total % 3600) / 60,
            seconds == total % 60,
            ms >= 0,
    ;
}


// ---------------------------------------------------------------------------
// SRT time stamps below one hundred hours
// ---------------------------------------------------------------------------

/// The nine digits of a stamp `HH:MM:SS,mmm`, in the order they are written.
spec fn stamp_digits(ms: int) -> Seq<int> {
    let total = ms / 1000;
    let h = total / 3600;
    let m = total % 3600 / 60;
    let s = total % 60;
    let f = ms % 1000;
    seq![h / 10, h % 10, m / 10, m % 10, s / 10, s % 10, f / 100, f / 10 % 10, f % 10]
}

/// The stamp written with the digits `d`.
spec fn stamp_of(d: Seq<int>) -> Seq<char> {
    seq![
        digit_char(d[0] as nat),
        digit_char(d[1] as nat),
        ':',
        digit_char(d[2] as nat),
        digit_char(d[3] as nat),
        ':',
        digit_char(d[4] as nat),
        digit_char(d[5] as nat),
        ',',
        digit_char(d[6] as nat),
        digit_char(d[7] as nat),
        digit_char(d[8] as nat),
    ]
}

/// The time that the digits `d` of a stamp denote, each by its place.
spec fn stamp_weight(d: Seq<int>) -> int {
    d[0] * 36_000_000 + d[1] * 3_600_000 + d[2] * 600_000 + d[3] * 60_000 + d[4] * 10_000 + d[5]
        * 1000 + d[6] * 100 + d[7] * 10 + d[8]
}

/// Whether `d` are nine digits that a stamp can hold: minutes and seconds
/// start with a digit below six.
spec fn stamp_digits_bounded(d: Seq<int>) -> bool {
    &&& d.len() == 9
    &&& forall|k: int| 0 <= k < 9 ==> 0 <= #[trigger] d[k] < 10
    &&& d[2] < 6 && d[4] < 6
}

proof fn lemma_two_digits(k: int)
    requires
        0 <= k < 100,
    ensures
        fmt_int(k, 2) == seq![digit_char((k / 10) as nat), digit_char((k % 10) as nat)],
{
    let n = k as nat;
    if k < 10 {
        assert(dec_digits(n) == seq![digit_char(n)]);
        assert(digit_char(0) == '0');
        assert(fmt_int(k, 2) =~= seq![digit_char((k / 10) as nat), digit_char((k % 10) as nat)]);
    } else {
        assert(dec_digits(n / 10) == seq![digit_char(n / 10)]);
        assert(dec_digits(n) == dec_digits(n / 10).push(digit_char(n % 10)));
        assert(fmt_int(k, 2) =~= seq![digit_char((k / 10) as nat), digit_char((k % 10) as nat)]);
    }
}

proof fn lemma_three_digits(k: int)
    requires
        0 <= k < 1000,
    ensures
        fmt_int(k, 3) == seq![
            digit_char((k / 100) as nat),
            digit_char((k / 10 % 10) as nat),
            digit_char((k % 10) as nat),
        ],
{
    let n = k as nat;
    let want = seq![
        digit_char((k / 100) as nat),
        digit_char((k / 10 % 10) as nat),
        digit_char((k % 10) as nat),
    ];
    assert(digit_char(0) == '0');
    if k < 10 {
        assert(dec_digits(n) == seq![digit_char(n)]);
        assert(fmt_int(k, 3) =~= want);
    } else if k < 100 {
        assert(dec_digits(n / 10) == seq![digit_char(n / 10)]);
        assert(dec_digits(n) == dec_digits(n / 10).push(digit_char(n % 10)));
        assert(fmt_int(k, 3) =~= want);
    } else {
        let t = n / 10;
        assert(dec_digits(t / 10) == seq![digit_char(t / 10)]);
        assert(dec_digits(t) == dec_digits(t / 10).push(digit_char(t % 10)));
        assert(dec_digits(n) == dec_digits(t).push(digit_char(n % 10)));
        assert(t / 10 == n / 100);
        assert(fmt_int(k, 3) =~= want);
    }
}

proof fn lemma_srt_time_digits(ms: int)
    requires
        0 <= ms < 360_000_000,
    ensures
        srt_time(ms) == stamp_of(stamp_digits(ms)),
        stamp_digits_bounded(stamp_digits(ms)),
        stamp_weight(stamp_digits(ms)) == ms,
{
    let total = ms / 1000;
    let h = total / 3600;
    let m = total % 3600 / 60;
    let s = total % 60;
    let f = ms % 1000;
    assert(trunc_div(ms, 1000) == total);
    assert(trunc_rem(ms, 1000) == f);
    assert(trunc_div(total, 3600) == h);
    assert(trunc_rem(total, 3600) == total % 3600);
    assert(trunc_div(total % 3600, 60) == m);
    assert(trunc_rem(total, 60) == s);
    assert(h < 100);
    lemma_two_digits(h);
    lemma_two_digits(m);
    lemma_two_digits(s);
    lemma_three_digits(f);
    let d = stamp_digits(ms);
    assert(srt_time(ms) =~= stamp_of(d));
    assert(ms == total * 1000 + f);
    assert(total == h * 3600 + m * 60 + s);
    assert(stamp_weight(d) == h * 3_600_000 + m * 60_000 + s * 1000 + f);
}

proof fn lemma_digit_chars(d: int, e: int)
    requires
        0 <= d < 10,
        0 <= e < 10,
    ensures
        is_ascii_digit(digit_char(d as nat)),
        digit_char(d as nat) as int == d + 48,
        d < e ==> digit_char(d as nat) < digit_char(e as nat),
        d == e <==> digit_char(d as nat) == digit_char(e as nat),
{
}

proof fn lemma_value_two(c0: char, c1: char)
    ensures
        digits_value(seq![c0, c1]) == (c0 as int - 48) * 10 + (c1 as int - 48),
{
    assert(seq![c0, c1].drop_last() =~= seq![c0]);
    assert(seq![c0].drop_last() =~= Seq::<char>::empty());
    assert(digits_value(Seq::<char>::empty()) == 0);
    assert(digits_value(seq![c0]) == c0 as int - 48);
}

proof fn lemma_value_three(c0: char, c1: char, c2: char)
    ensures
        digits_value(seq![c0, c1, c2]) == (c0 as int - 48) * 100 + (c1 as int - 48) * 10 + (c2 as int
            - 48),
{
    assert(seq![c0, c1, c2].drop_last() =~= seq![c0, c1]);
    lemma_value_two(c0, c1);
}

proof fn lemma_stamp_fields(d: Seq<int>)
    requires
        stamp_digits_bounded(d),
    ensures
        ({
            let t = stamp_of(d);
            &&& t.len() == 12
            &&& t[2] == ':' && t[5] == ':' && t[8] == ','
            &&& forall|i: int|
                0 <= i < 12 && i != 2 && i != 5 && i != 8 ==> is_ascii_digit(#[trigger] t[i])
            &&& digits_value(t.subrange(0, 2)) == d[0] * 10 + d[1]
            &&& digits_value(t.subrange(3, 5)) == d[2] * 10 + d[3]
            &&& digits_value(t.subrange(6, 8)) == d[4] * 10 + d[5]
            &&& digits_value(t.subrange(9, 12)) == d[6] * 100 + d[7] * 10 + d[8]
        }),
{
    let t = stamp_of(d);
    let (d0, d1, d2, d3, d4, d5, d6, d7, d8) = (d[0], d[1], d[2], d[3], d[4], d[5], d[6], d[7], d[8]);
    lemma_digit_chars(d0, d0);
    lemma_digit_chars(d1, d1);
    lemma_digit_chars(d2, d2);
    lemma_digit_chars(d3, d3);
    lemma_digit_chars(d4, d4);
    lemma_digit_chars(d5, d5);
    lemma_digit_chars(d6, d6);
    lemma_digit_chars(d7, d7);
    lemma_digit_chars(d8, d8);
    assert(t.subrange(0, 2) =~= seq![t[0], t[1]]);
    assert(t.subrange(3, 5) =~= seq![t[3], t[4]]);
    assert(t.subrange(6, 8) =~= seq![t[6], t[7]]);
    assert(t.subrange(9, 12) =~= seq![t[9], t[10], t[11]]);
    lemma_value_two(t[0], t[1]);
    lemma_value_two(t[3], t[4]);
    lemma_value_two(t[6], t[7]);
    lemma_value_three(t[9], t[10], t[11]);
}

/// Below one hundred hours an SRT stamp has the fixed form `HH:MM:SS,mmm`:
/// twelve characters, ASCII digits but for `:` after the hours and the
/// minutes and `,` after the seconds; minutes and seconds are below sixty,
/// and the four fields add up to the time.
pub proof fn srt_time_has_fixed_form(ms: int)
    requires
        0 <= ms < 360_000_000,
    ensures
        ({
            let t = srt_time(ms);
            &&& t.len() == 12
            &&& t[2] == ':' && t[5] == ':' && t[8] == ','
            &&& forall|i: int|
                0 <= i < 12 && i != 2 && i != 5 && i != 8 ==> is_ascii_digit(#[trigger] t[i])
            &&& digits_value(t.subrange(3, 5)) < 60
            &&& digits_value(t.subrange(6, 8)) < 60
            &&& digits_value(t.subrange(0, 2)) * 3_600_000 + digits_value(t.subrange(3, 5)) * 60_000
                + digits_value(t.subrange(6, 8)) * 1000 + digits_value(t.subrange(9, 12)) == ms
        }),
{
    lemma_srt_time_digits(ms);
    let d = stamp_digits(ms);
    lemma_stamp_fields(d);
    assert(0 <= d[3] < 10 && 0 <= d[5] < 10);
}

proof fn lemma_place_value(x: Seq<int>, y: Seq<int>)
    requires
        stamp_digits_bounded(x),
        stamp_digits_bounded(y),
        stamp_weight(x) <= stamp_weight(y),
    ensures
        x[0] < y[0] || (x[0] == y[0] && (x[1] < y[1] || (x[1] == y[1] && (x[2] < y[2] || (x[2]
            == y[2] && (x[3] < y[3] || (x[3] == y[3] && (x[4] < y[4] || (x[4] == y[4] && (x[5]
            < y[5] || (x[5] == y[5] && (x[6] < y[6] || (x[6] == y[6] && (x[7] < y[7] || (x[7]
            == y[7] && x[8] <= y[8]))))))))))))))),
{
    let (x0, x1, x2, x3, x4, x5, x6, x7, x8) = (x[0], x[1], x[2], x[3], x[4], x[5], x[6], x[7], x[8]);
    let (y0, y1, y2, y3, y4, y5, y6, y7, y8) = (y[0], y[1], y[2], y[3], y[4], y[5], y[6], y[7], y[8]);
    assert(0 <= x0 < 10 && 0 <= x1 < 10 && 0 <= x3 < 10 && 0 <= x5 < 10);
    assert(0 <= x6 < 10 && 0 <= x7 < 10 && 0 <= x8 < 10 && 0 <= x2 && 0 <= x4);
    assert(0 <= y0 < 10 && 0 <= y1 < 10 && 0 <= y3 < 10 && 0 <= y5 < 10);
    assert(0 <= y6 < 10 && 0 <= y7 < 10 && 0 <= y8 < 10 && 0 <= y2 && 0 <= y4);
}

proof fn lemma_stamp_differs_at(x: Seq<int>, y: Seq<int>, i: int)
    requires
        stamp_digits_bounded(x),
        stamp_digits_bounded(y),
        0 <= i < 12,
        stamp_of(x).take(i) == stamp_of(y).take(i),
        stamp_of(x)[i] < stamp_of(y)[i],
    ensures
        str_le(stamp_of(x), stamp_of(y)),
{
    let ta = stamp_of(x);
    let tb = stamp_of(y);
    assert(0 <= i < ta.len() && i < tb.len() && ta.take(i) == tb.take(i) && ta[i] < tb[i]);
}

proof fn lemma_stamp_order(x: Seq<int>, y: Seq<int>)
    requires
        stamp_digits_bounded(x),
        stamp_digits_bounded(y),
        stamp_weight(x) <= stamp_weight(y),
    ensures
        str_le(stamp_of(x), stamp_of(y)),
{
    lemma_place_value(x, y);
    let ta = stamp_of(x);
    let tb = stamp_of(y);
    let (x0, x1, x2, x3, x4, x5, x6, x7, x8) = (x[0], x[1], x[2], x[3], x[4], x[5], x[6], x[7], x[8]);
    let (y0, y1, y2, y3, y4, y5, y6, y7, y8) = (y[0], y[1], y[2], y[3], y[4], y[5], y[6], y[7], y[8]);
    if x0 < y0 {
        lemma_digit_chars(x0, y0);
        assert(ta.take(0) =~= tb.take(0));
        lemma_stamp_differs_at(x, y, 0);
    } else if x1 < y1 {
        lemma_digit_chars(x1, y1);
        assert(ta.take(1) =~= tb.take(1));
        lemma_stamp_differs_at(x, y, 1);
    } else if x2 < y2 {
        lemma_digit_chars(x2, y2);
        assert(ta.take(3) =~= tb.take(3));
        lemma_stamp_differs_at(x, y, 3);
    } else if x3 < y3 {
        lemma_digit_chars(x3, y3);
        assert(ta.take(4) =~= tb.take(4));
        lemma_stamp_differs_at(x, y, 4);
    } else if x4 < y4 {
        lemma_digit_chars(x4, y4);
        assert(ta.take(6) =~= tb.take(6));
        lemma_stamp_differs_at(x, y, 6);
    } else if x5 < y5 {
        lemma_digit_chars(x5, y5);
        assert(ta.take(7) =~= tb.take(7));
        lemma_stamp_differs_at(x, y, 7);
    } else if x6 < y6 {
        lemma_digit_chars(x6, y6);
        assert(ta.take(9) =~= tb.take(9));
        lemma_stamp_differs_at(x, y, 9);
    } else if x7 < y7 {
        lemma_digit_chars(x7, y7);
        assert(ta.take(10) =~= tb.take(10));
        lemma_stamp_differs_at(x, y, 10);
    } else if x8 < y8 {
        lemma_digit_chars(x8, y8);
        assert(ta.take(11) =~= tb.take(11));
        lemma_stamp_differs_at(x, y, 11);
    } else {
        assert(tb.take(12) =~= ta);
    }
}

/// Below one hundred hours SRT stamps sort as the times they denote: the
/// stamp of an earlier time comes no later in the order of strings.
pub proof fn srt_times_sort_as_times(a: int, b: int)
    requires
        0 <= a <= b < 360_000_000,
    ensures
        str_le(srt_time(a), srt_time(b)),
{
    lemma_srt_time_digits(a);
    lemma_srt_time_digits(b);
    lemma_stamp_order(stamp_digits(a), stamp_digits(b));
}

} // verus!
