//! Decisions of the stream-copy renderer: which packets of a clip are
//! written, and the timestamps they are written with, so that clips joined
//! one after another form one stream whose decoding timestamps only grow.
use vstd::prelude::*;

verus! {

// ---------------------------------------------------------------------------
// Packet timestamps
// ---------------------------------------------------------------------------

/// The larger of `a` and `b`.
pub open spec fn max(a: int, b: int) -> int {
    if a >= b {
        a
    } else {
        b
    }
}

/// The new decoding timestamp of a packet whose decoding timestamp is `dts`:
/// moved by `offset - base`, at least 0, and above `max_written`, the
/// largest one already written in its stream.
pub open spec fn new_dts(dts: int, base: int, offset: int, max_written: int) -> int {
    let moved = max(dts - base + offset, 0);
    if moved <= max_written {
        max_written + 1
    } else {
        moved
    }
}

/// The timestamps `(dts, pts)` a packet is written with. A packet with a
/// decoding timestamp gets `new_dts`, and its presentation timestamp is
/// moved by the same amount (keeping its distance to the decoding
/// timestamp) but not below the new decoding timestamp. A packet without a
/// decoding timestamp has its presentation timestamp moved by
/// `offset - base`, but not below 0.
pub open spec fn retimed(dts: Option<i64>, pts: Option<i64>, base: int, offset: int, max_written: int) -> (
    Option<int>,
    Option<int>,
) {
    match dts {
        Some(d) => {
            let n = new_dts(d as int, base, offset, max_written);
            let shift = n - (d - base + offset);
            (
                Some(n),
                match pts {
                    Some(p) => Some(max(p - base + offset + shift, n)),
                    None => None,
                },
            )
        },
        None => (
            None,
            match pts {
                Some(p) => Some(max(p - base + offset, 0)),
                None => None,
            },
        ),
    }
}

/// Whether `v` fits in an `i64`.
pub open spec fn fits(v: int) -> bool {
    i64::MIN <= v <= i64::MAX
}

/// Whether every intermediate value of `retimed` fits in an `i64`, as the
/// renderer's 64-bit arithmetic needs.
pub open spec fn retime_fits(dts: Option<i64>, pts: Option<i64>, base: int, offset: int, max_written: int) -> bool {
    match dts {
        Some(d) => {
            let n = new_dts(d as int, base, offset, max_written);
            let shift = n - (d - base + offset);
            &&& fits(d - base)
            &&& fits(d - base + offset)
            &&& fits(max_written + 1)
            &&& fits(shift)
            &&& (pts matches Some(p) ==> fits(p - base) && fits(p - base + offset) && fits(
                p - base + offset + shift,
            ))
        },
        None => pts matches Some(p) ==> fits(p - base) && fits(p - base + offset),
    }
}

/// Whether `a + b` fits in an `i64`, and its value when it does.
fn add_fits(a: i64, b: i64) -> (r: Option<i64>)
    ensures
        fits(a + b) <==> r is Some,
        r matches Some(v) ==> v == a + b,
{
    a.checked_add(b)
}

/// Whether `a - b` fits in an `i64`, and its value when it does.
fn sub_fits(a: i64, b: i64) -> (r: Option<i64>)
    ensures
        fits(a - b) <==> r is Some,
        r matches Some(v) ==> v == a - b,
{
    a.checked_sub(b)
}

/// Whether the renderer's arithmetic for a packet stays within `i64` (see
/// `retime_fits`); where it does not, the renderer's arithmetic overflows.
pub fn retime_would_fit(dts: Option<i64>, pts: Option<i64>, base: i64, offset: i64, max_written: i64) -> (b: bool)
    ensures
        b == retime_fits(dts, pts, base as int, offset as int, max_written as int),
{
    match dts {
        Some(d) => {
            let moved0 = match sub_fits(d, base) {
                Some(v) => v,
                None => return false,
            };
            let raw = match add_fits(moved0, offset) {
                Some(v) => v,
                None => return false,
            };
            let next = match add_fits(max_written, 1) {
                Some(v) => v,
                None => return false,
            };
            let moved = if raw >= 0 {
                raw
            } else {
                0
            };
            let n = if moved <= max_written {
                next
            } else {
                moved
            };
            let shift = match sub_fits(n, raw) {
                Some(v) => v,
                None => return false,
            };
            match pts {
                Some(p) => {
                    let a = match sub_fits(p, base) {
                        Some(v) => v,
                        None => return false,
                    };
                    let b = match add_fits(a, offset) {
                        Some(v) => v,
                        None => return false,
                    };
                    add_fits(b, shift).is_some()
                },
                None => true,
            }
        },
        None => match pts {
            Some(p) => {
                let a = match sub_fits(p, base) {
                    Some(v) => v,
                    None => return false,
                };
                add_fits(a, offset).is_some()
            },
            None => true,
        },
    }
}

/// The timestamps a packet is written with (see `retimed`). `base` is the
/// clip's starting time in the output stream's time base, `offset` where
/// the clip begins in the joined output, and `max_written` the largest
/// decoding timestamp already written in the stream (-1 for none).
pub fn retime_packet(dts: Option<i64>, pts: Option<i64>, base: i64, offset: i64, max_written: i64) -> (r: (
    Option<i64>,
    Option<i64>,
))
    requires
        retime_fits(dts, pts, base as int, offset as int, max_written as int),
    ensures
        retimed(dts, pts, base as int, offset as int, max_written as int) == (
            match r.0 {
                Some(d) => Some(d as int),
                None => None::<int>,
            },
            match r.1 {
                Some(p) => Some(p as int),
                None => None::<int>,
            },
        ),
        dts is Some ==> r.0 is Some && r.0.unwrap() > max_written,
        dts is Some && pts is Some ==> r.1 is Some && r.1.unwrap() >= r.0.unwrap(),
        dts is None ==> r.0 is None,
        pts is None ==> r.1 is None,
{
    match dts {
        Some(d) => {
            let raw = d - base + offset;
            let mut n = if raw >= 0 {
                raw
            } else {
                0
            };
            if n <= max_written {
                n = max_written + 1;
            }
            let shift = n - raw;
            let p = match pts {
                Some(p) => {
                    let moved = p - base + offset + shift;
                    Some(
                        if moved >= n {
                            moved
                        } else {
                            n
                        },
                    )
                },
                None => None,
            };
            (Some(n), p)
        },
        None => {
            let p = match pts {
                Some(p) => {
                    let moved = p - base + offset;
                    Some(
                        if moved >= 0 {
                            moved
                        } else {
                            0
                        },
                    )
                },
                None => None,
            };
            (None, p)
        },
    }
}

/// One packet handed to the renderer: its timestamps and the base and
/// offset in force for it.
pub struct PacketTimes {
    pub dts: Option<i64>,
    pub pts: Option<i64>,
    pub base: int,
    pub offset: int,
}

/// The decoding timestamps written for `packets`, fed in order to one
/// stream whose largest written decoding timestamp was `max_written`
/// before the first, and that largest value after the last.
pub open spec fn written_dts(packets: Seq<PacketTimes>, max_written: int) -> (Seq<Option<int>>, int)
    decreases packets.len(),
{
    if packets.len() == 0 {
        (Seq::empty(), max_written)
    } else {
        let (before, m) = written_dts(packets.drop_last(), max_written);
        let p = packets.last();
        match retimed(p.dts, p.pts, p.base, p.offset, m).0 {
            Some(d) => (before.push(Some(d)), d),
            None => (before.push(None), m),
        }
    }
}

/// Within a stream, the decoding timestamps the renderer writes strictly
/// increase from packet to packet, and all exceed the largest one written
/// before, whatever the packets' own timestamps are.
pub proof fn written_dts_increase(packets: Seq<PacketTimes>, max_written: int)
    ensures
        written_dts(packets, max_written).0.len() == packets.len(),
        written_dts(packets, max_written).1 >= max_written,
        forall|i: int|
            0 <= i < packets.len() && (#[trigger] written_dts(packets, max_written).0[i]) is Some
                ==> max_written < written_dts(packets, max_written).0[i].unwrap() <= written_dts(
                packets,
                max_written,
            ).1,
        forall|i: int, j: int|
            0 <= i < j < packets.len() && (#[trigger] written_dts(packets, max_written).0[i]) is Some
                && (#[trigger] written_dts(packets, max_written).0[j]) is Some ==> written_dts(
                packets,
                max_written,
            ).0[i].unwrap() < written_dts(packets, max_written).0[j].unwrap(),
    decreases packets.len(),
{
    if packets.len() > 0 {
        let init = packets.drop_last();
        written_dts_increase(init, max_written);
        let (before, m) = written_dts(init, max_written);
        let p = packets.last();
        let out = written_dts(packets, max_written).0;
        assert forall|i: int| 0 <= i < init.len() implies #[trigger] out[i] == before[i] by {}
        assert forall|i: int, j: int|
            0 <= i < j < packets.len() && (#[trigger] out[i]) is Some && (#[trigger] out[j]) is Some
                implies out[i].unwrap() < out[j].unwrap() by {
            assert(out[i] == before[i]);
            if j < init.len() {
                assert(out[j] == before[j]);
            }
        }
    }
}

/// Moves each stream's offset past the clip just written: a stream whose
/// last written decoding timestamp is positive continues one tick after
/// it; the others keep their offset.
pub fn advance_offsets(offsets: &mut Vec<i64>, last_dts: &[i64])
    requires
        last_dts@.len() >= old(offsets)@.len(),
        forall|i: int| 0 <= i < old(offsets)@.len() ==> #[trigger] last_dts@[i] < i64::MAX,
    ensures
        final(offsets)@.len() == old(offsets)@.len(),
        forall|i: int|
            0 <= i < old(offsets)@.len() ==> #[trigger] final(offsets)@[i] == if last_dts@[i] > 0 {
                last_dts@[i] + 1
            } else {
                old(offsets)@[i] as int
            },
{
    let ghost start = offsets@;
    let n = offsets.len();
    for i in 0..n
        invariant
            n == start.len(),
            offsets@.len() == n,
            last_dts@.len() >= n,
            forall|k: int| 0 <= k < n ==> #[trigger] last_dts@[k] < i64::MAX,
            forall|k: int|
                0 <= k < i ==> #[trigger] offsets@[k] == if last_dts@[k] > 0 {
                    last_dts@[k] + 1
                } else {
                    start[k] as int
                },
            forall|k: int| i <= k < n ==> #[trigger] offsets@[k] == start[k],
    {
        if last_dts[i] > 0 {
            offsets.set(i, last_dts[i] + 1);
        }
    }
}

// ---------------------------------------------------------------------------
// Which packets of a clip are written
// ---------------------------------------------------------------------------

/// What to do with a packet of a clip.
#[derive(Debug, PartialEq, Eq, Structural)]
pub enum PacketAction {
    /// Leave the packet out.
    Skip,
    /// Write the packet.
    Write,
    /// Every stream has passed the clip's end: stop reading the clip.
    Stop,
}

/// The decision for one packet: whether its time becomes the clip's
/// reference time, and what to do with it.
#[derive(Debug, PartialEq, Eq, Structural)]
pub struct PacketDecision {
    pub adopt_reference: bool,
    pub action: PacketAction,
}

/// What is known of a packet when it is read. `before_reference` (for
/// packets that are not video) tells whether the packet's time is more than
/// 50 ms before the clip's reference time, and `past_end` whether it is at
/// or after the clip's end.
pub struct PacketEvent {
    pub stream: usize,
    pub is_video: bool,
    pub is_key: bool,
    pub before_reference: bool,
    pub past_end: bool,
}

/// The progress of reading one clip: whether its first video keyframe has
/// been found, and which streams have passed the clip's end.
pub struct ClipProgress {
    pub seen_keyframe: bool,
    pub done: Vec<bool>,
    pub mapped_streams: usize,
}

/// Whether every stream is done.
pub open spec fn all_done(done: Seq<bool>) -> bool {
    forall|i: int| 0 <= i < done.len() ==> #[trigger] done[i]
}

/// The decision for a packet and the progress after it: packets of
/// unmapped or finished streams are left out; video is left out until its
/// first keyframe, whose time becomes the reference; other streams are left
/// out while more than 50 ms before the reference; a packet at or after the
/// clip's end finishes its stream (and the clip, once every stream is
/// finished); any other packet is written.
pub open spec fn decide(seen: bool, done: Seq<bool>, mapped: int, e: PacketEvent) -> (bool, Seq<bool>, PacketDecision) {
    if e.stream >= mapped || done[e.stream as int] {
        (seen, done, PacketDecision { adopt_reference: false, action: PacketAction::Skip })
    } else if e.is_video && !seen && !e.is_key {
        (seen, done, PacketDecision { adopt_reference: false, action: PacketAction::Skip })
    } else {
        let adopt = e.is_video && !seen;
        let seen2 = seen || adopt;
        if !e.is_video && e.before_reference {
            (seen2, done, PacketDecision { adopt_reference: adopt, action: PacketAction::Skip })
        } else if e.past_end {
            let done2 = done.update(e.stream as int, true);
            (
                seen2,
                done2,
                PacketDecision {
                    adopt_reference: adopt,
                    action: if all_done(done2) {
                        PacketAction::Stop
                    } else {
                        PacketAction::Skip
                    },
                },
            )
        } else {
            (seen2, done, PacketDecision { adopt_reference: adopt, action: PacketAction::Write })
        }
    }
}

/// Within a clip, a packet of a copied stream that has not finished and is
/// before the clip's end is handled so: video is left out until the first
/// keyframe, and from that keyframe on every video packet is written,
/// whatever its time (the keyframe the clip starts from may lie before the
/// clip's start); any other packet is written exactly when it is not more
/// than 50 ms before the reference time.
pub proof fn clip_packets_written(seen: bool, done: Seq<bool>, mapped: int, e: PacketEvent)
    requires
        e.stream < mapped,
        e.stream < done.len(),
        !done[e.stream as int],
        !e.past_end,
    ensures
        e.is_video && (seen || e.is_key) ==> decide(seen, done, mapped, e).2.action
            == PacketAction::Write,
        e.is_video && !seen && !e.is_key ==> decide(seen, done, mapped, e).2.action
            == PacketAction::Skip,
        !e.is_video ==> (decide(seen, done, mapped, e).2.action == PacketAction::Write
            <==> !e.before_reference),
        !e.is_video ==> decide(seen, done, mapped, e).2.action != PacketAction::Stop,
        decide(seen, done, mapped, e).1 == done,
{
}

/// The clip's reference time is taken once, from its first video keyframe:
/// a packet's time becomes the reference exactly when it is a video
/// keyframe of a copied, unfinished stream and no keyframe was seen before;
/// once one was seen, it stays seen and no later packet moves the reference.
pub proof fn reference_is_first_keyframe(seen: bool, done: Seq<bool>, mapped: int, e: PacketEvent)
    requires
        e.stream < done.len(),
    ensures
        decide(seen, done, mapped, e).2.adopt_reference <==> (e.stream < mapped && !done[e.stream as int]
            && e.is_video && e.is_key && !seen),
        decide(seen, done, mapped, e).0 == (seen || decide(seen, done, mapped, e).2.adopt_reference),
        seen ==> decide(seen, done, mapped, e).0 && !decide(seen, done, mapped, e).2.adopt_reference,
{
}

impl ClipProgress {
    /// The progress at the start of a clip with `streams` streams, of which
    /// the first `mapped_streams` are copied to the output.
    pub fn new(streams: usize, mapped_streams: usize) -> (p: ClipProgress)
        ensures
            !p.seen_keyframe,
            p.done@ == Seq::new(streams as nat, |_i: int| false),
            p.mapped_streams == mapped_streams,
    {
        let mut done: Vec<bool> = Vec::new();
        for i in 0..streams
            invariant
                done@ == Seq::new(i as nat, |_i: int| false),
        {
            done.push(false);
            assert(done@ == Seq::new((i + 1) as nat, |_i: int| false));
        }
        ClipProgress { seen_keyframe: false, done, mapped_streams }
    }

    /// Decides what to do with a packet of the clip (see `decide`).
    pub fn step(&mut self, e: PacketEvent) -> (d: PacketDecision)
        requires
            e.stream < old(self).done@.len(),
        ensures
            (final(self).seen_keyframe, final(self).done@, d) == decide(
                old(self).seen_keyframe,
                old(self).done@,
                old(self).mapped_streams as int,
                e,
            ),
            final(self).mapped_streams == old(self).mapped_streams,
            d.action == PacketAction::Write ==> !old(self).done@[e.stream as int] && e.stream
                < old(self).mapped_streams,
            d.action == PacketAction::Write && e.is_video ==> old(self).seen_keyframe || e.is_key,
    {
        if e.stream >= self.mapped_streams || self.done[e.stream] {
            return PacketDecision { adopt_reference: false, action: PacketAction::Skip };
        }
        if e.is_video && !self.seen_keyframe && !e.is_key {
            return PacketDecision { adopt_reference: false, action: PacketAction::Skip };
        }
        let adopt = e.is_video && !self.seen_keyframe;
        if adopt {
            self.seen_keyframe = true;
        }
        if !e.is_video && e.before_reference {
            return PacketDecision { adopt_reference: adopt, action: PacketAction::Skip };
        }
        if e.past_end {
            self.done.set(e.stream, true);
            let mut all = true;
            for i in 0..self.done.len()
                invariant
                    all == forall|k: int| 0 <= k < i ==> #[trigger] self.done@[k],
            {
                if !self.done[i] {
                    all = false;
                }
            }
            let action = if all {
                PacketAction::Stop
            } else {
                PacketAction::Skip
            };
            return PacketDecision { adopt_reference: adopt, action };
        }
        PacketDecision { adopt_reference: adopt, action: PacketAction::Write }
    }
}

} // verus!
