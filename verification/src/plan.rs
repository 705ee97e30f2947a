//! The pieces of a split: consecutive ranges between the cut points.
use vstd::prelude::*;

verus! {

/// The boundaries of the pieces: `first`, the cut points in order, `last`.
pub open spec fn boundaries<T>(first: T, points: Seq<T>, last: T) -> Seq<T> {
    seq![first] + points + seq![last]
}

/// The ranges between consecutive boundaries: one more piece than there
/// are cut points.
pub open spec fn pieces_between<T>(first: T, points: Seq<T>, last: T) -> Seq<(T, T)> {
    let b = boundaries(first, points, last);
    Seq::new(points.len() + 1, |i: int| (b[i], b[i + 1]))
}

/// The pieces `[first, p1], [p1, p2], ..., [pN, last]` of a range cut at
/// the points `points`, in order.
pub fn split_pieces<T: Copy>(first: T, points: &[T], last: T) -> (r: Vec<(T, T)>)
    requires
        points@.len() < usize::MAX,
    ensures
        r@ == pieces_between(first, points@, last),
{
    let ghost b = boundaries(first, points@, last);
    let mut bounds: Vec<T> = Vec::new();
    bounds.push(first);
    for i in 0..points.len()
        invariant
            bounds@ == seq![first] + points@.take(i as int),
    {
        bounds.push(points[i]);
        assert(points@.take(i + 1) == points@.take(i as int).push(points@[i as int]));
    }
    bounds.push(last);
    assert(points@.take(points@.len() as int) == points@);
    assert(bounds@ == b);
    let mut r: Vec<(T, T)> = Vec::new();
    let n = points.len() + 1;
    for i in 0..n
        invariant
            n == points@.len() + 1,
            bounds@ == b,
            b.len() == n + 1,
            r@ == Seq::new(i as nat, |k: int| (b[k], b[k + 1])),
    {
        r.push((bounds[i], bounds[i + 1]));
        assert(r@ == Seq::new((i + 1) as nat, |k: int| (b[k], b[k + 1])));
    }
    r
}

/// The pieces of a split cover the whole range without gap or overlap:
/// the first starts at `first`, the last ends at `last`, and each starts
/// where the one before it ends.
pub proof fn pieces_cover_range<T>(first: T, points: Seq<T>, last: T)
    ensures
        pieces_between(first, points, last).len() == points.len() + 1,
        pieces_between(first, points, last)[0].0 == first,
        pieces_between(first, points, last)[points.len() as int].1 == last,
        forall|i: int|
            0 <= i < points.len() ==> #[trigger] pieces_between(first, points, last)[i].1
                == pieces_between(first, points, last)[i + 1].0,
        forall|i: int|
            0 <= i < points.len() ==> #[trigger] pieces_between(first, points, last)[i].1 == points[i],
{
    let b = boundaries(first, points, last);
    assert(b[0] == first);
    assert(b[points.len() as int + 1] == last);
    assert forall|i: int| 0 <= i < points.len() implies #[trigger] pieces_between(
        first,
        points,
        last,
    )[i].1 == points[i] by {
        assert(b[i + 1] == points[i]);
    }
}

} // verus!
