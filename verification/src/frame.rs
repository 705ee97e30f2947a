//! Pixel-buffer logic of the portrait crop: the crop window's size and
//! position, copying a window out of a plane of a YUV 4:2:0 picture,
//! packing a strided grey picture into contiguous rows, and picking the
//! largest detected face.
use vstd::prelude::*;

verus! {

// ---------------------------------------------------------------------------
// Crop geometry
// ---------------------------------------------------------------------------

/// `n` rounded down to an even number (`n & !1`).
pub open spec fn even_floor(n: int) -> int {
    n - n % 2
}

/// The width of a 9:16 portrait window in a picture `height` pixels high:
/// `height * 9 / 16` rounded to the nearest integer (halves up), made even,
/// and at least 2.
pub open spec fn portrait_width(height: int) -> int {
    let w = even_floor((9 * height + 8) / 16);
    if w >= 2 {
        w
    } else {
        2
    }
}

/// The width of the portrait crop window for a picture `src_h` pixels high.
/// The floating-point expression `(src_h as f64 * 9.0 / 16.0).round()` is
/// exact for every `u32` height (each intermediate value is representable),
/// so it equals the integer rounding computed here.
pub fn mobile_crop_width(src_h: u32) -> (w: u32)
    ensures
        w == portrait_width(src_h as int),
        w % 2 == 0,
        w >= 2,
{
    let r = ((src_h as u64) * 9 + 8) / 16;
    let even = r - r % 2;
    if even >= 2 {
        even as u32
    } else {
        2
    }
}

/// Why a picture cannot be cropped to portrait format.
#[derive(Debug, PartialEq, Eq, Structural)]
pub struct TooNarrow {
    /// The smallest width that would allow the crop.
    pub needed_width: u32,
}

/// The portrait crop window `(width, height)` for a `src_w` x `src_h`
/// picture: the full height and the portrait width, which must be smaller
/// than the picture's width.
pub fn mobile_crop_geometry(src_w: u32, src_h: u32) -> (r: Result<(u32, u32), TooNarrow>)
    ensures
        portrait_width(src_h as int) < src_w ==> r == Ok::<(u32, u32), TooNarrow>(
            (portrait_width(src_h as int) as u32, src_h),
        ),
        portrait_width(src_h as int) >= src_w ==> r == Err::<(u32, u32), TooNarrow>(
            TooNarrow { needed_width: (portrait_width(src_h as int) + 2) as u32 },
        ),
{
    let crop_w = mobile_crop_width(src_h);
    if crop_w >= src_w {
        return Err(TooNarrow { needed_width: crop_w + 2 });
    }
    Ok((crop_w, src_h))
}

/// `v` limited to `[lo, hi]`.
pub open spec fn clamp(v: int, lo: int, hi: int) -> int {
    if v < lo {
        lo
    } else if v > hi {
        hi
    } else {
        v
    }
}

/// The left edge of the crop window centred on `center_x`: kept inside the
/// picture, and even so that the half-resolution chroma planes stay
/// aligned.
pub open spec fn crop_left(center_x: int, src_w: int, crop_w: int) -> int {
    even_floor(clamp(center_x - crop_w / 2, 0, src_w - crop_w))
}

/// The left edge of a `crop_w`-wide window centred as near as possible on
/// column `center_x` of a `src_w`-wide picture.
pub fn crop_x_for_center(center_x: i32, src_w: u32, crop_w: u32) -> (x: u32)
    requires
        crop_w <= src_w <= i32::MAX,
        center_x - crop_w / 2 >= i32::MIN,
    ensures
        x == crop_left(center_x as int, src_w as int, crop_w as int),
        x % 2 == 0,
        x + crop_w <= src_w,
{
    let half_crop = (crop_w as i32) / 2;
    let lo: i32 = 0;
    let hi: i32 = (src_w as i32) - (crop_w as i32);
    let v = center_x - half_crop;
    let c = if v < lo {
        lo
    } else if v > hi {
        hi
    } else {
        v
    };
    let cu = c as u32;
    cu - cu % 2
}

// ---------------------------------------------------------------------------
// Copying a window out of a plane
// ---------------------------------------------------------------------------

/// `dst` after copying rows `0..rows` of the window: row `r` of the window
/// (`w` bytes starting at `r * src_stride + x` in `src`) is written at
/// `r * dst_stride` in `dst`, the rows in order.
pub open spec fn copy_rows(
    dst: Seq<u8>,
    src: Seq<u8>,
    src_stride: int,
    dst_stride: int,
    x: int,
    w: int,
    rows: int,
) -> Seq<u8>
    decreases rows,
{
    if rows <= 0 {
        dst
    } else {
        let prev = copy_rows(dst, src, src_stride, dst_stride, x, w, rows - 1);
        let r = rows - 1;
        Seq::new(
            prev.len(),
            |i: int|
                if r * dst_stride <= i < r * dst_stride + w {
                    src[r * src_stride + x + (i - r * dst_stride)]
                } else {
                    prev[i]
                },
        )
    }
}

/// Whether every row of a `w` x `h` window at column `x` lies within both
/// planes.
pub open spec fn window_fits(
    src_len: int,
    dst_len: int,
    src_stride: int,
    dst_stride: int,
    x: int,
    w: int,
    h: int,
) -> bool {
    h == 0 || ((h - 1) * src_stride + x + w <= src_len && (h - 1) * dst_stride + w <= dst_len)
}

/// The window of plane `plane` of a YUV 4:2:0 picture that corresponds to
/// a `crop_w` x `crop_h` crop at column `crop_x`: the luma plane (0) at
/// full resolution, the chroma planes at half resolution in both directions.
pub open spec fn plane_window(plane: int, crop_x: int, crop_w: int, crop_h: int) -> (int, int, int) {
    if plane == 0 {
        (crop_x, crop_w, crop_h)
    } else {
        (crop_x / 2, crop_w / 2, crop_h / 2)
    }
}

/// The luma plane is cut with the crop window itself, and both chroma
/// planes with one and the same window at half resolution: its column,
/// width and height are half those of the crop, rounded down.
pub proof fn chroma_planes_share_half_window(crop_x: int, crop_w: int, crop_h: int)
    requires
        0 <= crop_x,
        0 <= crop_w,
        0 <= crop_h,
    ensures
        plane_window(0, crop_x, crop_w, crop_h) == (crop_x, crop_w, crop_h),
        plane_window(1, crop_x, crop_w, crop_h) == plane_window(2, crop_x, crop_w, crop_h),
        ({
            let (x, w, h) = plane_window(1, crop_x, crop_w, crop_h);
            &&& 2 * x <= crop_x < 2 * x + 2
            &&& 2 * w <= crop_w < 2 * w + 2
            &&& 2 * h <= crop_h < 2 * h + 2
        }),
{
}

proof fn lemma_row_bound(r: int, h: int, stride: int)
    requires
        0 <= r < h,
        stride >= 0,
    ensures
        r * stride <= (h - 1) * stride,
{
    assert(r * stride <= (h - 1) * stride) by (nonlinear_arith)
        requires
            0 <= r <= h - 1,
            stride >= 0,
    ;
}

/// Whether `a * b + c` is at most `limit` (computed without overflow).
fn mul_add_at_most(a: usize, b: usize, c: usize, limit: usize) -> (r: bool)
    ensures
        r == (a * b + c <= limit),
{
    match a.checked_mul(b) {
        Some(p) => match p.checked_add(c) {
            Some(q) => q <= limit,
            None => false,
        },
        None => {
            assert(a * b + c > limit) by (nonlinear_arith)
                requires
                    a * b > usize::MAX,
                    c >= 0,
                    limit <= usize::MAX,
            ;
            false
        },
    }
}

/// Whether the window of plane `plane` of a crop lies within planes of
/// `src_len` and `dst_len` bytes (see `crop_plane`).
pub fn crop_plane_fits(
    plane: usize,
    src_len: usize,
    dst_len: usize,
    src_stride: usize,
    dst_stride: usize,
    crop_x: usize,
    crop_w: usize,
    crop_h: usize,
) -> (b: bool)
    ensures
        b == ({
            let (x, w, h) = plane_window(plane as int, crop_x as int, crop_w as int, crop_h as int);
            window_fits(src_len as int, dst_len as int, src_stride as int, dst_stride as int, x, w, h)
        }),
{
    let (x, w, h) = if plane == 0 {
        (crop_x, crop_w, crop_h)
    } else {
        (crop_x / 2, crop_w / 2, crop_h / 2)
    };
    if h == 0 {
        return true;
    }
    if x > src_len || w > src_len - x {
        return false;
    }
    mul_add_at_most(h - 1, src_stride, x + w, src_len) && mul_add_at_most(h - 1, dst_stride, w, dst_len)
}

/// Copies the window of plane `plane` of a YUV 4:2:0 crop (see
/// `plane_window`) from `src` into `dst`, row by row.
pub fn crop_plane(
    plane: usize,
    src: &[u8],
    src_stride: usize,
    dst: &mut [u8],
    dst_stride: usize,
    crop_x: usize,
    crop_w: usize,
    crop_h: usize,
)
    requires
        ({
            let (x, w, h) = plane_window(plane as int, crop_x as int, crop_w as int, crop_h as int);
            window_fits(src@.len() as int, old(dst)@.len() as int, src_stride as int, dst_stride as int, x, w, h)
        }),
    ensures
        ({
            let (x, w, h) = plane_window(plane as int, crop_x as int, crop_w as int, crop_h as int);
            final(dst)@ == copy_rows(old(dst)@, src@, src_stride as int, dst_stride as int, x, w, h)
        }),
{
    let (x, w, h) = if plane == 0 {
        (crop_x, crop_w, crop_h)
    } else {
        (crop_x / 2, crop_w / 2, crop_h / 2)
    };
    let ghost start = dst@;
    let src_len = src.len();
    let dst_len = dst.len();
    for row in 0..h
        invariant
            dst@.len() == start.len(),
            src_len == src@.len(),
            dst_len == start.len(),
            window_fits(src@.len() as int, start.len() as int, src_stride as int, dst_stride as int, x as int, w as int, h as int),
            dst@ == copy_rows(start, src@, src_stride as int, dst_stride as int, x as int, w as int, row as int),
    {
        proof {
            lemma_row_bound(row as int, h as int, src_stride as int);
            lemma_row_bound(row as int, h as int, dst_stride as int);
        }
        let s = row * src_stride + x;
        let d = row * dst_stride;
        let ghost before = dst@;
        for c in 0..w
            invariant
                dst@.len() == before.len(),
                src_len == src@.len(),
                dst_len == dst@.len(),
                s + w <= src_len,
                d + w <= dst_len,
                forall|i: int| 0 <= i < dst@.len() ==> #[trigger] dst@[i] == if d <= i < d + c {
                    src@[s + (i - d)]
                } else {
                    before[i]
                },
        {
            dst[d + c] = src[s + c];
        }
        proof {
            let next = copy_rows(start, src@, src_stride as int, dst_stride as int, x as int, w as int, row + 1);
            assert(dst@ =~= next);
        }
    }
}

/// Where rows of the destination do not overlap (`dst_stride >= w`), each
/// byte of the window lands at its place in the destination and every other
/// byte of the destination is left as it was.
pub proof fn copied_window_is_placed(
    dst: Seq<u8>,
    src: Seq<u8>,
    src_stride: int,
    dst_stride: int,
    x: int,
    w: int,
    h: int,
)
    requires
        0 <= w <= dst_stride,
        0 <= h,
        0 <= src_stride,
        0 <= x,
    ensures
        copy_rows(dst, src, src_stride, dst_stride, x, w, h).len() == dst.len(),
        forall|r: int, c: int|
            0 <= r < h && 0 <= c < w && r * dst_stride + c < dst.len() ==> #[trigger] copy_rows(
                dst,
                src,
                src_stride,
                dst_stride,
                x,
                w,
                h,
            )[r * dst_stride + c] == src[r * src_stride + x + c],
        forall|i: int|
            0 <= i < dst.len() && (i >= h * dst_stride || i % dst_stride >= w) ==> #[trigger] copy_rows(
                dst,
                src,
                src_stride,
                dst_stride,
                x,
                w,
                h,
            )[i] == dst[i],
    decreases h,
{
    if h > 0 {
        copied_window_is_placed(dst, src, src_stride, dst_stride, x, w, h - 1);
        let prev = copy_rows(dst, src, src_stride, dst_stride, x, w, h - 1);
        let cur = copy_rows(dst, src, src_stride, dst_stride, x, w, h);
        let r0 = h - 1;
        assert forall|r: int, c: int|
            0 <= r < h && 0 <= c < w && r * dst_stride + c < dst.len() implies #[trigger] cur[r
            * dst_stride + c] == src[r * src_stride + x + c] by {
            let i = r * dst_stride + c;
            if r < r0 {
                assert(r * dst_stride + c < r0 * dst_stride) by (nonlinear_arith)
                    requires
                        0 <= r < r0,
                        0 <= c < w <= dst_stride,
                ;
                assert(cur[i] == prev[i]);
            } else {
                assert(i - r0 * dst_stride == c);
            }
        }
        assert forall|i: int|
            0 <= i < dst.len() && (i >= h * dst_stride || i % dst_stride >= w) implies #[trigger] cur[i]
            == dst[i] by {
            if w > 0 {
                assert(!(r0 * dst_stride <= i < r0 * dst_stride + w)) by {
                    if r0 * dst_stride <= i < r0 * dst_stride + w {
                        assert(i < h * dst_stride) by (nonlinear_arith)
                            requires
                                i < r0 * dst_stride + w,
                                w <= dst_stride,
                                r0 == h - 1,
                        ;
                        assert(i % dst_stride == i - r0 * dst_stride) by (nonlinear_arith)
                            requires
                                r0 * dst_stride <= i < r0 * dst_stride + w,
                                w <= dst_stride,
                                r0 >= 0,
                        ;
                    }
                }
                assert(i >= (h - 1) * dst_stride || i % dst_stride >= w) by (nonlinear_arith)
                    requires
                        i >= h * dst_stride || i % dst_stride >= w,
                        dst_stride >= 0,
                ;
            }
            assert(cur[i] == prev[i]);
        }
    }
}

// ---------------------------------------------------------------------------
// Packing a strided picture
// ---------------------------------------------------------------------------

/// Whether a `w` x `h` picture with `stride` bytes per row lies within
/// `len` bytes as `pack_rows` reads it.
pub fn pack_rows_fits(len: usize, stride: usize, w: usize, h: usize) -> (b: bool)
    ensures
        b == ((stride == w ==> w * h <= len) && (stride != w ==> h == 0 || (h - 1) * stride + w <= len)),
{
    if stride == w {
        mul_add_at_most(w, h, 0, len)
    } else {
        h == 0 || mul_add_at_most(h - 1, stride, w, len)
    }
}

/// The rows of a `w` x `h` picture stored with `stride` bytes per row,
/// packed without padding; the bytes `0..w*h` when the rows are already
/// contiguous.
pub fn pack_rows(raw: &[u8], stride: usize, w: usize, h: usize) -> (v: Vec<u8>)
    requires
        stride == w ==> w * h <= raw.len(),
        stride != w ==> h == 0 || (h - 1) * stride + w <= raw.len(),
    ensures
        v@.len() == w * h,
        forall|r: int, c: int|
            0 <= r < h && 0 <= c < w ==> #[trigger] v@[r * w + c] == raw@[r * stride + c],
{
    let mut v: Vec<u8> = Vec::new();
    if stride == w {
        let n = w * h;
        for i in 0..n
            invariant
                n == w * h,
                n <= raw@.len(),
                v@ == raw@.take(i as int),
        {
            v.push(raw[i]);
            assert(raw@.take(i + 1) == raw@.take(i as int).push(raw@[i as int]));
        }
        assert(v@ == raw@.take((w * h) as int));
        assert forall|r: int, c: int| 0 <= r < h && 0 <= c < w implies #[trigger] v@[r * w + c]
            == raw@[r * stride + c] by {
            assert(r * w + c < w * h) by (nonlinear_arith)
                requires
                    0 <= r < h,
                    0 <= c < w,
            ;
        }
        return v;
    }
    assert(0 * w == 0) by (nonlinear_arith);
    let raw_len = raw.len();
    for row in 0..h
        invariant
            stride != w,
            raw_len == raw@.len(),
            h == 0 || (h - 1) * stride + w <= raw_len,
            v@.len() == row * w,
            forall|r: int, c: int|
                0 <= r < row && 0 <= c < w ==> #[trigger] v@[r * w + c] == raw@[r * stride + c],
    {
        proof {
            lemma_row_bound(row as int, h as int, stride as int);
        }
        let base = row * stride;
        let ghost before = v@;
        for c in 0..w
            invariant
                raw_len == raw@.len(),
                base + w <= raw_len,
                base == row * stride,
                v@.len() == row * w + c,
                forall|k: int| 0 <= k < row * w ==> #[trigger] v@[k] == before[k],
                before.len() == row * w,
                forall|k: int| 0 <= k < c ==> #[trigger] v@[row * w + k] == raw@[base + k],
        {
            v.push(raw[base + c]);
        }
        proof {
            assert(v@.len() == (row + 1) * w) by (nonlinear_arith)
                requires
                    v@.len() == row * w + w,
            ;
            assert forall|r: int, c: int| 0 <= r < row + 1 && 0 <= c < w implies #[trigger] v@[r * w
                + c] == raw@[r * stride + c] by {
                if r < row {
                    assert(r * w + c < row * w) by (nonlinear_arith)
                        requires
                            0 <= r < row,
                            0 <= c < w,
                    ;
                    assert(v@[r * w + c] == before[r * w + c]);
                }
            }
        }
    }
    assert(h * w == w * h) by (nonlinear_arith);
    v
}

// ---------------------------------------------------------------------------
// Choosing a face
// ---------------------------------------------------------------------------

/// The area of a detected face's bounding box `(width, height)`.
pub open spec fn area(dims: (u32, u32)) -> int {
    dims.0 * dims.1
}

/// The index of the face with the largest bounding-box area, the last one
/// among equals (as `Iterator::max_by_key` picks it), or `None` when no face
/// was detected.
pub fn largest_face(faces: &[(u32, u32)]) -> (r: Option<usize>)
    requires
        forall|i: int| 0 <= i < faces@.len() ==> area(#[trigger] faces@[i]) <= u32::MAX,
    ensures
        faces@.len() == 0 <==> r is None,
        r matches Some(k) ==> {
            &&& k < faces@.len()
            &&& forall|j: int| 0 <= j < faces@.len() ==> area(#[trigger] faces@[j]) <= area(faces@[k as int])
            &&& forall|j: int| k < j < faces@.len() ==> area(#[trigger] faces@[j]) < area(faces@[k as int])
        },
{
    if faces.len() == 0 {
        return None;
    }
    let mut best: usize = 0;
    let mut best_area: u32 = faces[0].0 * faces[0].1;
    for i in 1..faces.len()
        invariant
            faces@.len() > 0,
            forall|i: int| 0 <= i < faces@.len() ==> area(#[trigger] faces@[i]) <= u32::MAX,
            best < i,
            best_area == area(faces@[best as int]),
            forall|j: int| 0 <= j < i ==> area(#[trigger] faces@[j]) <= best_area,
            forall|j: int| best < j < i ==> area(#[trigger] faces@[j]) < best_area,
    {
        assert(area(faces@[i as int]) <= u32::MAX);
        let a = faces[i].0 * faces[i].1;
        if a >= best_area {
            best = i;
            best_area = a;
        }
    }
    Some(best)
}

} // verus!
