//! Subject boxes and face detection: what the face model is shown, and what
//! its raw numbers mean.
//!
//! Model: "RFB-320" from Ultra-Light-Fast-Generic-Face-Detector-1MB. Its graph
//! outputs raw, un-decoded regression deltas relative to a fixed set of prior
//! (anchor) boxes, so prior generation and box decoding are done here.

use vstd::prelude::*;

use crate::fixed::floor_div;
use crate::rank::{
    in_range, rank, ranked, ranking_falls, ranking_is_stable, ranking_keeps_members,
};
use crate::raster::{resize_exact, triangle_resized, RgbImage};
use crate::select::{first_indices, indices};

verus! {

/// How many priors the face model has.
pub const PRIOR_COUNT: usize = 4420;

/// Sub-pixels per pixel: box coordinates are counted in these.
pub const SUBPIXELS: i64 = 65_536;

/// No box coordinate lies further from the origin than this many sub-pixels
/// (sixteen million pixels).
pub const MAX_COORDINATE: i64 = 1_099_511_627_776;

/// A detected face (or other subject), in sub-pixels of the picture it was
/// detected in.
#[derive(Debug, Clone, Copy, PartialEq, Eq, Structural)]
pub struct FaceBox {
    pub x1: i64,
    pub y1: i64,
    pub x2: i64,
    pub y2: i64,
    /// Confidence, in units of 2^-32.
    pub score: u64,
}

/// Whether `v` may be a coordinate.
pub open spec fn is_coordinate(v: i64) -> bool {
    -MAX_COORDINATE <= v <= MAX_COORDINATE
}

impl FaceBox {
    /// All four coordinates are in range.
    pub open spec fn wf(self) -> bool {
        is_coordinate(self.x1) && is_coordinate(self.y1) && is_coordinate(self.x2)
            && is_coordinate(self.y2)
    }
}

/// The box that is referred to, if any.
pub open spec fn referred(subject: Option<&FaceBox>) -> Option<FaceBox> {
    match subject {
        Some(b) => Some(*b),
        None => None,
    }
}

/// The length of a span, or zero if it runs backwards.
pub open spec fn extent(lo: int, hi: int) -> int {
    if lo < hi {
        hi - lo
    } else {
        0
    }
}

/// The area of a box, in square sub-pixels.
pub open spec fn area_of(b: FaceBox) -> int {
    extent(b.x1 as int, b.x2 as int) * extent(b.y1 as int, b.y2 as int)
}

/// The greater of two numbers.
pub open spec fn greater(a: int, b: int) -> int {
    if a < b {
        b
    } else {
        a
    }
}

/// The lesser of two numbers.
pub open spec fn lesser(a: int, b: int) -> int {
    if a < b {
        a
    } else {
        b
    }
}

/// The area that two boxes share, in square sub-pixels.
pub open spec fn shared_area(a: FaceBox, b: FaceBox) -> int {
    extent(greater(a.x1 as int, b.x1 as int), lesser(a.x2 as int, b.x2 as int)) * extent(
        greater(a.y1 as int, b.y1 as int),
        lesser(a.y2 as int, b.y2 as int),
    )
}

/// Whether two boxes share more than three tenths of the area that they cover
/// together, `slack` (which keeps empty boxes from overlapping) added to it.
pub open spec fn overlaps(a: FaceBox, b: FaceBox, slack: int) -> bool {
    10 * shared_area(a, b) > 3 * (area_of(a) + area_of(b) - shared_area(a, b) + slack)
}

/// Two boxes overlap each other or neither overlaps the other.
pub proof fn overlap_is_symmetric(a: FaceBox, b: FaceBox, slack: int)
    ensures
        overlaps(a, b, slack) == overlaps(b, a, slack),
{
}

proof fn area_bound(w: int, h: int)
    requires
        0 <= w <= 2_199_023_255_552,
        0 <= h <= 2_199_023_255_552,
    ensures
        0 <= w * h <= 2_199_023_255_552 * 2_199_023_255_552,
{
    assert(0 <= w * h <= 2_199_023_255_552 * 2_199_023_255_552) by (nonlinear_arith)
        requires
            0 <= w <= 2_199_023_255_552,
            0 <= h <= 2_199_023_255_552,
    ;
}

/// The area of the box between the given edges.
fn area_between(x1: i64, y1: i64, x2: i64, y2: i64) -> (r: u128)
    requires
        is_coordinate(x1),
        is_coordinate(y1),
        is_coordinate(x2),
        is_coordinate(y2),
    ensures
        r == extent(x1 as int, x2 as int) * extent(y1 as int, y2 as int),
        r <= 2_199_023_255_552 * 2_199_023_255_552,
{
    let w: u128 = if x1 < x2 {
        (x2 - x1) as u128
    } else {
        0
    };
    let h: u128 = if y1 < y2 {
        (y2 - y1) as u128
    } else {
        0
    };
    proof {
        area_bound(w as int, h as int);
    }
    w * h
}

/// The area of a box, in square sub-pixels.
pub fn area(b: &FaceBox) -> (r: u128)
    requires
        b.wf(),
    ensures
        r == area_of(*b),
        r <= 2_199_023_255_552 * 2_199_023_255_552,
{
    area_between(b.x1, b.y1, b.x2, b.y2)
}

proof fn shared_area_bound(a: FaceBox, b: FaceBox)
    ensures
        0 <= shared_area(a, b) <= area_of(a),
{
    let w = extent(a.x1 as int, a.x2 as int);
    let h = extent(a.y1 as int, a.y2 as int);
    let u = extent(greater(a.x1 as int, b.x1 as int), lesser(a.x2 as int, b.x2 as int));
    let v = extent(greater(a.y1 as int, b.y1 as int), lesser(a.y2 as int, b.y2 as int));
    assert(0 <= u * v <= w * h) by (nonlinear_arith)
        requires
            0 <= u <= w,
            0 <= v <= h,
    ;
}

/// Whether the intersection of two boxes over their union exceeds three
/// tenths.
fn iou_exceeds(a: &FaceBox, b: &FaceBox, slack: u64) -> (r: bool)
    requires
        a.wf(),
        b.wf(),
    ensures
        r == overlaps(*a, *b, slack as int),
{
    let x1: i64 = if a.x1 < b.x1 {
        b.x1
    } else {
        a.x1
    };
    let y1: i64 = if a.y1 < b.y1 {
        b.y1
    } else {
        a.y1
    };
    let x2: i64 = if a.x2 < b.x2 {
        a.x2
    } else {
        b.x2
    };
    let y2: i64 = if a.y2 < b.y2 {
        a.y2
    } else {
        b.y2
    };
    let shared: u128 = area_between(x1, y1, x2, y2);
    proof {
        shared_area_bound(*a, *b);
    }
    10 * shared > 3 * (area(a) - shared + area(b) + slack as u128)
}

/// Whether no box of `kept` overlaps box `v`.
pub open spec fn is_clear(kept: Seq<usize>, boxes: Seq<FaceBox>, v: usize, slack: int) -> bool {
    forall|k: int|
        0 <= k < kept.len() ==> !overlaps(
            boxes[#[trigger] kept[k] as int],
            boxes[v as int],
            slack,
        )
}

/// The boxes of `order` that survive when each in turn is dropped if it
/// overlaps one that was kept before it.
pub open spec fn survivors(order: Seq<usize>, boxes: Seq<FaceBox>, slack: int) -> Seq<usize>
    decreases order.len(),
{
    if order.len() == 0 {
        Seq::empty()
    } else {
        let kept = survivors(order.drop_last(), boxes, slack);
        if is_clear(kept, boxes, order.last(), slack) {
            kept.push(order.last())
        } else {
            kept
        }
    }
}

/// The confidences of boxes.
pub open spec fn scores_of(boxes: Seq<FaceBox>) -> Seq<u64> {
    boxes.map_values(|b: FaceBox| b.score)
}

/// The boxes that non-maximum suppression keeps, by index, most confident
/// first.
pub open spec fn kept_of(boxes: Seq<FaceBox>, slack: int) -> Seq<usize> {
    survivors(ranked(first_indices(boxes.len()), scores_of(boxes)), boxes, slack)
}

/// The boxes that stand at the given indices.
pub open spec fn picked(boxes: Seq<FaceBox>, at: Seq<usize>) -> Seq<FaceBox> {
    Seq::new(at.len(), |i: int| boxes[at[i] as int])
}

/// All coordinates of all boxes are in range.
pub open spec fn all_wf(boxes: Seq<FaceBox>) -> bool {
    forall|i: int| 0 <= i < boxes.len() ==> (#[trigger] boxes[i]).wf()
}

/// Non-maximum suppression: from the most confident box down, keeps each box
/// that overlaps none kept so far.
pub(crate) fn nms(candidates: &Vec<FaceBox>, slack: u64) -> (r: Vec<FaceBox>)
    requires
        all_wf(candidates@),
    ensures
        r@ == picked(candidates@, kept_of(candidates@, slack as int)),
        all_wf(r@),
{
    let n: usize = candidates.len();
    let mut keys: Vec<u64> = Vec::new();
    for i in 0..n
        invariant
            n == candidates@.len(),
            keys@ =~= scores_of(candidates@.take(i as int)),
    {
        keys.push(candidates[i].score);
    }
    assert(candidates@.take(n as int) =~= candidates@);
    let order: Vec<usize> = rank(&indices(n), &keys);
    let mut kept: Vec<usize> = Vec::new();
    let mut out: Vec<FaceBox> = Vec::new();
    for i in 0..n
        invariant
            n == candidates@.len(),
            n == order@.len(),
            in_range(order@, n as nat),
            in_range(kept@, n as nat),
            all_wf(candidates@),
            kept@ == survivors(order@.take(i as int), candidates@, slack as int),
            out@ == picked(candidates@, kept@),
    {
        let v: usize = order[i];
        let count: usize = kept.len();
        let mut clear: bool = true;
        for k in 0..count
            invariant
                count == kept@.len(),
                v < n == candidates@.len(),
                in_range(kept@, n as nat),
                all_wf(candidates@),
                clear == is_clear(kept@.take(k as int), candidates@, v, slack as int),
        {
            let hit: bool = iou_exceeds(&candidates[kept[k]], &candidates[v], slack);
            proof {
                let before = kept@.take(k as int);
                let after = kept@.take(k + 1);
                assert(after[k as int] == kept@[k as int]);
                assert forall|j: int| 0 <= j < k implies #[trigger] before[j] == after[j] by {}
                if clear && !hit {
                    assert forall|j: int| 0 <= j < after.len() implies !overlaps(
                        candidates@[#[trigger] after[j] as int],
                        candidates@[v as int],
                        slack as int,
                    ) by {
                        if j < k {
                            assert(before[j] == after[j]);
                        }
                    }
                }
                if !clear {
                    let j = choose|j: int|
                        0 <= j < before.len() && overlaps(
                            candidates@[#[trigger] before[j] as int],
                            candidates@[v as int],
                            slack as int,
                        );
                    assert(after[j] == before[j]);
                }
            }
            clear = clear && !hit;
        }
        assert(kept@.take(count as int) =~= kept@);
        assert(order@.take(i + 1).drop_last() =~= order@.take(i as int));
        if clear {
            kept.push(v);
            out.push(candidates[v]);
            assert(out@ =~= picked(candidates@, kept@));
        }
    }
    assert(order@.take(n as int) =~= order@);
    out
}

proof fn survivors_facts(order: Seq<usize>, boxes: Seq<FaceBox>, slack: int)
    ensures
        survivors(order, boxes, slack).len() <= order.len(),
        forall|i: int|
            0 <= i < survivors(order, boxes, slack).len() ==> order.contains(
                #[trigger] survivors(order, boxes, slack)[i],
            ),
        forall|i: int, j: int|
            0 <= i < j < survivors(order, boxes, slack).len() ==> !overlaps(
                boxes[#[trigger] survivors(order, boxes, slack)[i] as int],
                boxes[#[trigger] survivors(order, boxes, slack)[j] as int],
                slack,
            ),
    decreases order.len(),
{
    if order.len() > 0 {
        let t = order.drop_last();
        let kept = survivors(t, boxes, slack);
        let s = survivors(order, boxes, slack);
        survivors_facts(t, boxes, slack);
        assert forall|i: int| 0 <= i < s.len() implies order.contains(#[trigger] s[i]) by {
            if i < kept.len() {
                assert(s[i] == kept[i]);
                let k = choose|k: int| 0 <= k < t.len() && t[k] == s[i];
                assert(order[k] == s[i]);
            } else {
                assert(order[order.len() - 1] == s[i]);
            }
        }
        assert forall|i: int, j: int| 0 <= i < j < s.len() implies !overlaps(
            boxes[#[trigger] s[i] as int],
            boxes[#[trigger] s[j] as int],
            slack,
        ) by {
            assert(s[i] == kept[i]);
            if j < kept.len() {
                assert(s[j] == kept[j]);
            }
        }
    }
}

proof fn survivors_cover(order: Seq<usize>, boxes: Seq<FaceBox>, slack: int, p: int)
    requires
        0 <= p < order.len(),
    ensures
        survivors(order, boxes, slack).contains(order[p]) || exists|q: int|
            0 <= q < p && #[trigger] survivors(order, boxes, slack).contains(order[q]) && overlaps(
                boxes[order[q] as int],
                boxes[order[p] as int],
                slack,
            ),
    decreases order.len(),
{
    let t = order.drop_last();
    let kept = survivors(t, boxes, slack);
    let s = survivors(order, boxes, slack);
    assert(forall|i: int| 0 <= i < kept.len() ==> s[i] == #[trigger] kept[i]);
    if p < t.len() {
        survivors_cover(t, boxes, slack, p);
        assert(t[p] == order[p]);
        if kept.contains(t[p]) {
            let k = choose|k: int| 0 <= k < kept.len() && kept[k] == t[p];
            assert(s[k] == order[p]);
        } else {
            let q = choose|q: int|
                0 <= q < p && #[trigger] kept.contains(t[q]) && overlaps(
                    boxes[t[q] as int],
                    boxes[t[p] as int],
                    slack,
                );
            let k = choose|k: int| 0 <= k < kept.len() && kept[k] == t[q];
            assert(s[k] == order[q]);
            assert(s.contains(order[q]));
        }
    } else if is_clear(kept, boxes, order.last(), slack) {
        assert(s[kept.len() as int] == order[p]);
    } else {
        let k = choose|k: int|
            0 <= k < kept.len() && overlaps(
                boxes[#[trigger] kept[k] as int],
                boxes[order.last() as int],
                slack,
            );
        survivors_facts(t, boxes, slack);
        assert(t.contains(kept[k]));
        let q = choose|q: int| 0 <= q < t.len() && t[q] == kept[k];
        assert(s[k] == order[q]);
        assert(s.contains(order[q]));
    }
}

/// No two boxes that suppression keeps overlap.
pub proof fn kept_boxes_are_apart(boxes: Seq<FaceBox>, slack: int, i: int, j: int)
    requires
        0 <= i < kept_of(boxes, slack).len(),
        0 <= j < kept_of(boxes, slack).len(),
        i != j,
    ensures
        !overlaps(
            boxes[kept_of(boxes, slack)[i] as int],
            boxes[kept_of(boxes, slack)[j] as int],
            slack,
        ),
{
    let kept = kept_of(boxes, slack);
    survivors_facts(ranked(first_indices(boxes.len()), scores_of(boxes)), boxes, slack);
    overlap_is_symmetric(boxes[kept[i] as int], boxes[kept[j] as int], slack);
}

/// A box that suppression drops overlaps one that it keeps and that is at
/// least as confident.
pub proof fn dropped_boxes_are_covered(boxes: Seq<FaceBox>, slack: int, v: usize)
    requires
        v < boxes.len() <= usize::MAX,
        !kept_of(boxes, slack).contains(v),
    ensures
        exists|k: usize|
            #[trigger] kept_of(boxes, slack).contains(k) && k < boxes.len() && boxes[k as int].score
                >= boxes[v as int].score && overlaps(boxes[k as int], boxes[v as int], slack),
{
    let first = first_indices(boxes.len());
    let keys = scores_of(boxes);
    let order = ranked(first, keys);
    let kept = kept_of(boxes, slack);
    assert(first[v as int] == v);
    ranking_keeps_members(first, keys);
    ranking_falls(first, keys);
    assert(first.contains(v));
    assert(order.contains(v));
    let p = choose|p: int| 0 <= p < order.len() && order[p] == v;
    survivors_cover(order, boxes, slack, p);
    let q = choose|q: int|
        0 <= q < p && #[trigger] kept.contains(order[q]) && overlaps(
            boxes[order[q] as int],
            boxes[order[p] as int],
            slack,
        );
    let k = order[q];
    assert(in_range(first, boxes.len()));
    assert(in_range(order, boxes.len()));
    assert(keys[order[q] as int] >= keys[order[p] as int]);
    assert(kept.contains(k) && k < boxes.len());
}

/// Suppression keeps only boxes it was given.
pub proof fn kept_boxes_are_given(boxes: Seq<FaceBox>, slack: int, i: int)
    requires
        boxes.len() <= usize::MAX,
        0 <= i < kept_of(boxes, slack).len(),
    ensures
        kept_of(boxes, slack)[i] < boxes.len(),
{
    let first = first_indices(boxes.len());
    let order = ranked(first, scores_of(boxes));
    let kept = kept_of(boxes, slack);
    survivors_facts(order, boxes, slack);
    ranking_keeps_members(first, scores_of(boxes));
    assert(in_range(first, boxes.len()));
    assert(in_range(order, boxes.len()));
    assert(order.contains(kept[i]));
    let p = choose|p: int| 0 <= p < order.len() && order[p] == kept[i];
    assert(order[p] < boxes.len());
}

/// Suppression keeps only boxes it was given, the most confident first, and
/// boxes of one confidence in the order they came.
pub proof fn kept_boxes_fall_in_confidence(boxes: Seq<FaceBox>, slack: int, i: int, j: int)
    requires
        boxes.len() <= usize::MAX,
        0 <= i < j < kept_of(boxes, slack).len(),
    ensures
        kept_of(boxes, slack)[i] < boxes.len(),
        kept_of(boxes, slack)[j] < boxes.len(),
        boxes[kept_of(boxes, slack)[i] as int].score >= boxes[kept_of(
            boxes,
            slack,
        )[j] as int].score,
        boxes[kept_of(boxes, slack)[i] as int].score == boxes[kept_of(boxes, slack)[j] as int].score
            ==> kept_of(boxes, slack)[i] < kept_of(boxes, slack)[j],
{
    let first = first_indices(boxes.len());
    let keys = scores_of(boxes);
    let order = ranked(first, keys);
    ranking_keeps_members(first, keys);
    ranking_falls(first, keys);
    assert(in_range(first, boxes.len()));
    assert(in_range(order, boxes.len()));
    survivors_ordered(order, boxes, slack, i, j);
    let (a, b) = choose|a: int, b: int|
        0 <= a < b < order.len() && #[trigger] order[a] == survivors(order, boxes, slack)[i]
            && #[trigger] order[b] == survivors(order, boxes, slack)[j];
    assert(keys[order[a] as int] >= keys[order[b] as int]);
    if keys[order[a] as int] == keys[order[b] as int] {
        ranking_is_stable(first, keys, a, b);
        let (c, d) = choose|c: int, d: int|
            0 <= c < d < first.len() && #[trigger] first[c] == order[a] && #[trigger] first[d]
                == order[b];
        assert(first[c] == c && first[d] == d);
    }
}

proof fn survivors_ordered(order: Seq<usize>, boxes: Seq<FaceBox>, slack: int, i: int, j: int)
    requires
        0 <= i < j < survivors(order, boxes, slack).len(),
    ensures
        exists|a: int, b: int|
            0 <= a < b < order.len() && #[trigger] order[a] == survivors(order, boxes, slack)[i]
                && #[trigger] order[b] == survivors(order, boxes, slack)[j],
    decreases order.len(),
{
    let t = order.drop_last();
    let kept = survivors(t, boxes, slack);
    let s = survivors(order, boxes, slack);
    if j < kept.len() {
        survivors_ordered(t, boxes, slack, i, j);
        let (a, b) = choose|a: int, b: int|
            0 <= a < b < t.len() && #[trigger] t[a] == kept[i] && #[trigger] t[b] == kept[j];
        assert(order[a] == s[i] && order[b] == s[j]);
    } else {
        survivors_facts(t, boxes, slack);
        assert(t.contains(kept[i]));
        let a = choose|a: int| 0 <= a < t.len() && t[a] == kept[i];
        assert(order[a] == s[i] && order[order.len() - 1] == s[j]);
    }
}

/// The width of the picture the face model is shown.
pub const INPUT_W: u32 = 320;

/// The height of the picture the face model is shown.
pub const INPUT_H: u32 = 240;

/// The bytes of a picture of `pixels` pixels, one color plane after another:
/// all reds, then all greens, then all blues.
pub open spec fn planes_of(data: Seq<u8>, pixels: int) -> Seq<u8> {
    Seq::new((3 * pixels) as nat, |i: int| data[3 * (i % pixels) + i / pixels])
}

/// Splits a picture into its three color planes.
pub fn channels_first(rgb: &RgbImage) -> (r: Vec<u8>)
    requires
        rgb.wf(),
    ensures
        r@ == planes_of(rgb.data@, (rgb.width * rgb.height) as int),
{
    let mut out: Vec<u8> = Vec::new();
    let total: usize = rgb.data.len();
    let pixels: usize = total / 3;
    for i in 0..total
        invariant
            total == rgb.data@.len(),
            total == 3 * pixels,
            pixels == rgb.width * rgb.height,
            out@ =~= planes_of(rgb.data@, pixels as int).take(i as int),
    {
        let c: usize = i / pixels;
        let at: usize = i % pixels;
        assert(c < 3) by (nonlinear_arith)
            requires
                c == i / pixels,
                i < 3 * pixels,
                pixels > 0,
        ;
        out.push(rgb.data[3 * at + c]);
    }
    assert(planes_of(rgb.data@, pixels as int).take(total as int) =~= planes_of(
        rgb.data@,
        pixels as int,
    ));
    out
}

/// The bytes that the face model is shown of a picture.
pub open spec fn face_view(data: Seq<u8>, width: u32, height: u32) -> Seq<u8> {
    planes_of(triangle_resized(data, width, height, INPUT_W, INPUT_H), INPUT_W * INPUT_H)
}

/// The face model is shown the picture resampled to 320 by 240 pixels, the reds
/// of all pixels first, then the greens, then the blues.
pub proof fn faces_are_sought_in_a_small_copy(data: Seq<u8>, width: u32, height: u32, i: int)
    requires
        0 <= i < 76_800,
        triangle_resized(data, width, height, 320, 240).len() == 230_400,
    ensures
        ({
            let small = triangle_resized(data, width, height, 320, 240);
            let shown = face_view(data, width, height);
            &&& shown.len() == 230_400
            &&& shown[i] == small[3 * i]
            &&& shown[76_800 + i] == small[3 * i + 1]
            &&& shown[153_600 + i] == small[3 * i + 2]
        }),
{
    planes_hold_one_color_each(triangle_resized(data, width, height, 320, 240), 76_800, i);
}

/// What the face model is shown of a picture: resampled to its input size,
/// one color plane after another; nothing for an empty picture.
pub fn face_input(rgb: &RgbImage) -> (r: Option<Vec<u8>>)
    requires
        rgb.wf(),
        rgb.can_resample(),
    ensures
        r is None <==> rgb.width == 0 || rgb.height == 0,
        r matches Some(v) ==> v@ == planes_of(
            triangle_resized(rgb.data@, rgb.width, rgb.height, INPUT_W, INPUT_H),
            INPUT_W * INPUT_H,
        ),
        r matches Some(v) ==> v@ == face_view(rgb.data@, rgb.width, rgb.height),
{
    if rgb.width == 0 || rgb.height == 0 {
        return None;
    }
    let resized = resize_exact(rgb, INPUT_W, INPUT_H);
    Some(channels_first(&resized))
}

/// A prior (anchor) box of the face model, in pixels of its input: center and
/// size.
#[derive(Debug, Clone, Copy, PartialEq, Eq, Structural)]
pub struct Prior {
    pub cx: u32,
    pub cy: u32,
    pub w: u32,
    pub h: u32,
}

/// The priors of one feature map of `columns` by `rows` cells: row by row, for
/// each cell one prior of each size, in the middle of the cell, no larger than
/// the input.
pub open spec fn layer(columns: int, rows: int, sizes: Seq<u32>) -> Seq<Prior> {
    let k = sizes.len() as int;
    Seq::new(
        (columns * rows * k) as nat,
        |i: int|
            {
                let cell = i / k;
                let size = sizes[i % k];
                Prior {
                    cx: ((2 * (cell % columns) + 1) * 160 / columns) as u32,
                    cy: ((2 * (cell / columns) + 1) * 120 / rows) as u32,
                    w: size,
                    h: if size > INPUT_H {
                        INPUT_H
                    } else {
                        size
                    },
                }
            },
    )
}

/// The priors of the face model, in the order of its output rows: four feature
/// maps, each with its own grid and box sizes.
pub open spec fn prior_layout() -> Seq<Prior> {
    layer(40, 30, seq![10u32, 16u32, 24u32]) + layer(20, 15, seq![32u32, 48u32]) + layer(
        10,
        8,
        seq![64u32, 96u32],
    ) + layer(5, 4, seq![128u32, 192u32, 256u32])
}

proof fn layer_lengths()
    ensures
        layer(40, 30, seq![10u32, 16u32, 24u32]).len() == 3600,
        layer(20, 15, seq![32u32, 48u32]).len() == 600,
        layer(10, 8, seq![64u32, 96u32]).len() == 160,
        layer(5, 4, seq![128u32, 192u32, 256u32]).len() == 60,
{
    assert(40int * 30 * 3 == 3600);
    assert(20int * 15 * 2 == 600);
    assert(10int * 8 * 2 == 160);
    assert(5int * 4 * 3 == 60);
    assert(seq![10u32, 16u32, 24u32].len() == 3);
    assert(seq![32u32, 48u32].len() == 2);
    assert(seq![64u32, 96u32].len() == 2);
    assert(seq![128u32, 192u32, 256u32].len() == 3);
}

/// Appends the priors of one feature map.
fn push_layer(out: &mut Vec<Prior>, columns: u32, rows: u32, sizes: &Vec<u32>)
    requires
        0 < columns <= 40,
        0 < rows <= 30,
        0 < sizes@.len() <= 3,
    ensures
        final(out)@ == old(out)@ + layer(columns as int, rows as int, sizes@),
{
    let ghost before = out@;
    let ghost all = layer(columns as int, rows as int, sizes@);
    let k: u32 = sizes.len() as u32;
    assert(0 < columns * rows <= 1200) by (nonlinear_arith)
        requires
            0 < columns <= 40,
            0 < rows <= 30,
    ;
    assert(0 < columns * rows * k <= 3600) by (nonlinear_arith)
        requires
            0 < columns * rows <= 1200,
            0 < k <= 3,
    ;
    let total: u32 = columns * rows * k;
    for i in 0..total
        invariant
            0 < columns <= 40,
            0 < rows <= 30,
            k == sizes@.len(),
            0 < k <= 3,
            total == columns * rows * k,
            total <= 3600,
            all == layer(columns as int, rows as int, sizes@),
            out@ =~= before + all.take(i as int),
    {
        let cell: u32 = i / k;
        assert(cell < columns * rows) by (nonlinear_arith)
            requires
                cell == i / k,
                i < columns * rows * k,
                k > 0,
        ;
        let column: u32 = cell % columns;
        let row: u32 = cell / columns;
        assert(row < rows) by (nonlinear_arith)
            requires
                row == cell / columns,
                cell < columns * rows,
                columns > 0,
        ;
        let size: u32 = sizes[(i % k) as usize];
        let prior = Prior {
            cx: (2 * column + 1) * 160 / columns,
            cy: (2 * row + 1) * 120 / rows,
            w: size,
            h: if size > INPUT_H {
                INPUT_H
            } else {
                size
            },
        };
        assert(prior == all[i as int]);
        out.push(prior);
    }
    assert(all.take(total as int) =~= all);
}

/// The prior box layout of the face model.
pub fn generate_priors() -> (r: Vec<Prior>)
    ensures
        r@ == prior_layout(),
        r@.len() == PRIOR_COUNT,
{
    let mut priors: Vec<Prior> = Vec::new();
    push_layer(&mut priors, 40, 30, &vec![10, 16, 24]);
    push_layer(&mut priors, 20, 15, &vec![32, 48]);
    push_layer(&mut priors, 10, 8, &vec![64, 96]);
    push_layer(&mut priors, 5, 4, &vec![128, 192, 256]);
    proof {
        layer_lengths();
    }
    priors
}

/// The unit of the raw numbers that a model gives: they are counted in 2^-32.
pub const RAW_ONE: i64 = 4_294_967_296;

/// No raw number that is read lies further from zero than this (just under
/// 65536 units).
pub const MAX_RAW: i64 = 281_474_976_710_655;

/// Only boxes above this confidence count as faces: seven tenths, in units of
/// 2^-32 (and rounded as single precision rounds it).
pub const CONF_THRESHOLD: i64 = 3_006_477_056;

/// The slack of the overlap test on faces: a hundred thousandth of the
/// model's input, in square sub-pixels.
pub const FACE_SLACK: u64 = 3_298_534_883;

/// The raw output of the face model, in units of 2^-32: for each prior two
/// confidences (background, face) and four box numbers (the shift of the
/// center and the factors of width and height).
pub struct FaceOutput {
    pub confidences: Vec<i64>,
    pub boxes: Vec<i64>,
}

/// The rows that the output and the prior layout have in common.
pub open spec fn face_rows(confidences: Seq<i64>) -> int {
    lesser(confidences.len() as int / 2, PRIOR_COUNT as int)
}

/// Whether all numbers are in range.
pub open spec fn all_raw(s: Seq<i64>) -> bool {
    forall|i: int| 0 <= i < s.len() ==> -MAX_RAW <= #[trigger] s[i] <= MAX_RAW
}

impl FaceOutput {
    /// There is a box for every row, and its numbers are in range.
    pub open spec fn wf(self) -> bool {
        &&& self.boxes@.len() >= 4 * face_rows(self.confidences@)
        &&& all_raw(self.boxes@)
    }
}

/// The middle of a decoded span, in sub-pixels of the model's input: the
/// prior's middle, shifted by a tenth of the prior's size for each unit.
pub open spec fn decoded_center(shift: int, middle: int, size: int) -> int {
    shift * size / 655_360 + middle * SUBPIXELS
}

/// Half the length of a decoded span: half the prior's size, times the factor.
pub open spec fn decoded_half(factor: int, size: int) -> int {
    factor * size / 131_072
}

/// The box that four raw numbers describe relative to a prior, in sub-pixels
/// of the model's input.
pub open spec fn decoded(prior: Prior, raw: Seq<i64>, score: i64) -> FaceBox {
    let cx = decoded_center(raw[0] as int, prior.cx as int, prior.w as int);
    let cy = decoded_center(raw[1] as int, prior.cy as int, prior.h as int);
    let hw = decoded_half(raw[2] as int, prior.w as int);
    let hh = decoded_half(raw[3] as int, prior.h as int);
    FaceBox {
        x1: (cx - hw) as i64,
        y1: (cy - hh) as i64,
        x2: (cx + hw) as i64,
        y2: (cy + hh) as i64,
        score: score as u64,
    }
}

/// The decoded boxes of the first `n` rows whose confidence is high enough.
pub open spec fn face_candidates(confidences: Seq<i64>, boxes: Seq<i64>, n: int) -> Seq<FaceBox>
    decreases n,
{
    if n <= 0 {
        Seq::empty()
    } else {
        let before = face_candidates(confidences, boxes, n - 1);
        let score = confidences[2 * (n - 1) + 1];
        if score > CONF_THRESHOLD {
            before.push(
                decoded(
                    prior_layout()[n - 1],
                    boxes.subrange(4 * (n - 1), 4 * (n - 1) + 4),
                    score,
                ),
            )
        } else {
            before
        }
    }
}

/// A row that neither shifts nor stretches its prior stands for the prior
/// itself.
pub proof fn unshifted_rows_are_their_priors(prior: Prior, score: i64)
    ensures
        decoded(prior, seq![0i64, 0i64, RAW_ONE, RAW_ONE], score) == (FaceBox {
            x1: (prior.cx * SUBPIXELS - prior.w * SUBPIXELS / 2) as i64,
            y1: (prior.cy * SUBPIXELS - prior.h * SUBPIXELS / 2) as i64,
            x2: (prior.cx * SUBPIXELS + prior.w * SUBPIXELS / 2) as i64,
            y2: (prior.cy * SUBPIXELS + prior.h * SUBPIXELS / 2) as i64,
            score: score as u64,
        }),
{
    let w = prior.w as int;
    let h = prior.h as int;
    assert(0 * w / 655_360 == 0 && 0 * h / 655_360 == 0);
    assert(4_294_967_296 * w / 131_072 == w * 65_536 / 2);
    assert(4_294_967_296 * h / 131_072 == h * 65_536 / 2);
}

/// Every prior lies in the model's input.
proof fn prior_bounds(i: int)
    requires
        0 <= i < prior_layout().len(),
    ensures
        prior_layout()[i].cx <= 320,
        prior_layout()[i].cy <= 240,
        prior_layout()[i].w <= 320,
        prior_layout()[i].h <= 240,
{
    let a = layer(40, 30, seq![10u32, 16u32, 24u32]);
    let b = layer(20, 15, seq![32u32, 48u32]);
    let c = layer(10, 8, seq![64u32, 96u32]);
    let d = layer(5, 4, seq![128u32, 192u32, 256u32]);
    layer_lengths();
    if i < 3600 {
        assert(prior_layout()[i] == a[i]);
        assert(0 <= i / 3 < 1200);
    } else if i < 4200 {
        assert(prior_layout()[i] == b[i - 3600]);
        assert(0 <= (i - 3600) / 2 < 300);
    } else if i < 4360 {
        assert(prior_layout()[i] == c[i - 4200]);
        assert(0 <= (i - 4200) / 2 < 80);
    } else {
        assert(prior_layout()[i] == d[i - 4360]);
        assert(0 <= (i - 4360) / 3 < 20);
    }
}

proof fn raw_product_bound(v: int, size: int)
    requires
        -MAX_RAW <= v <= MAX_RAW,
        0 <= size <= 320,
    ensures
        -90_071_992_547_409_920 <= v * size <= 90_071_992_547_409_920,
{
    assert(-(281_474_976_710_656 * 320) <= v * size <= 281_474_976_710_656 * 320)
        by (nonlinear_arith)
        requires
            -281_474_976_710_656 <= v <= 281_474_976_710_656,
            0 <= size <= 320,
    ;
}

/// The box that four raw numbers describe relative to a prior.
fn decode(prior: &Prior, raw: &Vec<i64>, from: usize, score: i64) -> (r: FaceBox)
    requires
        from + 4 <= raw@.len(),
        all_raw(raw@),
        prior.cx <= 320,
        prior.cy <= 240,
        prior.w <= 320,
        prior.h <= 240,
        0 <= score,
    ensures
        r == decoded(*prior, raw@.subrange(from as int, from + 4), score),
        r.wf(),
{
    let ghost s = raw@.subrange(from as int, from + 4);
    let w: i64 = prior.w as i64;
    let h: i64 = prior.h as i64;
    assert(from + 4 <= raw.len());
    proof {
        assert(s[0] == raw@[from as int] && s[1] == raw@[from + 1] && s[2] == raw@[from + 2]
            && s[3] == raw@[from + 3]);
        raw_product_bound(s[0] as int, w as int);
        raw_product_bound(s[1] as int, h as int);
        raw_product_bound(s[2] as int, w as int);
        raw_product_bound(s[3] as int, h as int);
    }
    let cx: i64 = floor_div(raw[from] * w, 655_360) + prior.cx as i64 * SUBPIXELS;
    let cy: i64 = floor_div(raw[from + 1] * h, 655_360) + prior.cy as i64 * SUBPIXELS;
    let hw: i64 = floor_div(raw[from + 2] * w, 131_072);
    let hh: i64 = floor_div(raw[from + 3] * h, 131_072);
    FaceBox { x1: cx - hw, y1: cy - hh, x2: cx + hw, y2: cy + hh, score: score as u64 }
}

/// The decoded boxes of all rows whose confidence is high enough.
fn confident_faces(output: &FaceOutput) -> (r: Vec<FaceBox>)
    requires
        output.wf(),
    ensures
        r@ == face_candidates(
            output.confidences@,
            output.boxes@,
            face_rows(output.confidences@),
        ),
        all_wf(r@),
{
    let priors = generate_priors();
    let pairs: usize = output.confidences.len() / 2;
    let n: usize = if pairs < PRIOR_COUNT {
        pairs
    } else {
        PRIOR_COUNT
    };
    let mut candidates: Vec<FaceBox> = Vec::new();
    for i in 0..n
        invariant
            output.wf(),
            priors@ == prior_layout(),
            priors@.len() == PRIOR_COUNT,
            n == face_rows(output.confidences@),
            n <= PRIOR_COUNT,
            candidates@ == face_candidates(output.confidences@, output.boxes@, i as int),
            all_wf(candidates@),
    {
        let score: i64 = output.confidences[2 * i + 1];
        if score > CONF_THRESHOLD {
            proof {
                prior_bounds(i as int);
            }
            candidates.push(decode(&priors[i], &output.boxes, 4 * i, score));
        }
    }
    candidates
}

/// `v` moved into the range from zero to `top`.
pub open spec fn within(v: int, top: int) -> int {
    lesser(greater(v, 0), top)
}

/// A face box of the model's input, scaled to a picture of `width` by
/// `height` pixels and cut off at its edges.
pub open spec fn placed(b: FaceBox, width: int, height: int) -> FaceBox {
    FaceBox {
        x1: (within(b.x1 as int, INPUT_W * SUBPIXELS) * width / INPUT_W as int) as i64,
        y1: (within(b.y1 as int, INPUT_H * SUBPIXELS) * height / INPUT_H as int) as i64,
        x2: (within(b.x2 as int, INPUT_W * SUBPIXELS) * width / INPUT_W as int) as i64,
        y2: (within(b.y2 as int, INPUT_H * SUBPIXELS) * height / INPUT_H as int) as i64,
        score: b.score,
    }
}

/// Whether a box covers at least `per_mille` thousandths of a picture.
pub open spec fn is_prominent(b: FaceBox, width: int, height: int, per_mille: int) -> bool {
    1000 * area_of(b) >= per_mille * (SUBPIXELS * SUBPIXELS * (width * height))
}

/// Faces smaller than this many thousandths of the frame are ignored: a tiny
/// face in the background shouldn't turn an otherwise-landscape shot into a
/// portrait.
pub const MIN_FACE_PER_MILLE: u32 = 1;

/// Those of the boxes that are prominent once placed in the picture.
pub open spec fn prominent_faces(kept: Seq<FaceBox>, width: int, height: int) -> Seq<FaceBox>
    decreases kept.len(),
{
    if kept.len() == 0 {
        Seq::empty()
    } else {
        let before = prominent_faces(kept.drop_last(), width, height);
        let b = placed(kept.last(), width, height);
        if is_prominent(b, width, height, MIN_FACE_PER_MILLE as int) {
            before.push(b)
        } else {
            before
        }
    }
}

/// The faces that the model's output shows in a picture of the given size:
/// none if the picture is empty or the model failed.
pub open spec fn faces_of(width: int, height: int, output: Option<&FaceOutput>) -> Seq<FaceBox> {
    match output {
        Some(o) if width > 0 && height > 0 => {
            let candidates = face_candidates(
                o.confidences@,
                o.boxes@,
                face_rows(o.confidences@),
            );
            prominent_faces(
                picked(candidates, kept_of(candidates, FACE_SLACK as int)),
                width,
                height,
            )
        },
        _ => Seq::empty(),
    }
}

/// `v`, cut off below zero and above `side` pixels of the model's input,
/// scaled to `pixels`.
fn place_edge(v: i64, side: u32, pixels: u32) -> (r: i64)
    requires
        0 < side <= 416,
        pixels <= 1_048_576,
    ensures
        r == within(v as int, side * SUBPIXELS) * pixels / side as int,
        0 <= r <= pixels * SUBPIXELS,
{
    let top: i64 = side as i64 * SUBPIXELS;
    let cut: i64 = if v < 0 {
        0
    } else if v > top {
        top
    } else {
        v
    };
    assert(0 <= cut * pixels <= 27_262_976 * 1_048_576) by (nonlinear_arith)
        requires
            0 <= cut <= 27_262_976,
            0 <= pixels <= 1_048_576,
    ;
    assert(cut * pixels / side as int <= pixels * 65_536) by (nonlinear_arith)
        requires
            0 <= cut <= side * 65_536,
            0 <= pixels,
            0 < side,
    ;
    assert(cut * pixels / side as int >= 0) by (nonlinear_arith)
        requires
            0 <= cut * pixels,
            0 < side,
    ;
    floor_div(cut * pixels as i64, side as i64)
}

/// Whether a box covers at least `per_mille` thousandths of a picture.
pub(crate) fn covers(b: &FaceBox, width: u32, height: u32, per_mille: u32) -> (r: bool)
    requires
        b.wf(),
        per_mille <= 1000,
    ensures
        r == is_prominent(*b, width as int, height as int, per_mille as int),
{
    assert(0 <= width * height <= 0xffff_ffff * 0xffff_ffff) by (nonlinear_arith)
        requires
            0 <= width <= 0xffff_ffff,
            0 <= height <= 0xffff_ffff,
    ;
    let frame: u128 = 4_294_967_296 * (width as u128 * height as u128);
    assert(per_mille * frame <= 1000 * frame) by (nonlinear_arith)
        requires
            0 <= per_mille <= 1000,
            0 <= frame,
    ;
    1000 * area(b) >= per_mille as u128 * frame
}

/// The faces that the face model's output shows in `rgb`, in `rgb`'s own
/// sub-pixels, most confident first, with overlapping detections suppressed.
/// Without an output (an inference failure) there are none: classifying a
/// photo as non-portrait is a reasonable degradation, not worth failing the
/// whole scan over.
pub fn detect_faces(rgb: &RgbImage, output: Option<&FaceOutput>) -> (r: Vec<FaceBox>)
    requires
        rgb.can_resample(),
        output matches Some(o) ==> o.wf(),
    ensures
        r@ == faces_of(rgb.width as int, rgb.height as int, output),
        all_wf(r@),
{
    let mut faces: Vec<FaceBox> = Vec::new();
    if rgb.width == 0 || rgb.height == 0 {
        return faces;
    }
    let Some(o) = output else {
        return faces;
    };
    let kept = nms(&confident_faces(o), FACE_SLACK);
    let n: usize = kept.len();
    let (w, h): (u32, u32) = (rgb.width, rgb.height);
    for i in 0..n
        invariant
            n == kept@.len(),
            w <= 1_048_576,
            h <= 1_048_576,
            faces@ == prominent_faces(kept@.take(i as int), w as int, h as int),
            all_wf(faces@),
    {
        assert(kept@.take(i + 1).drop_last() =~= kept@.take(i as int));
        let b = FaceBox {
            x1: place_edge(kept[i].x1, INPUT_W, w),
            y1: place_edge(kept[i].y1, INPUT_H, h),
            x2: place_edge(kept[i].x2, INPUT_W, w),
            y2: place_edge(kept[i].y2, INPUT_H, h),
            score: kept[i].score,
        };
        if covers(&b, w, h, MIN_FACE_PER_MILLE) {
            faces.push(b);
        }
    }
    assert(kept@.take(n as int) =~= kept@);
    faces
}

/// Whether `r` is the largest of the boxes by area, the last one if several
/// are as large; nothing if there are no boxes.
pub open spec fn is_main(boxes: Seq<FaceBox>, r: Option<FaceBox>) -> bool {
    match r {
        None => boxes.len() == 0,
        Some(b) => exists|p: int|
            {
                &&& 0 <= p < boxes.len()
                &&& #[trigger] boxes[p] == b
                &&& forall|i: int|
                    0 <= i < boxes.len() ==> area_of(#[trigger] boxes[i]) <= area_of(b)
                &&& forall|i: int|
                    p < i < boxes.len() ==> area_of(#[trigger] boxes[i]) < area_of(b)
            },
    }
}

/// The main box.
pub open spec fn main_box(boxes: Seq<FaceBox>) -> Option<FaceBox> {
    choose|r: Option<FaceBox>| is_main(boxes, r)
}

/// The largest of the boxes, on the assumption that the main subject is
/// usually the most prominent one in frame.
pub(crate) fn main_of(boxes: &Vec<FaceBox>) -> (r: Option<FaceBox>)
    requires
        all_wf(boxes@),
    ensures
        is_main(boxes@, r),
        r == main_box(boxes@),
        r matches Some(b) ==> b.wf(),
{
    let n: usize = boxes.len();
    if n == 0 {
        proof {
            assert(is_main(boxes@, None));
            main_box_is_unique(boxes@, None, main_box(boxes@));
        }
        return None;
    }
    let mut best: usize = 0;
    for i in 1..n
        invariant
            n == boxes@.len(),
            best < i,
            best < n,
            all_wf(boxes@),
            forall|j: int| 0 <= j < i ==> area_of(#[trigger] boxes@[j]) <= area_of(
                boxes@[best as int],
            ),
            forall|j: int| best < j < i ==> area_of(#[trigger] boxes@[j]) < area_of(
                boxes@[best as int],
            ),
    {
        if area(&boxes[i]) >= area(&boxes[best]) {
            best = i;
        }
    }
    let found = boxes[best];
    proof {
        assert(boxes@[best as int] == found);
        assert(is_main(boxes@, Some(found)));
        main_box_is_unique(boxes@, Some(found), main_box(boxes@));
    }
    Some(found)
}

/// There is only one main box.
pub proof fn main_box_is_unique(boxes: Seq<FaceBox>, a: Option<FaceBox>, b: Option<FaceBox>)
    requires
        is_main(boxes, a),
        is_main(boxes, b),
    ensures
        a == b,
{
    if let (Some(c), Some(d)) = (a, b) {
        let p = choose|p: int|
            0 <= p < boxes.len() && #[trigger] boxes[p] == c && (forall|i: int|
                p < i < boxes.len() ==> area_of(#[trigger] boxes[i]) < area_of(c));
        let q = choose|q: int|
            0 <= q < boxes.len() && #[trigger] boxes[q] == d && (forall|i: int|
                q < i < boxes.len() ==> area_of(#[trigger] boxes[i]) < area_of(d));
        assert(area_of(boxes[p]) <= area_of(d));
        assert(area_of(boxes[q]) <= area_of(c));
    }
}

/// "The" subject face that the model's output shows, if any: the largest
/// detection by area.
pub fn detect_main_face(rgb: &RgbImage, output: Option<&FaceOutput>) -> (r: Option<FaceBox>)
    requires
        rgb.can_resample(),
        output matches Some(o) ==> o.wf(),
    ensures
        is_main(faces_of(rgb.width as int, rgb.height as int, output), r),
        r == main_box(faces_of(rgb.width as int, rgb.height as int, output)),
        r matches Some(b) ==> b.wf(),
{
    main_of(&detect_faces(rgb, output))
}

/// Whether a box lies in a picture of the given size.
pub open spec fn lies_within(b: FaceBox, width: int, height: int) -> bool {
    &&& 0 <= b.x1 <= width * SUBPIXELS
    &&& 0 <= b.x2 <= width * SUBPIXELS
    &&& 0 <= b.y1 <= height * SUBPIXELS
    &&& 0 <= b.y2 <= height * SUBPIXELS
}

proof fn placed_edge_bound(v: int, side: int, pixels: int)
    requires
        0 < side,
        0 <= pixels,
    ensures
        0 <= within(v, side * SUBPIXELS) * pixels / side <= pixels * SUBPIXELS,
{
    let cut = within(v, side * SUBPIXELS);
    assert(0 <= cut * pixels / side <= pixels * 65_536) by (nonlinear_arith)
        requires
            0 <= cut <= side * 65_536,
            0 <= pixels,
            0 < side,
    ;
}

proof fn prominent_faces_facts(kept: Seq<FaceBox>, width: int, height: int, i: int)
    requires
        0 <= width <= 1_048_576,
        0 <= height <= 1_048_576,
        0 <= i < prominent_faces(kept, width, height).len(),
    ensures
        lies_within(prominent_faces(kept, width, height)[i], width, height),
        is_prominent(
            prominent_faces(kept, width, height)[i],
            width,
            height,
            MIN_FACE_PER_MILLE as int,
        ),
    decreases kept.len(),
{
    let before = prominent_faces(kept.drop_last(), width, height);
    if i < before.len() {
        prominent_faces_facts(kept.drop_last(), width, height, i);
    } else {
        let b = kept.last();
        placed_edge_bound(b.x1 as int, INPUT_W as int, width);
        placed_edge_bound(b.x2 as int, INPUT_W as int, width);
        placed_edge_bound(b.y1 as int, INPUT_H as int, height);
        placed_edge_bound(b.y2 as int, INPUT_H as int, height);
    }
}

/// Every reported face lies in the picture and covers at least a thousandth
/// of it.
pub proof fn faces_lie_in_the_picture(
    width: int,
    height: int,
    output: Option<&FaceOutput>,
    i: int,
)
    requires
        0 <= width <= 1_048_576,
        0 <= height <= 1_048_576,
        0 <= i < faces_of(width, height, output).len(),
    ensures
        lies_within(faces_of(width, height, output)[i], width, height),
        is_prominent(
            faces_of(width, height, output)[i],
            width,
            height,
            MIN_FACE_PER_MILLE as int,
        ),
{
    let o = output.unwrap();
    let candidates = face_candidates(o.confidences@, o.boxes@, face_rows(o.confidences@));
    prominent_faces_facts(
        picked(candidates, kept_of(candidates, FACE_SLACK as int)),
        width,
        height,
        i,
    );
}

/// What the four raw numbers of a row mean. The first moves the middle of the
/// prior across, the second moves it down, each in tenths of the prior's size;
/// the third and the fourth stretch its width and its height. (Each product is
/// rounded down to whole sub-pixels.)
pub proof fn rows_move_and_stretch_their_priors(prior: Prior, raw: Seq<i64>, score: i64)
    requires
        prior.cx <= 320,
        prior.cy <= 240,
        prior.w <= 320,
        prior.h <= 240,
        raw.len() == 4,
        all_raw(raw),
        0 <= score,
    ensures
        ({
            let b = decoded(prior, raw, score);
            &&& 327_680 * (b.x1 + b.x2 - 131_072 * prior.cx) <= raw[0] * prior.w < 327_680 * (b.x1
                + b.x2 - 131_072 * prior.cx + 2)
            &&& 327_680 * (b.y1 + b.y2 - 131_072 * prior.cy) <= raw[1] * prior.h < 327_680 * (b.y1
                + b.y2 - 131_072 * prior.cy + 2)
            &&& 65_536 * (b.x2 - b.x1) <= raw[2] * prior.w < 65_536 * (b.x2 - b.x1 + 2)
            &&& 65_536 * (b.y2 - b.y1) <= raw[3] * prior.h < 65_536 * (b.y2 - b.y1 + 2)
            &&& b.score == score
        }),
{
    raw_product_bound(raw[0] as int, prior.w as int);
    raw_product_bound(raw[1] as int, prior.h as int);
    raw_product_bound(raw[2] as int, prior.w as int);
    raw_product_bound(raw[3] as int, prior.h as int);
}

/// Raising the first raw number by ten units moves the box right by the width
/// of the prior, raising the second moves it down by the height of the prior,
/// and neither does anything else. Horizontal edges depend on the first and
/// the third number only, vertical ones on the second and the fourth.
pub proof fn shifts_move_boxes_along_their_axis(prior: Prior, raw: Seq<i64>, other: Seq<i64>, score: i64)
    requires
        prior.cx <= 320,
        prior.cy <= 240,
        prior.w <= 320,
        prior.h <= 240,
        raw.len() == 4,
        other.len() == 4,
        all_raw(raw),
        all_raw(other),
        0 <= score,
    ensures
        ({
            let a = decoded(prior, raw, score);
            let b = decoded(prior, other, score);
            &&& other[0] == raw[0] + 42_949_672_960 && other[2] == raw[2] ==> b.x1 == a.x1
                + 65_536 * prior.w && b.x2 == a.x2 + 65_536 * prior.w
            &&& other[1] == raw[1] + 42_949_672_960 && other[3] == raw[3] ==> b.y1 == a.y1
                + 65_536 * prior.h && b.y2 == a.y2 + 65_536 * prior.h
            &&& other[0] == raw[0] && other[2] == raw[2] ==> b.x1 == a.x1 && b.x2 == a.x2
            &&& other[1] == raw[1] && other[3] == raw[3] ==> b.y1 == a.y1 && b.y2 == a.y2
        }),
{
    let w = prior.w as int;
    let h = prior.h as int;
    raw_product_bound(raw[0] as int, w);
    raw_product_bound(raw[1] as int, h);
    raw_product_bound(raw[2] as int, w);
    raw_product_bound(raw[3] as int, h);
    raw_product_bound(other[0] as int, w);
    raw_product_bound(other[1] as int, h);
    let u = raw[0] as int;
    let v = raw[1] as int;
    assert((u + 42_949_672_960) * w == u * w + 42_949_672_960 * w) by (nonlinear_arith);
    assert((v + 42_949_672_960) * h == v * h + 42_949_672_960 * h) by (nonlinear_arith);
}

/// Where the priors stand. The first 3600 are three for each cell of a grid of
/// 40 by 30, the next 600 two for each of 20 by 15, the next 160 two for each
/// of 10 by 8 and the last 60 three for each of 5 by 4, row by row; each grid
/// divides the model's input evenly and each prior stands in the middle of its
/// cell. All are square but the largest, which is as high as the input.
pub proof fn priors_stand_in_their_cells(column: int, row: int)
    requires
        0 <= column,
        0 <= row,
    ensures
        prior_layout().len() == 4420,
        column < 40 && row < 30 ==> {
            let at = 3 * (40 * row + column);
            let (cx, cy) = ((8 * column + 4) as u32, (8 * row + 4) as u32);
            &&& prior_layout()[at] == (Prior { cx, cy, w: 10, h: 10 })
            &&& prior_layout()[at + 1] == (Prior { cx, cy, w: 16, h: 16 })
            &&& prior_layout()[at + 2] == (Prior { cx, cy, w: 24, h: 24 })
        },
        column < 20 && row < 15 ==> {
            let at = 3600 + 2 * (20 * row + column);
            let (cx, cy) = ((16 * column + 8) as u32, (16 * row + 8) as u32);
            &&& prior_layout()[at] == (Prior { cx, cy, w: 32, h: 32 })
            &&& prior_layout()[at + 1] == (Prior { cx, cy, w: 48, h: 48 })
        },
        column < 10 && row < 8 ==> {
            let at = 4200 + 2 * (10 * row + column);
            let (cx, cy) = ((32 * column + 16) as u32, (30 * row + 15) as u32);
            &&& prior_layout()[at] == (Prior { cx, cy, w: 64, h: 64 })
            &&& prior_layout()[at + 1] == (Prior { cx, cy, w: 96, h: 96 })
        },
        column < 5 && row < 4 ==> {
            let at = 4360 + 3 * (5 * row + column);
            let (cx, cy) = ((64 * column + 32) as u32, (60 * row + 30) as u32);
            &&& prior_layout()[at] == (Prior { cx, cy, w: 128, h: 128 })
            &&& prior_layout()[at + 1] == (Prior { cx, cy, w: 192, h: 192 })
            &&& prior_layout()[at + 2] == (Prior { cx, cy, w: 256, h: 240 })
        },
{
    layer_lengths();
    if column < 40 && row < 30 {
        finest_priors(column, row);
    }
    if column < 20 && row < 15 {
        fine_priors(column, row);
    }
    if column < 10 && row < 8 {
        coarse_priors(column, row);
    }
    if column < 5 && row < 4 {
        coarsest_priors(column, row);
    }
}

proof fn finest_priors(column: int, row: int)
    requires
        0 <= column < 40,
        0 <= row < 30,
    ensures
        ({
            let at = 3 * (40 * row + column);
            let (cx, cy) = ((8 * column + 4) as u32, (8 * row + 4) as u32);
            &&& prior_layout()[at] == (Prior { cx, cy, w: 10, h: 10 })
            &&& prior_layout()[at + 1] == (Prior { cx, cy, w: 16, h: 16 })
            &&& prior_layout()[at + 2] == (Prior { cx, cy, w: 24, h: 24 })
        }),
{
    let own = layer(40, 30, seq![10u32, 16u32, 24u32]);
    let cell = 40 * row + column;
    let at = 3 * cell;
    layer_lengths();
    assert(cell / 40 == row && cell % 40 == column);
    assert((at + 0) / 3 == cell && (at + 0) % 3 == 0);
    assert(prior_layout()[at + 0] == own[at + 0]);
    assert((at + 1) / 3 == cell && (at + 1) % 3 == 1);
    assert(prior_layout()[at + 1] == own[at + 1]);
    assert((at + 2) / 3 == cell && (at + 2) % 3 == 2);
    assert(prior_layout()[at + 2] == own[at + 2]);
}

proof fn fine_priors(column: int, row: int)
    requires
        0 <= column < 20,
        0 <= row < 15,
    ensures
        ({
            let at = 3600 + 2 * (20 * row + column);
            let (cx, cy) = ((16 * column + 8) as u32, (16 * row + 8) as u32);
            &&& prior_layout()[at] == (Prior { cx, cy, w: 32, h: 32 })
            &&& prior_layout()[at + 1] == (Prior { cx, cy, w: 48, h: 48 })
        }),
{
    let own = layer(20, 15, seq![32u32, 48u32]);
    let cell = 20 * row + column;
    let at = 2 * cell;
    layer_lengths();
    assert(cell / 20 == row && cell % 20 == column);
    assert((at + 0) / 2 == cell && (at + 0) % 2 == 0);
    assert(prior_layout()[3600 + at + 0] == own[at + 0]);
    assert((at + 1) / 2 == cell && (at + 1) % 2 == 1);
    assert(prior_layout()[3600 + at + 1] == own[at + 1]);
}

proof fn coarse_priors(column: int, row: int)
    requires
        0 <= column < 10,
        0 <= row < 8,
    ensures
        ({
            let at = 4200 + 2 * (10 * row + column);
            let (cx, cy) = ((32 * column + 16) as u32, (30 * row + 15) as u32);
            &&& prior_layout()[at] == (Prior { cx, cy, w: 64, h: 64 })
            &&& prior_layout()[at + 1] == (Prior { cx, cy, w: 96, h: 96 })
        }),
{
    let own = layer(10, 8, seq![64u32, 96u32]);
    let cell = 10 * row + column;
    let at = 2 * cell;
    layer_lengths();
    assert(cell / 10 == row && cell % 10 == column);
    assert((at + 0) / 2 == cell && (at + 0) % 2 == 0);
    assert(prior_layout()[4200 + at + 0] == own[at + 0]);
    assert((at + 1) / 2 == cell && (at + 1) % 2 == 1);
    assert(prior_layout()[4200 + at + 1] == own[at + 1]);
}

proof fn coarsest_priors(column: int, row: int)
    requires
        0 <= column < 5,
        0 <= row < 4,
    ensures
        ({
            let at = 4360 + 3 * (5 * row + column);
            let (cx, cy) = ((64 * column + 32) as u32, (60 * row + 30) as u32);
            &&& prior_layout()[at] == (Prior { cx, cy, w: 128, h: 128 })
            &&& prior_layout()[at + 1] == (Prior { cx, cy, w: 192, h: 192 })
            &&& prior_layout()[at + 2] == (Prior { cx, cy, w: 256, h: 240 })
        }),
{
    let own = layer(5, 4, seq![128u32, 192u32, 256u32]);
    let cell = 5 * row + column;
    let at = 3 * cell;
    layer_lengths();
    assert(cell / 5 == row && cell % 5 == column);
    assert((at + 0) / 3 == cell && (at + 0) % 3 == 0);
    assert(prior_layout()[4360 + at + 0] == own[at + 0]);
    assert((at + 1) / 3 == cell && (at + 1) % 3 == 1);
    assert(prior_layout()[4360 + at + 1] == own[at + 1]);
    assert((at + 2) / 3 == cell && (at + 2) % 3 == 2);
    assert(prior_layout()[4360 + at + 2] == own[at + 2]);
}

/// The four raw numbers of row `i`.
pub open spec fn row_numbers(boxes: Seq<i64>, i: int) -> Seq<i64> {
    seq![boxes[4 * i], boxes[4 * i + 1], boxes[4 * i + 2], boxes[4 * i + 3]]
}

/// A row is a candidate exactly if the second of its two confidences is above
/// seven tenths (in single precision). It stands for the box that its own four numbers make of the
/// prior of the same place, and candidates keep the order of their rows.
pub proof fn confident_rows_are_candidates(confidences: Seq<i64>, boxes: Seq<i64>, n: int)
    requires
        0 <= n,
        4 * n <= boxes.len(),
    ensures
        n > 0 ==> face_candidates(confidences, boxes, n) == if confidences[2 * n - 1] > 3_006_477_056 {
            face_candidates(confidences, boxes, n - 1).push(
                decoded(
                    prior_layout()[n - 1],
                    row_numbers(boxes, n - 1),
                    confidences[2 * n - 1],
                ),
            )
        } else {
            face_candidates(confidences, boxes, n - 1)
        },
        forall|i: int|
            #![trigger confidences[2 * i + 1]]
            0 <= i < n && confidences[2 * i + 1] > 3_006_477_056 ==> face_candidates(
                confidences,
                boxes,
                n,
            ).contains(
                decoded(prior_layout()[i], row_numbers(boxes, i), confidences[2 * i + 1]),
            ),
        forall|k: int|
            0 <= k < face_candidates(confidences, boxes, n).len() ==> exists|i: int|
                {
                    &&& 0 <= i < n
                    &&& #[trigger] confidences[2 * i + 1] > 3_006_477_056
                    &&& #[trigger] face_candidates(confidences, boxes, n)[k] == decoded(
                        prior_layout()[i],
                        row_numbers(boxes, i),
                        confidences[2 * i + 1],
                    )
                },
    decreases n,
{
    if n > 0 {
        let m = n - 1;
        let before = face_candidates(confidences, boxes, m);
        let all = face_candidates(confidences, boxes, n);
        confident_rows_are_candidates(confidences, boxes, m);
        assert(boxes.subrange(4 * m, 4 * m + 4) =~= row_numbers(boxes, m));
        assert forall|i: int|
            #![trigger confidences[2 * i + 1]]
            0 <= i < n && confidences[2 * i + 1] > 3_006_477_056 implies all.contains(
            decoded(prior_layout()[i], row_numbers(boxes, i), confidences[2 * i + 1]),
        ) by {
            let b = decoded(prior_layout()[i], row_numbers(boxes, i), confidences[2 * i + 1]);
            if i < m {
                assert(before.contains(b));
                let k = choose|k: int| 0 <= k < before.len() && before[k] == b;
                assert(all[k] == b);
            } else {
                assert(all[before.len() as int] == b);
            }
        }
        assert forall|k: int| 0 <= k < all.len() implies exists|i: int|
            {
                &&& 0 <= i < n
                &&& #[trigger] confidences[2 * i + 1] > 3_006_477_056
                &&& #[trigger] all[k] == decoded(
                    prior_layout()[i],
                    row_numbers(boxes, i),
                    confidences[2 * i + 1],
                )
            } by {
            if k < before.len() {
                assert(before[k] == all[k]);
                let i = choose|i: int|
                    {
                        &&& 0 <= i < m
                        &&& #[trigger] confidences[2 * i + 1] > 3_006_477_056
                        &&& before[k] == decoded(
                            prior_layout()[i],
                            row_numbers(boxes, i),
                            confidences[2 * i + 1],
                        )
                    };
                assert(confidences[2 * i + 1] > 3_006_477_056);
            } else {
                assert(confidences[2 * m + 1] > 3_006_477_056);
            }
        }
    }
}

/// How much two boxes overlap, where one lies in the other, where their
/// corners cross, and where they are apart. Boxes overlap if they share more
/// than three tenths of what they cover together.
pub proof fn overlap_is_a_share(a: FaceBox, b: FaceBox, slack: int)
    requires
        a.x1 <= a.x2,
        a.y1 <= a.y2,
        b.x1 <= b.x2,
        b.y1 <= b.y2,
        0 <= slack,
    ensures
        a.x1 <= b.x1 && b.x2 <= a.x2 && a.y1 <= b.y1 && b.y2 <= a.y2 ==> (overlaps(a, b, slack)
            <==> 10 * ((b.x2 - b.x1) * (b.y2 - b.y1)) > 3 * ((a.x2 - a.x1) * (a.y2 - a.y1)
            + slack)),
        a.x1 <= b.x1 <= a.x2 <= b.x2 && a.y1 <= b.y1 <= a.y2 <= b.y2 ==> (overlaps(a, b, slack)
            <==> 13 * ((a.x2 - b.x1) * (a.y2 - b.y1)) > 3 * ((a.x2 - a.x1) * (a.y2 - a.y1) + (b.x2
            - b.x1) * (b.y2 - b.y1) + slack)),
        a.x1 <= b.x1 <= a.x2 <= b.x2 && b.y1 <= a.y1 <= b.y2 <= a.y2 ==> (overlaps(a, b, slack)
            <==> 13 * ((a.x2 - b.x1) * (b.y2 - a.y1)) > 3 * ((a.x2 - a.x1) * (a.y2 - a.y1) + (b.x2
            - b.x1) * (b.y2 - b.y1) + slack)),
        a.x2 <= b.x1 || a.y2 <= b.y1 ==> !overlaps(a, b, slack),
{
    let (aw, ah) = (a.x2 - a.x1, a.y2 - a.y1);
    let (bw, bh) = (b.x2 - b.x1, b.y2 - b.y1);
    assert(extent(a.x1 as int, a.x2 as int) == aw && extent(a.y1 as int, a.y2 as int) == ah);
    assert(extent(b.x1 as int, b.x2 as int) == bw && extent(b.y1 as int, b.y2 as int) == bh);
    assert(aw * ah >= 0 && bw * bh >= 0) by (nonlinear_arith)
        requires
            aw >= 0,
            ah >= 0,
            bw >= 0,
            bh >= 0,
    ;
    if a.x2 <= b.x1 || a.y2 <= b.y1 {
        let sw = extent(greater(a.x1 as int, b.x1 as int), lesser(a.x2 as int, b.x2 as int));
        let sh = extent(greater(a.y1 as int, b.y1 as int), lesser(a.y2 as int, b.y2 as int));
        assert(sw * sh == 0) by (nonlinear_arith)
            requires
                sw == 0 || sh == 0,
        ;
    }
}

/// The area of a box is its width times its height.
pub proof fn area_is_width_times_height(b: FaceBox)
    requires
        b.x1 <= b.x2,
        b.y1 <= b.y2,
    ensures
        area_of(b) == (b.x2 - b.x1) * (b.y2 - b.y1),
{
}

/// The model is shown the reds of all pixels, then the greens, then the blues.
pub proof fn planes_hold_one_color_each(data: Seq<u8>, pixels: int, i: int)
    requires
        0 <= i < pixels,
        data.len() == 3 * pixels,
    ensures
        planes_of(data, pixels).len() == 3 * pixels,
        planes_of(data, pixels)[i] == data[3 * i],
        planes_of(data, pixels)[pixels + i] == data[3 * i + 1],
        planes_of(data, pixels)[2 * pixels + i] == data[3 * i + 2],
{
    assert(i / pixels == 0 && i % pixels == i && (pixels + i) / pixels == 1 && (pixels + i) % pixels
        == i && (2 * pixels + i) / pixels == 2 && (2 * pixels + i) % pixels == i)
        by (nonlinear_arith)
        requires
            0 <= i < pixels,
    ;
}

/// Placing a face in the picture stretches each edge as the picture is
/// stretched from the model's 320 by 240 pixels; edges off the input move to
/// its border. (Each product is rounded down to whole sub-pixels.)
pub proof fn placed_faces_keep_their_proportions(b: FaceBox, width: int, height: int)
    requires
        0 < width <= 0xffff_ffff,
        0 < height <= 0xffff_ffff,
    ensures
        ({
            let p = placed(b, width, height);
            &&& 0 <= b.x1 <= 20_971_520 ==> 320 * p.x1 <= b.x1 * width < 320 * (p.x1 + 1)
            &&& 0 <= b.x2 <= 20_971_520 ==> 320 * p.x2 <= b.x2 * width < 320 * (p.x2 + 1)
            &&& 0 <= b.y1 <= 15_728_640 ==> 240 * p.y1 <= b.y1 * height < 240 * (p.y1 + 1)
            &&& 0 <= b.y2 <= 15_728_640 ==> 240 * p.y2 <= b.y2 * height < 240 * (p.y2 + 1)
            &&& b.x1 <= 0 ==> p.x1 == 0
            &&& b.x2 <= 0 ==> p.x2 == 0
            &&& b.y1 <= 0 ==> p.y1 == 0
            &&& b.y2 <= 0 ==> p.y2 == 0
            &&& b.x1 >= 20_971_520 ==> p.x1 == 65_536 * width
            &&& b.x2 >= 20_971_520 ==> p.x2 == 65_536 * width
            &&& b.y1 >= 15_728_640 ==> p.y1 == 65_536 * height
            &&& b.y2 >= 15_728_640 ==> p.y2 == 65_536 * height
            &&& p.score == b.score
        }),
{
    let (x1, x2) = (within(b.x1 as int, 20_971_520), within(b.x2 as int, 20_971_520));
    let (y1, y2) = (within(b.y1 as int, 15_728_640), within(b.y2 as int, 15_728_640));
    assert(0 <= x1 * width <= 20_971_520 * width && 0 <= x2 * width <= 20_971_520 * width)
        by (nonlinear_arith)
        requires
            0 <= x1 <= 20_971_520,
            0 <= x2 <= 20_971_520,
            0 < width,
    ;
    assert(0 <= y1 * height <= 15_728_640 * height && 0 <= y2 * height <= 15_728_640 * height)
        by (nonlinear_arith)
        requires
            0 <= y1 <= 15_728_640,
            0 <= y2 <= 15_728_640,
            0 < height,
    ;
    assert(0 * width == 0 && 0 * height == 0);
}

proof fn candidates_are_few(confidences: Seq<i64>, boxes: Seq<i64>, n: int)
    requires
        0 <= n,
    ensures
        face_candidates(confidences, boxes, n).len() <= n,
    decreases n,
{
    if n > 0 {
        candidates_are_few(confidences, boxes, n - 1);
    }
}

/// Where two of the prominent faces come from.
proof fn prominent_faces_sources(kept: Seq<FaceBox>, width: int, height: int, i: int, j: int) -> (at: (
    int,
    int,
))
    requires
        0 <= i <= j < prominent_faces(kept, width, height).len(),
    ensures
        0 <= at.0 <= at.1 < kept.len(),
        i < j ==> at.0 < at.1,
        prominent_faces(kept, width, height)[i] == placed(kept[at.0], width, height),
        prominent_faces(kept, width, height)[j] == placed(kept[at.1], width, height),
    decreases kept.len(),
{
    let t = kept.drop_last();
    let before = prominent_faces(t, width, height);
    let last = kept.len() - 1;
    if j < before.len() {
        prominent_faces_sources(t, width, height, i, j)
    } else if i < before.len() {
        let at = prominent_faces_sources(t, width, height, i, i);
        (at.0, last)
    } else {
        (last, last)
    }
}

proof fn prominent_faces_complete(kept: Seq<FaceBox>, width: int, height: int, k: int)
    requires
        0 <= k < kept.len(),
        is_prominent(placed(kept[k], width, height), width, height, MIN_FACE_PER_MILLE as int),
    ensures
        prominent_faces(kept, width, height).contains(placed(kept[k], width, height)),
    decreases kept.len(),
{
    let t = kept.drop_last();
    let before = prominent_faces(t, width, height);
    let all = prominent_faces(kept, width, height);
    let b = placed(kept[k], width, height);
    if k < t.len() {
        assert(t[k] == kept[k]);
        prominent_faces_complete(t, width, height, k);
        let m = choose|m: int| 0 <= m < before.len() && before[m] == b;
        assert(all[m] == b);
    } else {
        assert(all[before.len() as int] == b);
    }
}

/// Whether row `r` of the output shows box `b` in a picture of the given size:
/// its second confidence is above seven tenths (in single precision), and `b`
/// is what its four numbers make of the prior of the same place, moved from
/// the model's input to the picture.
pub open spec fn row_shows(o: FaceOutput, r: int, b: FaceBox, width: int, height: int) -> bool {
    &&& 0 <= r < 4420
    &&& 2 * r + 1 < o.confidences@.len()
    &&& o.confidences@[2 * r + 1] > 3_006_477_056
    &&& b == placed(
        decoded(prior_layout()[r], row_numbers(o.boxes@, r), o.confidences@[2 * r + 1]),
        width,
        height,
    )
}

/// The row that a kept candidate comes from.
proof fn row_of_kept(o: FaceOutput, k: int) -> (r: int)
    requires
        o.wf(),
        0 <= k < kept_of(
            face_candidates(o.confidences@, o.boxes@, face_rows(o.confidences@)),
            FACE_SLACK as int,
        ).len(),
    ensures
        ({
            let candidates = face_candidates(o.confidences@, o.boxes@, face_rows(o.confidences@));
            let kept = kept_of(candidates, FACE_SLACK as int);
            &&& kept[k] < candidates.len()
            &&& 0 <= r < face_rows(o.confidences@)
            &&& o.confidences@[2 * r + 1] > 3_006_477_056
            &&& candidates[kept[k] as int] == decoded(
                prior_layout()[r],
                row_numbers(o.boxes@, r),
                o.confidences@[2 * r + 1],
            )
        }),
{
    let n = face_rows(o.confidences@);
    let candidates = face_candidates(o.confidences@, o.boxes@, n);
    let kept = kept_of(candidates, FACE_SLACK as int);
    candidates_are_few(o.confidences@, o.boxes@, n);
    kept_boxes_are_given(candidates, FACE_SLACK as int, k);
    confident_rows_are_candidates(o.confidences@, o.boxes@, n);
    choose|r: int|
        {
            &&& 0 <= r < n
            &&& #[trigger] o.confidences@[2 * r + 1] > 3_006_477_056
            &&& candidates[kept[k] as int] == decoded(
                prior_layout()[r],
                row_numbers(o.boxes@, r),
                o.confidences@[2 * r + 1],
            )
        }
}

/// Every reported face comes from a confident row and covers at least a
/// thousandth of the picture. Faces fall in confidence, and no two of them
/// come from boxes that overlap. An empty picture has no faces.
pub proof fn faces_come_from_confident_rows(
    width: int,
    height: int,
    output: FaceOutput,
    i: int,
    j: int,
)
    requires
        output.wf(),
        0 <= i < j < faces_of(width, height, Some(&output)).len() || 0 <= i == j < faces_of(
            width,
            height,
            Some(&output),
        ).len(),
    ensures
        0 < width,
        0 < height,
        ({
            let f = faces_of(width, height, Some(&output))[i];
            &&& f.x1 < f.x2
            &&& f.y1 < f.y2
            &&& 1000 * ((f.x2 - f.x1) * (f.y2 - f.y1)) >= 4_294_967_296 * (width * height)
        }),
        exists|r: int|
            #[trigger] row_shows(
                output,
                r,
                faces_of(width, height, Some(&output))[i],
                width,
                height,
            ),
        i < j ==> {
            let f = faces_of(width, height, Some(&output));
            &&& f[i].score >= f[j].score
            &&& exists|r: int, q: int|
                {
                    &&& #[trigger] row_shows(output, r, f[i], width, height)
                    &&& #[trigger] row_shows(output, q, f[j], width, height)
                    &&& !overlaps(
                        decoded(
                            prior_layout()[r],
                            row_numbers(output.boxes@, r),
                            output.confidences@[2 * r + 1],
                        ),
                        decoded(
                            prior_layout()[q],
                            row_numbers(output.boxes@, q),
                            output.confidences@[2 * q + 1],
                        ),
                        3_298_534_883,
                    )
                }
        },
{
    let o = output;
    let candidates = face_candidates(o.confidences@, o.boxes@, face_rows(o.confidences@));
    let kept = kept_of(candidates, FACE_SLACK as int);
    let boxes = picked(candidates, kept);
    let faces = prominent_faces(boxes, width, height);
    let (k, l) = prominent_faces_sources(boxes, width, height, i, j);
    let r = row_of_kept(o, k);
    let q = row_of_kept(o, l);
    assert(row_shows(o, r, faces[i], width, height));
    assert(row_shows(o, q, faces[j], width, height));
    if i < j {
        candidates_are_few(o.confidences@, o.boxes@, face_rows(o.confidences@));
        kept_boxes_are_apart(candidates, FACE_SLACK as int, k, l);
        kept_boxes_fall_in_confidence(candidates, FACE_SLACK as int, k, l);
    }
    let f = faces[i];
    prominent_faces_are_large(boxes, width, height, i);
    let w = extent(f.x1 as int, f.x2 as int);
    let h = extent(f.y1 as int, f.y2 as int);
    assert(width * height > 0) by (nonlinear_arith)
        requires
            width > 0,
            height > 0,
    ;
    assert(w > 0 && h > 0) by (nonlinear_arith)
        requires
            w * h > 0,
            w >= 0,
            h >= 0,
    ;
}

proof fn prominent_faces_are_large(kept: Seq<FaceBox>, width: int, height: int, i: int)
    requires
        0 <= i < prominent_faces(kept, width, height).len(),
    ensures
        1000 * area_of(prominent_faces(kept, width, height)[i]) >= 4_294_967_296 * (width * height),
    decreases kept.len(),
{
    if i < prominent_faces(kept.drop_last(), width, height).len() {
        prominent_faces_are_large(kept.drop_last(), width, height, i);
    } else {
        assert(65_536 * 65_536 * (width * height) == 4_294_967_296 * (width * height));
    }
}

/// Every confident row whose box covers at least a thousandth of the picture
/// is reported, unless its box overlaps that of a row that is at least as
/// confident.
pub proof fn large_faces_are_reported(
    width: int,
    height: int,
    output: FaceOutput,
    r: int,
    b: FaceBox,
)
    requires
        0 < width,
        0 < height,
        output.wf(),
        row_shows(output, r, b, width, height),
        b.x1 <= b.x2,
        b.y1 <= b.y2,
        1000 * ((b.x2 - b.x1) * (b.y2 - b.y1)) >= 4_294_967_296 * (width * height),
    ensures
        faces_of(width, height, Some(&output)).contains(b) || exists|q: int, c: FaceBox|
            {
                &&& #[trigger] row_shows(output, q, c, width, height)
                &&& output.confidences@[2 * q + 1] >= output.confidences@[2 * r + 1]
                &&& overlaps(
                    decoded(
                        prior_layout()[q],
                        row_numbers(output.boxes@, q),
                        output.confidences@[2 * q + 1],
                    ),
                    decoded(
                        prior_layout()[r],
                        row_numbers(output.boxes@, r),
                        output.confidences@[2 * r + 1],
                    ),
                    3_298_534_883,
                )
            },
{
    let o = output;
    let n = face_rows(o.confidences@);
    let candidates = face_candidates(o.confidences@, o.boxes@, n);
    let kept = kept_of(candidates, FACE_SLACK as int);
    let boxes = picked(candidates, kept);
    candidates_are_few(o.confidences@, o.boxes@, n);
    confident_rows_are_candidates(o.confidences@, o.boxes@, n);
    let own = decoded(prior_layout()[r], row_numbers(o.boxes@, r), o.confidences@[2 * r + 1]);
    assert(candidates.contains(own));
    let v = choose|v: int| 0 <= v < candidates.len() && candidates[v] == own;
    if kept.contains(v as usize) {
        let k = choose|k: int| 0 <= k < kept.len() && kept[k] == v as usize;
        assert(boxes[k] == own);
        assert(65_536 * 65_536 * (width * height) == 4_294_967_296 * (width * height));
        prominent_faces_complete(boxes, width, height, k);
    } else {
        dropped_boxes_are_covered(candidates, FACE_SLACK as int, v as usize);
        let m = choose|m: usize|
            #[trigger] kept.contains(m) && m < candidates.len() && candidates[m as int].score
                >= candidates[v].score && overlaps(
                candidates[m as int],
                candidates[v],
                FACE_SLACK as int,
            );
        let q = choose|q: int|
            {
                &&& 0 <= q < n
                &&& #[trigger] o.confidences@[2 * q + 1] > 3_006_477_056
                &&& candidates[m as int] == decoded(
                    prior_layout()[q],
                    row_numbers(o.boxes@, q),
                    o.confidences@[2 * q + 1],
                )
            };
        assert(row_shows(o, q, placed(candidates[m as int], width, height), width, height));
    }
}

/// The main box is one of the boxes, and none of them covers more; if the last
/// box is as large as any, it is the last. There is one exactly if there are
/// boxes at all.
pub proof fn main_boxes_are_the_largest(boxes: Seq<FaceBox>, i: int)
    requires
        forall|k: int|
            0 <= k < boxes.len() ==> (#[trigger] boxes[k]).x1 <= boxes[k].x2 && boxes[k].y1
                <= boxes[k].y2,
        0 <= i < boxes.len(),
    ensures
        main_box(boxes) is Some,
        boxes.contains(main_box(boxes)->0),
        ({
            let m = main_box(boxes)->0;
            (boxes[i].x2 - boxes[i].x1) * (boxes[i].y2 - boxes[i].y1) <= (m.x2 - m.x1) * (m.y2
                - m.y1)
        }),
        (forall|k: int|
            0 <= k < boxes.len() ==> ((#[trigger] boxes[k]).x2 - boxes[k].x1) * (boxes[k].y2
                - boxes[k].y1) <= (boxes.last().x2 - boxes.last().x1) * (boxes.last().y2
                - boxes.last().y1)) ==> main_box(boxes) == Some(boxes.last()),
        main_box(Seq::empty()) is None,
{
    assert(is_main(Seq::empty(), None));
    main_box_is_unique(Seq::empty(), None, main_box(Seq::empty()));
    largest_exists(boxes);
    let m = main_box(boxes);
    assert(is_main(boxes, m));
    let b = m->0;
    let p = choose|p: int|
        0 <= p < boxes.len() && #[trigger] boxes[p] == b && (forall|k: int|
            0 <= k < boxes.len() ==> area_of(#[trigger] boxes[k]) <= area_of(b));
    area_is_width_times_height(boxes[p]);
    area_is_width_times_height(boxes[i]);
    assert(area_of(boxes[i]) <= area_of(b));
    let last = boxes.last();
    assert(boxes[boxes.len() - 1] == last);
    if forall|k: int|
        0 <= k < boxes.len() ==> ((#[trigger] boxes[k]).x2 - boxes[k].x1) * (boxes[k].y2
            - boxes[k].y1) <= (last.x2 - last.x1) * (last.y2 - last.y1) {
        assert forall|k: int| 0 <= k < boxes.len() implies area_of(#[trigger] boxes[k]) <= area_of(
            last,
        ) by {
            area_is_width_times_height(boxes[k]);
            area_is_width_times_height(boxes[boxes.len() - 1]);
        }
        assert(is_main(boxes, Some(last)));
        main_box_is_unique(boxes, Some(last), m);
    }
}

proof fn largest_exists(boxes: Seq<FaceBox>)
    ensures
        exists|r: Option<FaceBox>| is_main(boxes, r),
    decreases boxes.len(),
{
    if boxes.len() == 0 {
        assert(is_main(boxes, None));
    } else {
        let t = boxes.drop_last();
        let last = boxes.last();
        largest_exists(t);
        let r = choose|r: Option<FaceBox>| is_main(t, r);
        assert(boxes[boxes.len() - 1] == last);
        match r {
            None => {
                assert(is_main(boxes, Some(last)));
            },
            Some(b) => {
                let p = choose|p: int|
                    {
                        &&& 0 <= p < t.len()
                        &&& #[trigger] t[p] == b
                        &&& forall|i: int|
                            0 <= i < t.len() ==> area_of(#[trigger] t[i]) <= area_of(b)
                        &&& forall|i: int|
                            p < i < t.len() ==> area_of(#[trigger] t[i]) < area_of(b)
                    };
                assert forall|i: int| 0 <= i < t.len() implies #[trigger] boxes[i] == t[i] by {}
                if area_of(last) >= area_of(b) {
                    assert forall|i: int| 0 <= i < boxes.len() implies area_of(#[trigger] boxes[i])
                        <= area_of(last) by {
                        if i < t.len() {
                            assert(area_of(t[i]) <= area_of(b));
                        }
                    }
                    assert(is_main(boxes, Some(last)));
                } else {
                    assert(boxes[p] == b);
                    assert forall|i: int| p < i < boxes.len() implies area_of(#[trigger] boxes[i])
                        < area_of(b) by {
                        if i < t.len() {
                            assert(area_of(t[i]) < area_of(b));
                        }
                    }
                    assert forall|i: int| 0 <= i < boxes.len() implies area_of(#[trigger] boxes[i])
                        <= area_of(b) by {
                        if i < t.len() {
                            assert(area_of(t[i]) <= area_of(b));
                        }
                    }
                    assert(is_main(boxes, Some(b)));
                }
            },
        }
    }
}

} // verus!
