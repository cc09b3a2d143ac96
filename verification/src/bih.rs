//! The bounding interval hierarchy (BIH) over the triangles of a scene.
use vstd::prelude::*;

use crate::mesh::{tri_bounds, Point3, Triangle};
use crate::seqs::{
    in_window, lemma_rearranged_all, lemma_rearranged_refl, lemma_rearranged_trans, lemma_swap_rearranged,
    lemma_agree_same_contents, lemma_rearranged_any, rearranged, same_contents, swapped,
};

verus! {

/// An axis-aligned box.
#[derive(Clone, Copy, Debug, PartialEq, Eq, Structural)]
pub struct BoundingBox {
    pub min: Point3,
    pub max: Point3,
}

/// The kind of a node of the hierarchy: a split across the x, y or z axis, or a leaf.
#[derive(Clone, Copy, Debug, PartialEq, Eq, Structural)]
pub enum BihNodeType {
    X,
    Y,
    Z,
    Leaf,
}

impl BihNodeType {
    /// The number that stands for the kind in the GPU layout: 0, 1, 2 for the axes
    /// x, y, z, and 3 for a leaf. For a split it is also the axis.
    pub open spec fn code(self) -> int {
        match self {
            BihNodeType::X => 0,
            BihNodeType::Y => 1,
            BihNodeType::Z => 2,
            BihNodeType::Leaf => 3,
        }
    }

    /// The kind whose number is `v`, if there is one.
    pub open spec fn from_code(v: int) -> Option<BihNodeType> {
        if v == 0 {
            Some(BihNodeType::X)
        } else if v == 1 {
            Some(BihNodeType::Y)
        } else if v == 2 {
            Some(BihNodeType::Z)
        } else if v == 3 {
            Some(BihNodeType::Leaf)
        } else {
            None
        }
    }

    /// The number of this kind.
    pub fn to_u32(self) -> (r: u32)
        ensures
            r == self.code(),
    {
        match self {
            BihNodeType::X => 0,
            BihNodeType::Y => 1,
            BihNodeType::Z => 2,
            BihNodeType::Leaf => 3,
        }
    }

    /// The kind whose number is `v`, or `None` when no kind has that number.
    pub fn n(v: u32) -> (r: Option<BihNodeType>)
        ensures
            r == BihNodeType::from_code(v as int),
            r matches Some(t) ==> t.code() == v,
    {
        if v == 0 {
            Some(BihNodeType::X)
        } else if v == 1 {
            Some(BihNodeType::Y)
        } else if v == 2 {
            Some(BihNodeType::Z)
        } else if v == 3 {
            Some(BihNodeType::Leaf)
        } else {
            None
        }
    }
}

/// Twice the centre of `b` on axis `a` (kept doubled so that it stays exact).
pub open spec fn centre2(b: BoundingBox, a: int) -> int {
    b.min.coord(a) + b.max.coord(a)
}

impl BoundingBox {
    /// The centre of the box, doubled on each axis (x, y, z) so that it is exact.
    pub fn centre(&self) -> (c: [i64; 3])
        ensures
            c[0] == centre2(*self, 0),
            c[1] == centre2(*self, 1),
            c[2] == centre2(*self, 2),
    {
        [
            self.min.x as i64 + self.max.x as i64,
            self.min.y as i64 + self.max.y as i64,
            self.min.z as i64 + self.max.z as i64,
        ]
    }
}

/// Whether the centre of `t`'s bounds lies below the centre of `b` on axis `a`:
/// the test that sends a triangle to the left part of a split.
pub open spec fn goes_left(t: Triangle, b: BoundingBox, a: int) -> bool {
    centre2(tri_bounds(t), a) < centre2(b, a)
}

fn goes_left_exec(t: &Triangle, b: &BoundingBox, axis: usize) -> (r: bool)
    requires
        axis < 3,
    ensures
        r == goes_left(*t, *b, axis as int),
{
    let tc = t.bounds().centre();
    let bc = b.centre();
    tc[axis] < bc[axis]
}

/// The partition of the window `[i, j)` of `s` by the test that sends a triangle
/// left on axis `a` of `b`, as `Iterator::partition_in_place` makes it: triangles
/// that go left are passed over from the front, triangles that do not from the
/// back, and the first one from the front that does not go left is exchanged with
/// the last one that does, until the two scans meet. Gives the sequence after the
/// partition and the position where the scans met: the end of the left part.
pub open spec fn partition_run(s: Seq<Triangle>, i: int, j: int, b: BoundingBox, a: int) -> (Seq<Triangle>, int)
    decreases j - i,
{
    if i >= j {
        (s, i)
    } else if goes_left(s[i], b, a) {
        partition_run(s, i + 1, j, b, a)
    } else if !goes_left(s[j - 1], b, a) {
        partition_run(s, i, j - 1, b, a)
    } else {
        partition_run(swapped(s, i, j - 1), i + 1, j - 1, b, a)
    }
}

/// Moves the triangles of `tris[lo..hi]` whose centre lies below the centre of
/// `b` on `axis` to the front of that window, the others behind them, and
/// returns how many went to the front. The order is the one of
/// `Iterator::partition_in_place`: the first triangle that stays behind is
/// swapped with the last one that goes to the front, until none is left.
fn partition_by_centre(tris: &mut Vec<Triangle>, lo: usize, hi: usize, b: &BoundingBox, axis: usize) -> (middle: usize)
    requires
        lo <= hi <= old(tris).len(),
        axis < 3,
    ensures
        middle <= hi - lo,
        (final(tris)@, lo + middle) == partition_run(old(tris)@, lo as int, hi as int, *b, axis as int),
        rearranged(final(tris)@, old(tris)@, lo as int, hi as int),
        middle == 0 || middle == hi - lo ==> final(tris)@ == old(tris)@,
        forall|k: int| lo <= k < lo + middle ==> goes_left(#[trigger] final(tris)@[k], *b, axis as int),
        forall|k: int| lo + middle <= k < hi ==> !goes_left(#[trigger] final(tris)@[k], *b, axis as int),
{
    let ghost orig = tris@;
    proof {
        lemma_rearranged_refl(orig, lo as int, hi as int);
    }
    let mut i = lo;
    let mut j = hi;
    loop
        invariant
            lo <= i <= j <= hi,
            hi <= tris.len(),
            axis < 3,
            rearranged(tris@, orig, lo as int, hi as int),
            orig == old(tris)@,
            tris@ == orig || (lo < i && j < hi),
            partition_run(tris@, i as int, j as int, *b, axis as int) == partition_run(orig, lo as int, hi as int, *b, axis as int),
            forall|k: int| lo <= k < i ==> goes_left(#[trigger] tris@[k], *b, axis as int),
            forall|k: int| j <= k < hi ==> !goes_left(#[trigger] tris@[k], *b, axis as int),
        decreases j - i,
    {
        while i < j && goes_left_exec(&tris[i], b, axis)
            invariant
                lo <= i <= j <= hi,
                hi <= tris.len(),
                axis < 3,
                rearranged(tris@, orig, lo as int, hi as int),
                orig == old(tris)@,
                tris@ == orig || (lo < i && j < hi),
                partition_run(tris@, i as int, j as int, *b, axis as int) == partition_run(orig, lo as int, hi as int, *b, axis as int),
                forall|k: int| lo <= k < i ==> goes_left(#[trigger] tris@[k], *b, axis as int),
                forall|k: int| j <= k < hi ==> !goes_left(#[trigger] tris@[k], *b, axis as int),
            decreases j - i,
        {
            i = i + 1;
        }
        if i == j {
            return i - lo;
        }
        let head = i;
        assert(!goes_left(tris@[head as int], *b, axis as int));
        while head + 1 < j && !goes_left_exec(&tris[j - 1], b, axis)
            invariant
                lo <= head < j <= hi,
                head == i,
                hi <= tris.len(),
                axis < 3,
                rearranged(tris@, orig, lo as int, hi as int),
                orig == old(tris)@,
                tris@ == orig || (lo < i && j < hi),
                partition_run(tris@, i as int, j as int, *b, axis as int) == partition_run(orig, lo as int, hi as int, *b, axis as int),
                !goes_left(tris@[head as int], *b, axis as int),
                forall|k: int| lo <= k < i ==> goes_left(#[trigger] tris@[k], *b, axis as int),
                forall|k: int| j <= k < hi ==> !goes_left(#[trigger] tris@[k], *b, axis as int),
            decreases j,
        {
            j = j - 1;
        }
        if head + 1 == j {
            assert(forall|k: int| head <= k < hi ==> !goes_left(#[trigger] tris@[k], *b, axis as int));
            assert(partition_run(tris@, head as int, head as int, *b, axis as int) == (tris@, head as int));
            assert(partition_run(tris@, head as int, j as int, *b, axis as int) == partition_run(
                tris@,
                head as int,
                head as int,
                *b,
                axis as int,
            ));
            return head - lo;
        }
        j = j - 1;
        let ghost before = tris@;
        let front = tris[head];
        let back = tris[j];
        tris.set(head, back);
        tris.set(j, front);
        proof {
            assert(tris@ == swapped(before, head as int, j as int));
            lemma_swap_rearranged(before, head as int, j as int, lo as int, hi as int);
            lemma_rearranged_trans(tris@, before, orig, lo as int, hi as int);
        }
        i = head + 1;
    }
}

/// The extent of `b` along axis `a`.
pub open spec fn extent(b: BoundingBox, a: int) -> int {
    b.max.coord(a) - b.min.coord(a)
}

/// The axis along which a box is widest (ties go to the later axis): the first
/// axis tried when a part of the hierarchy is split.
pub open spec fn widest_axis(b: BoundingBox) -> int {
    if extent(b, 0) > extent(b, 1) && extent(b, 0) > extent(b, 2) {
        0
    } else if extent(b, 1) > extent(b, 2) {
        1
    } else {
        2
    }
}

/// The kind of split across the widest axis of `bounds`.
fn choose_split_axis(bounds: &BoundingBox) -> (t: BihNodeType)
    ensures
        t.code() == widest_axis(*bounds),
{
    let sx = bounds.max.x as i64 - bounds.min.x as i64;
    let sy = bounds.max.y as i64 - bounds.min.y as i64;
    let sz = bounds.max.z as i64 - bounds.min.z as i64;
    if sx > sy && sx > sz {
        BihNodeType::X
    } else if sy > sz {
        BihNodeType::Y
    } else {
        BihNodeType::Z
    }
}

/// Every triangle of the window goes left on axis `a`.
pub open spec fn all_left(s: Seq<Triangle>, lo: int, hi: int, b: BoundingBox, a: int) -> bool {
    forall|k: int| lo <= k < hi ==> #[trigger] goes_left(s[k], b, a)
}

/// No triangle of the window goes left on axis `a`.
pub open spec fn none_left(s: Seq<Triangle>, lo: int, hi: int, b: BoundingBox, a: int) -> bool {
    forall|k: int| lo <= k < hi ==> !#[trigger] goes_left(s[k], b, a)
}

/// The window can be split on axis `a`: some of its triangles go left, some do not.
pub open spec fn splits(s: Seq<Triangle>, lo: int, hi: int, b: BoundingBox, a: int) -> bool {
    !all_left(s, lo, hi, b, a) && !none_left(s, lo, hi, b, a)
}

/// The `n`-th axis tried for a window whose box is `b`: the widest one first, then
/// the following ones in the order x, y, z, x, ...
pub open spec fn tried_axis(b: BoundingBox, n: int) -> int {
    (widest_axis(b) + n) % 3
}

/// The first axis, in the order in which they are tried, on which the window can
/// be split; `None` when it can be split on none.
pub open spec fn first_split_axis(s: Seq<Triangle>, lo: int, hi: int, b: BoundingBox) -> Option<int> {
    if splits(s, lo, hi, b, tried_axis(b, 0)) {
        Some(tried_axis(b, 0))
    } else if splits(s, lo, hi, b, tried_axis(b, 1)) {
        Some(tried_axis(b, 1))
    } else if splits(s, lo, hi, b, tried_axis(b, 2)) {
        Some(tried_axis(b, 2))
    } else {
        None
    }
}

/// `v` is the largest upper bound on axis `a` among the triangles of the window.
pub open spec fn is_max_upper(s: Seq<Triangle>, lo: int, hi: int, a: int, v: i32) -> bool {
    &&& forall|k: int| lo <= k < hi ==> #[trigger] tri_bounds(s[k]).max.coord(a) <= v
    &&& exists|k: int| lo <= k < hi && #[trigger] tri_bounds(s[k]).max.coord(a) == v
}

/// `v` is the smallest lower bound on axis `a` among the triangles of the window.
pub open spec fn is_min_lower(s: Seq<Triangle>, lo: int, hi: int, a: int, v: i32) -> bool {
    &&& forall|k: int| lo <= k < hi ==> #[trigger] tri_bounds(s[k]).min.coord(a) >= v
    &&& exists|k: int| lo <= k < hi && #[trigger] tri_bounds(s[k]).min.coord(a) == v
}

/// The box of the left part of a split on axis `a` of a window with box `b` and
/// left part `[lo, mid)`: `b` with its upper bound on `a` lowered to the lower bound
/// of a triangle of the left part whose upper bound is the largest there.
pub open spec fn is_left_box(s: Seq<Triangle>, lo: int, mid: int, b: BoundingBox, a: int, clip: i32, lb: BoundingBox) -> bool {
    exists|k: int|
        lo <= k < mid && #[trigger] tri_bounds(s[k]).max.coord(a) == clip && lb == BoundingBox {
            max: b.max.with_coord(a, tri_bounds(s[k]).min.coord(a)),
            ..b
        }
}

/// The box of the right part of a split on axis `a` of a window with box `b` and
/// right part `[mid, hi)`: `b` with its lower bound on `a` raised to the upper bound
/// of a triangle of the right part whose lower bound is the smallest there.
pub open spec fn is_right_box(s: Seq<Triangle>, mid: int, hi: int, b: BoundingBox, a: int, clip: i32, rb: BoundingBox) -> bool {
    exists|k: int|
        mid <= k < hi && #[trigger] tri_bounds(s[k]).min.coord(a) == clip && rb == BoundingBox {
            min: b.min.with_coord(a, tri_bounds(s[k]).max.coord(a)),
            ..b
        }
}

/// Position `k` holds, among the triangles of `[lo, mid)`, the last one whose upper
/// bound on axis `a` is the largest there.
pub open spec fn last_max_upper_at(s: Seq<Triangle>, lo: int, mid: int, a: int, k: int) -> bool {
    &&& lo <= k < mid
    &&& forall|j: int| lo <= j < mid ==> #[trigger] tri_bounds(s[j]).max.coord(a) <= tri_bounds(s[k]).max.coord(a)
    &&& forall|j: int| k < j < mid ==> #[trigger] tri_bounds(s[j]).max.coord(a) < tri_bounds(s[k]).max.coord(a)
}

/// Position `k` holds, among the triangles of `[mid, hi)`, the first one whose lower
/// bound on axis `a` is the smallest there.
pub open spec fn first_min_lower_at(s: Seq<Triangle>, mid: int, hi: int, a: int, k: int) -> bool {
    &&& mid <= k < hi
    &&& forall|j: int| mid <= j < hi ==> #[trigger] tri_bounds(s[j]).min.coord(a) >= tri_bounds(s[k]).min.coord(a)
    &&& forall|j: int| mid <= j < k ==> #[trigger] tri_bounds(s[j]).min.coord(a) > tri_bounds(s[k]).min.coord(a)
}

/// The clipping planes and part boxes of a split of `[lo, hi)` at `mid` on axis `a`,
/// as the triangles stand right after the split: the left ones come from the last
/// triangle of the left part with the largest upper bound, the right ones from the
/// first triangle of the right part with the smallest lower bound.
pub open spec fn split_boxes(
    s: Seq<Triangle>,
    lo: int,
    mid: int,
    hi: int,
    b: BoundingBox,
    a: int,
    cl: i32,
    cr: i32,
    lb: BoundingBox,
    rb: BoundingBox,
) -> bool {
    &&& exists|k: int|
        #[trigger] last_max_upper_at(s, lo, mid, a, k) && cl == tri_bounds(s[k]).max.coord(a) && lb
            == BoundingBox { max: b.max.with_coord(a, tri_bounds(s[k]).min.coord(a)), ..b }
    &&& exists|k: int|
        #[trigger] first_min_lower_at(s, mid, hi, a, k) && cr == tri_bounds(s[k]).min.coord(a) && rb
            == BoundingBox { min: b.min.with_coord(a, tri_bounds(s[k]).max.coord(a)), ..b }
}

/// The outcome of an attempt to split a part of the hierarchy.
enum Split {
    Leaf,
    Axis {
        ty: BihNodeType,
        middle: usize,
        left_box: BoundingBox,
        right_box: BoundingBox,
        clip_left: i32,
        clip_right: i32,
    },
}

#[verifier::opaque]
/// The facts that hold of a window `[lo, hi)` of `s`, with box `b`, that is split
/// on axis `a` into `[lo, mid)` and `[mid, hi)`, with clipping planes `cl` and `cr`
/// and part boxes `lb` and `rb`.
pub open spec fn branch_facts(
    s: Seq<Triangle>,
    lo: int,
    mid: int,
    hi: int,
    b: BoundingBox,
    a: int,
    cl: i32,
    cr: i32,
    lb: BoundingBox,
    rb: BoundingBox,
) -> bool {
    &&& first_split_axis(s, lo, hi, b) == Some(a)
    &&& lo < mid < hi
    &&& all_left(s, lo, mid, b, a)
    &&& none_left(s, mid, hi, b, a)
    &&& is_max_upper(s, lo, mid, a, cl)
    &&& is_min_lower(s, mid, hi, a, cr)
    &&& is_left_box(s, lo, mid, b, a, cl, lb)
    &&& is_right_box(s, mid, hi, b, a, cr, rb)
}

/// What a split of the window `[lo, hi)` of `s`, whose box is `b`, yields: a leaf
/// when it cannot be split on any axis, else a split on the first axis that works,
/// with the triangles that go left in front of the others.
spec fn split_result(s: Seq<Triangle>, lo: int, hi: int, b: BoundingBox, r: Split) -> bool {
    match r {
        Split::Leaf => first_split_axis(s, lo, hi, b) is None,
        Split::Axis { ty, middle, left_box, right_box, clip_left, clip_right } => {
            &&& 0 < middle
            &&& lo + middle < hi
            &&& ty != BihNodeType::Leaf
            &&& branch_facts(
                s,
                lo,
                lo + middle,
                hi,
                b,
                ty.code(),
                clip_left,
                clip_right,
                left_box,
                right_box,
            )
            &&& split_boxes(s, lo, lo + middle, hi, b, ty.code(), clip_left, clip_right, left_box, right_box)
        },
    }
}

/// A window of at most one triangle cannot be split.
proof fn lemma_small_window_no_split(s: Seq<Triangle>, lo: int, hi: int, b: BoundingBox, a: int)
    requires
        hi - lo <= 1,
    ensures
        !splits(s, lo, hi, b, a),
{
    if hi - lo == 1 {
        if goes_left(s[lo], b, a) {
            assert(all_left(s, lo, hi, b, a));
        } else {
            assert(none_left(s, lo, hi, b, a));
        }
    }
}

/// Whether a window can be split does not change when its triangles are rearranged.
proof fn lemma_splits_rearranged(s: Seq<Triangle>, t: Seq<Triangle>, lo: int, hi: int, b: BoundingBox, a: int)
    requires
        same_contents(s, t, lo, hi),
    ensures
        splits(s, lo, hi, b, a) == splits(t, lo, hi, b, a),
        all_left(s, lo, hi, b, a) == all_left(t, lo, hi, b, a),
        none_left(s, lo, hi, b, a) == none_left(t, lo, hi, b, a),
{
    let pl = |x: Triangle| goes_left(x, b, a);
    let pr = |x: Triangle| !goes_left(x, b, a);
    if all_left(t, lo, hi, b, a) {
        assert forall|k: int| lo <= k < hi implies #[trigger] pl(t[k]) by {
            assert(goes_left(t[k], b, a));
        }
        lemma_rearranged_all(s, t, lo, hi, pl);
        assert forall|k: int| lo <= k < hi implies #[trigger] goes_left(s[k], b, a) by {
            assert(pl(s[k]));
        }
    }
    if all_left(s, lo, hi, b, a) {
        assert forall|k: int| lo <= k < hi implies #[trigger] pl(s[k]) by {
            assert(goes_left(s[k], b, a));
        }
        lemma_rearranged_all(t, s, lo, hi, pl);
        assert forall|k: int| lo <= k < hi implies #[trigger] goes_left(t[k], b, a) by {
            assert(pl(t[k]));
        }
    }
    if none_left(t, lo, hi, b, a) {
        assert forall|k: int| lo <= k < hi implies #[trigger] pr(t[k]) by {
            assert(!goes_left(t[k], b, a));
        }
        lemma_rearranged_all(s, t, lo, hi, pr);
        assert forall|k: int| lo <= k < hi implies !#[trigger] goes_left(s[k], b, a) by {
            assert(pr(s[k]));
        }
    }
    if none_left(s, lo, hi, b, a) {
        assert forall|k: int| lo <= k < hi implies #[trigger] pr(s[k]) by {
            assert(!goes_left(s[k], b, a));
        }
        lemma_rearranged_all(t, s, lo, hi, pr);
        assert forall|k: int| lo <= k < hi implies !#[trigger] goes_left(t[k], b, a) by {
            assert(pr(t[k]));
        }
    }
}

/// How the outcome of a split of the window `[lo, hi)` of `s`, whose box is `b`,
/// came about from the triangles as they stood before it, `t` being them after it:
/// a leaf when no axis splits the window, else a split on the first axis that does,
/// whose triangles are those of that axis's partition, the left part ending where
/// it ends.
spec fn split_from(s: Seq<Triangle>, t: Seq<Triangle>, lo: int, hi: int, b: BoundingBox, r: Split) -> bool {
    match r {
        Split::Leaf => first_split_axis(s, lo, hi, b) is None,
        Split::Axis { ty, middle, .. } => {
            &&& first_split_axis(s, lo, hi, b) == Some(ty.code())
            &&& (t, lo + middle) == partition_run(s, lo, hi, b, ty.code())
        },
    }
}

/// Splits the window `[lo, hi)` of `tris`, whose box is `current_box`: tries the
/// widest axis of the box first, then the others in turn, and stops at the first
/// one on which the triangles do not all fall on the same side of the centre.
#[verifier::rlimit(40)]
fn split(tris: &mut Vec<Triangle>, lo: usize, hi: usize, current_box: &BoundingBox) -> (r: Split)
    requires
        lo <= hi <= old(tris).len(),
    ensures
        rearranged(final(tris)@, old(tris)@, lo as int, hi as int),
        split_result(final(tris)@, lo as int, hi as int, *current_box, r),
        split_from(old(tris)@, final(tris)@, lo as int, hi as int, *current_box, r),
        r is Leaf ==> final(tris)@ == old(tris)@,
{
    let ghost orig = tris@;
    let ghost b = *current_box;
    proof {
        lemma_rearranged_refl(orig, lo as int, hi as int);
    }
    if hi - lo > 1 {
        let mut axis_idx = choose_split_axis(current_box).to_u32() as usize;
        let mut n: usize = 0;
        while n < 3
            invariant
                lo <= hi <= tris.len(),
                hi - lo > 1,
                n <= 3,
                b == *current_box,
                orig == old(tris)@,
                tris@ == orig,
                rearranged(tris@, orig, lo as int, hi as int),
                axis_idx == tried_axis(b, n as int),
                forall|m: int| 0 <= m < n ==> !#[trigger] splits(tris@, lo as int, hi as int, b, tried_axis(b, m)),
            decreases 3 - n,
        {
            let ghost before = tris@;
            let middle = partition_by_centre(tris, lo, hi, current_box, axis_idx);
            proof {
                lemma_rearranged_trans(tris@, before, orig, lo as int, hi as int);
                assert forall|m: int| 0 <= m < n implies !#[trigger] splits(tris@, lo as int, hi as int, b, tried_axis(b, m)) by {
                    lemma_splits_rearranged(tris@, before, lo as int, hi as int, b, tried_axis(b, m));
                }
            }
            if 1 <= middle && middle < hi - lo {
                let mid = lo + middle;
                let ghost a = axis_idx as int;
                proof {
                    assert(goes_left(tris@[lo as int], b, a));
                    assert(!goes_left(tris@[mid as int], b, a));
                    assert(splits(tris@, lo as int, hi as int, b, a));
                }
                // The triangle of the left part with the largest upper bound (the
                // last one among equals).
                let mut max_left = tris[lo].bounds();
                let ghost mut jl: int = lo as int;
                let mut k = lo + 1;
                while k < mid
                    invariant
                        lo < k <= mid < hi <= tris.len(),
                        axis_idx < 3,
                        a == axis_idx,
                        lo <= jl < k,
                        max_left == tri_bounds(tris@[jl]),
                        forall|j: int| lo <= j < k ==> #[trigger] tri_bounds(tris@[j]).max.coord(a) <= max_left.max.coord(a),
                        forall|j: int| jl < j < k ==> #[trigger] tri_bounds(tris@[j]).max.coord(a) < max_left.max.coord(a),
                    decreases mid - k,
                {
                    let bk = tris[k].bounds();
                    if bk.max.at(axis_idx) >= max_left.max.at(axis_idx) {
                        max_left = bk;
                        proof {
                            jl = k as int;
                        }
                    }
                    k = k + 1;
                }
                // The triangle of the right part with the smallest lower bound (the
                // first one among equals).
                let mut min_right = tris[mid].bounds();
                let ghost mut jr: int = mid as int;
                let mut k = mid + 1;
                while k < hi
                    invariant
                        mid < k <= hi <= tris.len(),
                        axis_idx < 3,
                        a == axis_idx,
                        mid <= jr < k,
                        min_right == tri_bounds(tris@[jr]),
                        forall|j: int| mid <= j < k ==> #[trigger] tri_bounds(tris@[j]).min.coord(a) >= min_right.min.coord(a),
                        forall|j: int| mid <= j < jr ==> #[trigger] tri_bounds(tris@[j]).min.coord(a) > min_right.min.coord(a),
                    decreases hi - k,
                {
                    let bk = tris[k].bounds();
                    if bk.min.at(axis_idx) < min_right.min.at(axis_idx) {
                        min_right = bk;
                        proof {
                            jr = k as int;
                        }
                    }
                    k = k + 1;
                }
                // The axis is below 3, so some split kind has its number.
                let ty = match BihNodeType::n(axis_idx as u32) {
                    Some(t) => t,
                    None => BihNodeType::Leaf,
                };
                let mut left_box = *current_box;
                left_box.max.set_at(axis_idx, max_left.min.at(axis_idx));
                let mut right_box = *current_box;
                right_box.min.set_at(axis_idx, min_right.max.at(axis_idx));
                let clip_left = max_left.max.at(axis_idx);
                let clip_right = min_right.min.at(axis_idx);
                proof {
                    reveal(branch_facts);
                    assert(ty.code() == a);
                    assert(all_left(tris@, lo as int, mid as int, b, a));
                    assert(none_left(tris@, mid as int, hi as int, b, a));
                    assert(tri_bounds(tris@[jl]).max.coord(a) == clip_left);
                    assert(is_left_box(tris@, lo as int, mid as int, b, a, clip_left, left_box));
                    assert(tri_bounds(tris@[jr]).min.coord(a) == clip_right);
                    assert(is_right_box(tris@, mid as int, hi as int, b, a, clip_right, right_box));
                    assert(last_max_upper_at(tris@, lo as int, mid as int, a, jl));
                    assert(first_min_lower_at(tris@, mid as int, hi as int, a, jr));
                    if n >= 1 {
                        assert(!splits(tris@, lo as int, hi as int, b, tried_axis(b, 0)));
                    }
                    if n >= 2 {
                        assert(!splits(tris@, lo as int, hi as int, b, tried_axis(b, 1)));
                    }
                    lemma_first_split_same(tris@, orig, lo as int, hi as int, b);
                }
                return Split::Axis { ty, middle, left_box, right_box, clip_left, clip_right };
            }
            proof {
                if middle == 0 {
                    assert(none_left(tris@, lo as int, hi as int, b, axis_idx as int));
                } else {
                    assert(all_left(tris@, lo as int, hi as int, b, axis_idx as int));
                }
            }
            axis_idx = (axis_idx + 1) % 3;
            n = n + 1;
        }
        proof {
            assert(!splits(tris@, lo as int, hi as int, b, tried_axis(b, 0)));
            assert(!splits(tris@, lo as int, hi as int, b, tried_axis(b, 1)));
            assert(!splits(tris@, lo as int, hi as int, b, tried_axis(b, 2)));
        }
    } else {
        proof {
            lemma_small_window_no_split(tris@, lo as int, hi as int, b, tried_axis(b, 0));
            lemma_small_window_no_split(tris@, lo as int, hi as int, b, tried_axis(b, 1));
            lemma_small_window_no_split(tris@, lo as int, hi as int, b, tried_axis(b, 2));
        }
    }
    Split::Leaf
}

/// Whether the first axis that splits a window stays the same when the window's
/// triangles are replaced by the same ones in another order.
proof fn lemma_first_split_same(s: Seq<Triangle>, t: Seq<Triangle>, lo: int, hi: int, b: BoundingBox)
    requires
        same_contents(s, t, lo, hi),
    ensures
        first_split_axis(s, lo, hi, b) == first_split_axis(t, lo, hi, b),
{
    lemma_splits_rearranged(s, t, lo, hi, b, tried_axis(b, 0));
    lemma_splits_rearranged(s, t, lo, hi, b, tried_axis(b, 1));
    lemma_splits_rearranged(s, t, lo, hi, b, tried_axis(b, 2));
}

proof fn lemma_max_upper_same(s: Seq<Triangle>, t: Seq<Triangle>, lo: int, hi: int, a: int, v: i32)
    requires
        same_contents(s, t, lo, hi),
        is_max_upper(t, lo, hi, a, v),
    ensures
        is_max_upper(s, lo, hi, a, v),
{
    let p = |x: Triangle| tri_bounds(x).max.coord(a) <= v;
    assert forall|k: int| lo <= k < hi implies #[trigger] p(t[k]) by {
        assert(tri_bounds(t[k]).max.coord(a) <= v);
    }
    lemma_rearranged_all(s, t, lo, hi, p);
    assert forall|k: int| lo <= k < hi implies #[trigger] tri_bounds(s[k]).max.coord(a) <= v by {
        assert(p(s[k]));
    }
    let q = |x: Triangle| tri_bounds(x).max.coord(a) == v;
    let k0 = choose|k: int| lo <= k < hi && #[trigger] tri_bounds(t[k]).max.coord(a) == v;
    assert(q(t[k0]));
    lemma_rearranged_any(s, t, lo, hi, q);
    let k1 = choose|k: int| lo <= k < hi && #[trigger] q(s[k]);
    assert(tri_bounds(s[k1]).max.coord(a) == v);
}

proof fn lemma_min_lower_same(s: Seq<Triangle>, t: Seq<Triangle>, lo: int, hi: int, a: int, v: i32)
    requires
        same_contents(s, t, lo, hi),
        is_min_lower(t, lo, hi, a, v),
    ensures
        is_min_lower(s, lo, hi, a, v),
{
    let p = |x: Triangle| tri_bounds(x).min.coord(a) >= v;
    assert forall|k: int| lo <= k < hi implies #[trigger] p(t[k]) by {
        assert(tri_bounds(t[k]).min.coord(a) >= v);
    }
    lemma_rearranged_all(s, t, lo, hi, p);
    assert forall|k: int| lo <= k < hi implies #[trigger] tri_bounds(s[k]).min.coord(a) >= v by {
        assert(p(s[k]));
    }
    let q = |x: Triangle| tri_bounds(x).min.coord(a) == v;
    let k0 = choose|k: int| lo <= k < hi && #[trigger] tri_bounds(t[k]).min.coord(a) == v;
    assert(q(t[k0]));
    lemma_rearranged_any(s, t, lo, hi, q);
    let k1 = choose|k: int| lo <= k < hi && #[trigger] q(s[k]);
    assert(tri_bounds(s[k1]).min.coord(a) == v);
}

proof fn lemma_boxes_same(
    s: Seq<Triangle>,
    t: Seq<Triangle>,
    lo: int,
    mid: int,
    hi: int,
    b: BoundingBox,
    a: int,
    cl: i32,
    cr: i32,
    lb: BoundingBox,
    rb: BoundingBox,
)
    requires
        same_contents(s, t, lo, mid),
        same_contents(s, t, mid, hi),
        is_left_box(t, lo, mid, b, a, cl, lb),
        is_right_box(t, mid, hi, b, a, cr, rb),
    ensures
        is_left_box(s, lo, mid, b, a, cl, lb),
        is_right_box(s, mid, hi, b, a, cr, rb),
{
    let p = |x: Triangle|
        tri_bounds(x).max.coord(a) == cl && lb == BoundingBox {
            max: b.max.with_coord(a, tri_bounds(x).min.coord(a)),
            ..b
        };
    let k0 = choose|k: int|
        lo <= k < mid && #[trigger] tri_bounds(t[k]).max.coord(a) == cl && lb == BoundingBox {
            max: b.max.with_coord(a, tri_bounds(t[k]).min.coord(a)),
            ..b
        };
    assert(p(t[k0]));
    lemma_rearranged_any(s, t, lo, mid, p);
    let k1 = choose|k: int| lo <= k < mid && #[trigger] p(s[k]);
    assert(tri_bounds(s[k1]).max.coord(a) == cl);
    let q = |x: Triangle|
        tri_bounds(x).min.coord(a) == cr && rb == BoundingBox {
            min: b.min.with_coord(a, tri_bounds(x).max.coord(a)),
            ..b
        };
    let m0 = choose|k: int|
        mid <= k < hi && #[trigger] tri_bounds(t[k]).min.coord(a) == cr && rb == BoundingBox {
            min: b.min.with_coord(a, tri_bounds(t[k]).max.coord(a)),
            ..b
        };
    assert(q(t[m0]));
    lemma_rearranged_any(s, t, mid, hi, q);
    let m1 = choose|k: int| mid <= k < hi && #[trigger] q(s[k]);
    assert(tri_bounds(s[m1]).min.coord(a) == cr);
}

/// The facts of a split window only depend on which triangles each part holds.
proof fn lemma_branch_facts_same(
    s: Seq<Triangle>,
    t: Seq<Triangle>,
    lo: int,
    mid: int,
    hi: int,
    b: BoundingBox,
    a: int,
    cl: i32,
    cr: i32,
    lb: BoundingBox,
    rb: BoundingBox,
)
    requires
        same_contents(s, t, lo, mid),
        same_contents(s, t, mid, hi),
        same_contents(s, t, lo, hi),
        branch_facts(t, lo, mid, hi, b, a, cl, cr, lb, rb),
    ensures
        branch_facts(s, lo, mid, hi, b, a, cl, cr, lb, rb),
{
    reveal(branch_facts);
    lemma_first_split_same(s, t, lo, hi, b);
    lemma_splits_rearranged(s, t, lo, mid, b, a);
    lemma_splits_rearranged(s, t, mid, hi, b, a);
    lemma_max_upper_same(s, t, lo, mid, a, cl);
    lemma_min_lower_same(s, t, mid, hi, a, cr);
    lemma_boxes_same(s, t, lo, mid, hi, b, a, cl, cr, lb, rb);
}

/// Where a node of the hierarchy stands: the window `[lo, hi)` of the triangles
/// that it holds, the box that its parent gave it, and the block `[below_lo,
/// below_hi)` of positions that the nodes below it take up.
pub struct NodeSpan {
    pub lo: int,
    pub hi: int,
    pub bounds: BoundingBox,
    pub below_lo: int,
    pub below_hi: int,
}

/// What a node holds.
#[derive(Clone, Copy, Debug, PartialEq, Eq, Structural)]
pub enum BihNodeData {
    /// A split: the triangles of the left child lie at or below `clip_left` on the
    /// node's axis, those of the right child at or above `clip_right`.
    Branch { clip_left: i32, clip_right: i32, child_left: usize, child_right: usize },
    /// The `count` triangles from `triangle_index` on.
    Leaf { triangle_index: usize, count: usize },
}

/// A node of the hierarchy.
#[derive(Clone, Copy, Debug, PartialEq, Eq, Structural)]
pub struct BihNode {
    pub ty: BihNodeType,
    pub data: BihNodeData,
}

/// The node that the hierarchy starts from: an empty leaf.
pub open spec fn empty_leaf() -> BihNode {
    BihNode { ty: BihNodeType::Leaf, data: BihNodeData::Leaf { triangle_index: 0, count: 0 } }
}

impl Default for BihNode {
    fn default() -> (r: BihNode)
        ensures
            r == empty_leaf(),
    {
        BihNode { ty: BihNodeType::Leaf, data: BihNodeData::Leaf { triangle_index: 0, count: 0 } }
    }
}

/// Node `i` of `nodes` is laid out as `spans` says, over the triangles `tris`:
/// a leaf holds exactly the triangles of its window, which cannot be split, and has
/// nothing below it; a split has two later children whose windows are the two parts
/// of its own, split on the first axis that works, with clipping planes that bound
/// each part. The nodes below a split are numbered from its two children on: the
/// children first, side by side, then the nodes below the left child, then those
/// below the right one.
#[verifier::opaque]
pub open spec fn node_ok(nodes: Seq<BihNode>, spans: Map<int, NodeSpan>, tris: Seq<Triangle>, i: int) -> bool {
    let sp = spans[i];
    let node = nodes[i];
    &&& 0 <= i < nodes.len()
    &&& match node.data {
        BihNodeData::Leaf { triangle_index, count } => {
            &&& node.ty == BihNodeType::Leaf
            &&& triangle_index == sp.lo
            &&& count == sp.hi - sp.lo
            &&& first_split_axis(tris, sp.lo, sp.hi, sp.bounds) is None
            &&& sp.below_lo == sp.below_hi
        },
        BihNodeData::Branch { clip_left, clip_right, child_left, child_right } => {
            let l = spans[child_left as int];
            let r = spans[child_right as int];
            &&& i < child_left < nodes.len()
            &&& child_right == child_left + 1
            &&& child_right < nodes.len()
            &&& spans.dom().contains(child_left as int)
            &&& spans.dom().contains(child_right as int)
            &&& l.lo == sp.lo
            &&& l.hi == r.lo
            &&& r.hi == sp.hi
            &&& sp.lo < l.hi < sp.hi
            &&& sp.below_lo == child_left
            &&& l.below_lo == child_right + 1
            &&& l.below_hi == r.below_lo
            &&& r.below_hi == sp.below_hi
            &&& node.ty != BihNodeType::Leaf
            &&& branch_facts(
                tris,
                sp.lo,
                l.hi,
                sp.hi,
                sp.bounds,
                node.ty.code(),
                clip_left,
                clip_right,
                l.bounds,
                r.bounds,
            )
        },
    }
}

/// `node_ok` only looks at the node itself, at the spans of the node and of its
/// children, and at the triangles of the node's window.
proof fn lemma_node_ok_frame(
    n1: Seq<BihNode>,
    m1: Map<int, NodeSpan>,
    t1: Seq<Triangle>,
    n2: Seq<BihNode>,
    m2: Map<int, NodeSpan>,
    t2: Seq<Triangle>,
    i: int,
)
    requires
        node_ok(n1, m1, t1, i),
        m1.dom().contains(i),
        0 <= m1[i].lo <= m1[i].hi <= t1.len(),
        t1.len() == t2.len(),
        n1.len() <= n2.len(),
        n2[i] == n1[i],
        forall|k: int| #[trigger] m1.dom().contains(k) ==> m2.dom().contains(k) && m2[k] == m1[k],
        forall|k: int| m1[i].lo <= k < m1[i].hi ==> t1[k] == t2[k],
    ensures
        node_ok(n2, m2, t2, i),
{
    reveal(node_ok);
    let sp = m1[i];
    lemma_agree_same_contents(t2, t1, sp.lo, sp.hi);
    match n1[i].data {
        BihNodeData::Leaf { .. } => {
            lemma_first_split_same(t2, t1, sp.lo, sp.hi, sp.bounds);
        },
        BihNodeData::Branch { clip_left, clip_right, child_left, child_right } => {
            let l = m1[child_left as int];
            let r = m1[child_right as int];
            lemma_agree_same_contents(t2, t1, sp.lo, l.hi);
            lemma_agree_same_contents(t2, t1, l.hi, sp.hi);
            lemma_branch_facts_same(
                t2,
                t1,
                sp.lo,
                l.hi,
                sp.hi,
                sp.bounds,
                n1[i].ty.code(),
                clip_left,
                clip_right,
                l.bounds,
                r.bounds,
            );
        },
    }
}

/// The windows of any two different leaves among the nodes that `spans` places do
/// not overlap.
pub open spec fn leaves_apart(nodes: Seq<BihNode>, spans: Map<int, NodeSpan>) -> bool {
    forall|a: int, b: int|
        #[trigger] spans.dom().contains(a) && #[trigger] spans.dom().contains(b) && a != b && nodes[a].data is Leaf
            && nodes[b].data is Leaf ==> spans[a].hi <= spans[b].lo || spans[b].hi <= spans[a].lo
}

/// How many triangles a node holds: its count for a leaf, none for a split.
pub open spec fn leaf_count(node: BihNode) -> int {
    match node.data {
        BihNodeData::Leaf { count, .. } => count as int,
        BihNodeData::Branch { .. } => 0,
    }
}

/// How many triangles all the leaves among `nodes` hold together.
pub open spec fn leaf_total(nodes: Seq<BihNode>) -> int
    decreases nodes.len(),
{
    if nodes.len() == 0 {
        0
    } else {
        leaf_total(nodes.drop_last()) + leaf_count(nodes.last())
    }
}

proof fn lemma_leaf_total_push(s: Seq<BihNode>, x: BihNode)
    ensures
        leaf_total(s.push(x)) == leaf_total(s) + leaf_count(x),
{
    assert(s.push(x).drop_last() =~= s);
}

proof fn lemma_leaf_total_update(s: Seq<BihNode>, i: int, x: BihNode)
    requires
        0 <= i < s.len(),
    ensures
        leaf_total(s.update(i, x)) == leaf_total(s) - leaf_count(s[i]) + leaf_count(x),
    decreases s.len(),
{
    let u = s.update(i, x);
    if i == s.len() - 1 {
        assert(u.drop_last() =~= s.drop_last());
    } else {
        assert(u.drop_last() =~= s.drop_last().update(i, x));
        lemma_leaf_total_update(s.drop_last(), i, x);
    }
}

/// 1 for a leaf, 0 for a split.
pub open spec fn leaf_flag(node: BihNode) -> int {
    if node.data is Leaf {
        1
    } else {
        0
    }
}

/// How many of `nodes` are leaves.
pub open spec fn leaf_nodes(nodes: Seq<BihNode>) -> int
    decreases nodes.len(),
{
    if nodes.len() == 0 {
        0
    } else {
        leaf_nodes(nodes.drop_last()) + leaf_flag(nodes.last())
    }
}

proof fn lemma_leaf_nodes_push(s: Seq<BihNode>, x: BihNode)
    ensures
        leaf_nodes(s.push(x)) == leaf_nodes(s) + leaf_flag(x),
{
    assert(s.push(x).drop_last() =~= s);
}

proof fn lemma_leaf_nodes_update(s: Seq<BihNode>, i: int, x: BihNode)
    requires
        0 <= i < s.len(),
    ensures
        leaf_nodes(s.update(i, x)) == leaf_nodes(s) - leaf_flag(s[i]) + leaf_flag(x),
    decreases s.len(),
{
    let u = s.update(i, x);
    if i == s.len() - 1 {
        assert(u.drop_last() =~= s.drop_last());
    } else {
        assert(u.drop_last() =~= s.drop_last().update(i, x));
        lemma_leaf_nodes_update(s.drop_last(), i, x);
    }
}

/// When every leaf among `nodes` holds a triangle, there are no more leaves than
/// triangles held.
proof fn lemma_leaf_nodes_at_most_total(s: Seq<BihNode>)
    requires
        forall|k: int| 0 <= k < s.len() && (#[trigger] s[k]).data is Leaf ==> leaf_count(s[k]) >= 1,
    ensures
        leaf_nodes(s) <= leaf_total(s),
    decreases s.len(),
{
    if s.len() > 0 {
        let p = s.drop_last();
        assert forall|k: int| 0 <= k < p.len() && (#[trigger] p[k]).data is Leaf implies leaf_count(p[k]) >= 1 by {
            assert(s[k] == p[k]);
        }
        lemma_leaf_nodes_at_most_total(p);
        assert(s[s.len() - 1] == s.last());
    }
}

/// Node `c` is one of the two children of the split at node `p`.
pub open spec fn is_child_of(nodes: Seq<BihNode>, p: int, c: int) -> bool {
    &&& 0 <= p < nodes.len()
    &&& match nodes[p].data {
        BihNodeData::Branch { child_left, child_right, .. } => c == child_left || c == child_right,
        BihNodeData::Leaf { .. } => false,
    }
}

/// The children of the split at node `p` stand after it, side by side, among the nodes.
pub open spec fn children_after(nodes: Seq<BihNode>, p: int) -> bool {
    match nodes[p].data {
        BihNodeData::Branch { child_left, child_right, .. } => p < child_left && child_right == child_left
            + 1 && child_right < nodes.len(),
        BihNodeData::Leaf { .. } => true,
    }
}

/// Node `c` is the child of some split.
pub open spec fn has_parent(nodes: Seq<BihNode>, c: int) -> bool {
    exists|p: int| #[trigger] is_child_of(nodes, p, c)
}

/// The nodes form one binary tree rooted at node 0: each split has its two children
/// after it, node 0 is the child of no split, and every other node is the child of
/// exactly one split.
pub open spec fn tree_shaped(nodes: Seq<BihNode>) -> bool {
    &&& forall|p: int| 0 <= p < nodes.len() ==> #[trigger] children_after(nodes, p)
    &&& forall|p: int| !#[trigger] is_child_of(nodes, p, 0)
    &&& forall|c: int| 1 <= c < nodes.len() ==> #[trigger] has_parent(nodes, c)
    &&& forall|p1: int, p2: int, c: int|
        #[trigger] is_child_of(nodes, p1, c) && #[trigger] is_child_of(nodes, p2, c) ==> p1 == p2
}

/// Turning a leaf into a split over two new leaves appended after all the nodes keeps
/// the nodes a tree.
proof fn lemma_tree_grows(n0: Seq<BihNode>, current: int, node: BihNode)
    requires
        tree_shaped(n0),
        0 <= current < n0.len(),
        n0[current].data is Leaf,
        node.data matches BihNodeData::Branch { child_left, child_right, .. } && child_left == n0.len()
            && child_right == n0.len() + 1,
    ensures
        tree_shaped(n0.push(empty_leaf()).push(empty_leaf()).update(current, node)),
{
    let n2 = n0.push(empty_leaf()).push(empty_leaf()).update(current, node);
    let len0 = n0.len();
    assert forall|p: int| 0 <= p < n2.len() implies #[trigger] children_after(n2, p) by {
        if p < len0 && p != current {
            assert(children_after(n0, p));
        }
    }
    assert forall|p: int| !#[trigger] is_child_of(n2, p, 0) by {
        if 0 <= p < len0 && p != current {
            assert(children_after(n0, p));
        }
    }
    assert forall|c: int| 1 <= c < n2.len() implies #[trigger] has_parent(n2, c) by {
        if c < len0 {
            assert(has_parent(n0, c));
            let p = choose|p: int| #[trigger] is_child_of(n0, p, c);
            assert(p != current);
            assert(is_child_of(n2, p, c));
        } else {
            assert(is_child_of(n2, current, c));
        }
    }
    assert forall|p1: int, p2: int, c: int|
        #[trigger] is_child_of(n2, p1, c) && #[trigger] is_child_of(n2, p2, c) implies p1 == p2 by {
        if p1 != current {
            assert(children_after(n0, p1));
            assert(is_child_of(n0, p1, c));
        }
        if p2 != current {
            assert(children_after(n0, p2));
            assert(is_child_of(n0, p2, c));
        }
    }
}

/// Replacing a leaf by another leaf keeps the nodes a tree.
proof fn lemma_tree_leaf_update(n0: Seq<BihNode>, current: int, node: BihNode)
    requires
        tree_shaped(n0),
        0 <= current < n0.len(),
        n0[current].data is Leaf,
        node.data is Leaf,
    ensures
        tree_shaped(n0.update(current, node)),
{
    let n1 = n0.update(current, node);
    assert forall|p: int| 0 <= p < n1.len() implies #[trigger] children_after(n1, p) by {
        assert(children_after(n0, p));
    }
    assert forall|p: int, c: int| #[trigger] is_child_of(n1, p, c) == is_child_of(n0, p, c) by {
    }
    assert forall|c: int| 1 <= c < n1.len() implies #[trigger] has_parent(n1, c) by {
        assert(has_parent(n0, c));
        let p = choose|p: int| #[trigger] is_child_of(n0, p, c);
        assert(is_child_of(n1, p, c));
    }
}

/// The triangles after a split and the two recursive builds are a rearrangement
/// of those before, and each part holds the same triangles as right after the split.
proof fn lemma_split_triangles(
    t0: Seq<Triangle>,
    ts: Seq<Triangle>,
    tl: Seq<Triangle>,
    tf: Seq<Triangle>,
    lo: int,
    mid: int,
    hi: int,
)
    requires
        lo < mid < hi,
        rearranged(ts, t0, lo, hi),
        rearranged(tl, ts, lo, mid),
        rearranged(tf, tl, mid, hi),
    ensures
        rearranged(tf, t0, lo, hi),
        same_contents(tf, ts, lo, mid),
        same_contents(tf, ts, mid, hi),
        same_contents(tf, ts, lo, hi),
{
    crate::seqs::lemma_rearranged_widen(tl, ts, lo, mid, lo, hi);
    crate::seqs::lemma_rearranged_widen(tf, tl, mid, hi, lo, hi);
    lemma_rearranged_trans(tf, tl, ts, lo, hi);
    lemma_rearranged_trans(tf, ts, t0, lo, hi);
    // [lo, mid): moved by the left build only
    lemma_agree_same_contents(tf, tl, lo, mid);
    crate::seqs::lemma_same_contents_trans(tf, tl, ts, lo, mid);
    // [mid, hi): moved by the right build only
    lemma_agree_same_contents(tl, ts, mid, hi);
    crate::seqs::lemma_same_contents_trans(tf, tl, ts, mid, hi);
}

/// The node that was split is laid out as it should be once both parts are built.
proof fn lemma_split_node_ok(
    ts: Seq<Triangle>,
    tl: Seq<Triangle>,
    tf: Seq<Triangle>,
    nf: Seq<BihNode>,
    spans: Map<int, NodeSpan>,
    current: int,
    lo: int,
    mid: int,
    hi: int,
    left_box: BoundingBox,
    right_box: BoundingBox,
)
    requires
        lo < mid < hi,
        0 <= current < nf.len(),
        spans.dom().contains(current),
        spans[current].lo == lo,
        spans[current].hi == hi,
        nf[current].ty != BihNodeType::Leaf,
        nf[current].data matches BihNodeData::Branch { clip_left, clip_right, child_left, child_right } && {
            &&& current < child_left < nf.len()
            &&& child_right == child_left + 1
            &&& child_right < nf.len()
            &&& spans.dom().contains(child_left as int)
            &&& spans.dom().contains(child_right as int)
            &&& spans[child_left as int].lo == lo
            &&& spans[child_left as int].hi == mid
            &&& spans[child_left as int].bounds == left_box
            &&& spans[child_right as int].lo == mid
            &&& spans[child_right as int].hi == hi
            &&& spans[child_right as int].bounds == right_box
            &&& spans[current].below_lo == child_left
            &&& spans[child_left as int].below_lo == child_right + 1
            &&& spans[child_left as int].below_hi == spans[child_right as int].below_lo
            &&& spans[child_right as int].below_hi == spans[current].below_hi
            &&& branch_facts(
                ts,
                lo,
                mid,
                hi,
                spans[current].bounds,
                nf[current].ty.code(),
                clip_left,
                clip_right,
                left_box,
                right_box,
            )
        },
        same_contents(tf, ts, lo, mid),
        same_contents(tf, ts, mid, hi),
        same_contents(tf, ts, lo, hi),
    ensures
        node_ok(nf, spans, tf, current),
{
    reveal(node_ok);
    if let BihNodeData::Branch { clip_left, clip_right, child_left, child_right } = nf[current].data {
        lemma_branch_facts_same(
            tf,
            ts,
            lo,
            mid,
            hi,
            spans[current].bounds,
            nf[current].ty.code(),
            clip_left,
            clip_right,
            left_box,
            right_box,
        );
    }
}

/// Every node of the part built below `current` is laid out as it should be, given
/// that the two halves were, and that each half left alone what the other built.
proof fn lemma_assemble_spans(
    n0: Seq<BihNode>,
    nl: Seq<BihNode>,
    nf: Seq<BihNode>,
    tl: Seq<Triangle>,
    tf: Seq<Triangle>,
    sl: Map<int, NodeSpan>,
    sr: Map<int, NodeSpan>,
    spans: Map<int, NodeSpan>,
    current: int,
    lo: int,
    mid: int,
    hi: int,
)
    requires
        0 <= current < n0.len(),
        n0.len() + 2 <= nl.len() <= nf.len(),
        tl.len() == tf.len(),
        spans == sl.union_prefer_right(sr).insert(current, spans[current]),
        spans[current].lo == lo,
        spans[current].hi == hi,
        0 <= lo <= mid <= hi,
        node_ok(nf, spans, tf, current),
        sl.dom() == Set::new(|k: int| k == n0.len() || n0.len() + 2 <= k < nl.len()),
        sr.dom() == Set::new(|k: int| k == n0.len() + 1 || nl.len() <= k < nf.len()),
        forall|k: int| #[trigger] sl.dom().contains(k) ==> lo <= sl[k].lo <= sl[k].hi <= mid,
        forall|k: int| #[trigger] sr.dom().contains(k) ==> mid <= sr[k].lo <= sr[k].hi <= hi,
        forall|k: int| #[trigger] sl.dom().contains(k) ==> node_ok(nl, sl, tl, k),
        forall|k: int| #[trigger] sr.dom().contains(k) ==> node_ok(nf, sr, tf, k),
        forall|k: int| 0 <= k < nl.len() && k != n0.len() + 1 ==> #[trigger] nf[k] == nl[k],
        forall|k: int| 0 <= k < tl.len() && !(mid <= k < hi) ==> #[trigger] tf[k] == tl[k],
        mid <= hi <= tl.len(),
        nf[current].data is Branch,
        leaves_apart(nl, sl),
        leaves_apart(nf, sr),
    ensures
        leaves_apart(nf, spans),
        spans.dom() == Set::new(|k: int| k == current || n0.len() <= k < nf.len()),
        forall|k: int| #[trigger] spans.dom().contains(k) ==> lo <= spans[k].lo <= spans[k].hi <= hi,
        forall|k: int| #[trigger] spans.dom().contains(k) ==> node_ok(nf, spans, tf, k),
{
    assert(spans.dom() =~= Set::new(|k: int| k == current || n0.len() <= k < nf.len()));
    assert forall|a: int, b: int|
        #[trigger] spans.dom().contains(a) && #[trigger] spans.dom().contains(b) && a != b && nf[a].data is Leaf
            && nf[b].data is Leaf implies spans[a].hi <= spans[b].lo || spans[b].hi <= spans[a].lo by {
        if sl.dom().contains(a) && sl.dom().contains(b) {
            assert(nl[a] == nf[a] && nl[b] == nf[b]);
            assert(sl.dom().contains(a) && sl.dom().contains(b));
        } else if sr.dom().contains(a) && sr.dom().contains(b) {
        } else if sl.dom().contains(a) {
            assert(sr.dom().contains(b));
        } else {
            assert(sr.dom().contains(a) && sl.dom().contains(b));
        }
    }
    assert forall|k: int| #[trigger] spans.dom().contains(k) implies node_ok(nf, spans, tf, k) by {
        if k == current {
        } else if sr.dom().contains(k) {
            assert forall|j: int| #[trigger] sr.dom().contains(j) implies spans.dom().contains(j) && spans[j] == sr[j] by {
            }
            lemma_node_ok_frame(nf, sr, tf, nf, spans, tf, k);
        } else {
            assert(sl.dom().contains(k));
            assert forall|j: int| #[trigger] sl.dom().contains(j) implies spans.dom().contains(j) && spans[j] == sl[j] by {
            }
            assert forall|j: int| sl[k].lo <= j < sl[k].hi implies tl[j] == tf[j] by {
            }
            lemma_node_ok_frame(nl, sl, tl, nf, spans, tf, k);
        }
    }
}

/// The position, in `[lo, mid)` of `t`, of the last triangle whose upper bound on
/// axis `a` is the largest there.
pub open spec fn left_pick(t: Seq<Triangle>, lo: int, mid: int, a: int) -> int {
    choose|k: int| last_max_upper_at(t, lo, mid, a, k)
}

/// The position, in `[mid, hi)` of `t`, of the first triangle whose lower bound on
/// axis `a` is the smallest there.
pub open spec fn right_pick(t: Seq<Triangle>, mid: int, hi: int, a: int) -> int {
    choose|k: int| first_min_lower_at(t, mid, hi, a, k)
}

/// The leaf over the window `[lo, hi)`.
pub open spec fn leaf_over(lo: int, hi: int) -> BihNode {
    BihNode { ty: BihNodeType::Leaf, data: BihNodeData::Leaf { triangle_index: lo as usize, count: (hi - lo) as usize } }
}

/// The split on axis `a` with clipping planes `cl` and `cr` whose children are nodes
/// `n` and `n + 1`.
pub open spec fn split_over(a: int, cl: i32, cr: i32, n: int) -> BihNode {
    BihNode {
        ty: BihNodeType::from_code(a)->0,
        data: BihNodeData::Branch { clip_left: cl, clip_right: cr, child_left: n as usize, child_right: (n + 1) as usize },
    }
}

/// What building the part of the hierarchy below node `current` over the window
/// `[lo, hi)` of `s`, whose box is `b`, makes of the triangles and of the nodes
/// `nodes`. An empty window changes nothing. A window that no axis splits turns the
/// node into a leaf over it. Else, on the first axis that splits it, the window is
/// partitioned as `partition_run` says; the node becomes a split whose left
/// clipping plane and left box come from the last triangle of the left part with
/// the largest upper bound on that axis, and whose right ones come from the first
/// triangle of the right part with the smallest lower bound; two leaves are
/// appended as its children; and the left part is built below the left child,
/// then the right part below the right one.
pub open spec fn build(
    s: Seq<Triangle>,
    nodes: Seq<BihNode>,
    lo: int,
    hi: int,
    b: BoundingBox,
    current: int,
) -> (Seq<Triangle>, Seq<BihNode>)
    decreases hi - lo,
{
    if lo >= hi {
        (s, nodes)
    } else {
        match first_split_axis(s, lo, hi, b) {
            None => (s, nodes.update(current, leaf_over(lo, hi))),
            Some(a) => {
                let (t, m) = partition_run(s, lo, hi, b, a);
                if lo < m < hi {
                    let kl = left_pick(t, lo, m, a);
                    let kr = right_pick(t, m, hi, a);
                    let lb = BoundingBox { max: b.max.with_coord(a, tri_bounds(t[kl]).min.coord(a)), ..b };
                    let rb = BoundingBox { min: b.min.with_coord(a, tri_bounds(t[kr]).max.coord(a)), ..b };
                    let n = nodes.len() as int;
                    let grown = nodes.push(empty_leaf()).push(empty_leaf()).update(
                        current,
                        split_over(a, tri_bounds(t[kl]).max.coord(a), tri_bounds(t[kr]).min.coord(a), n),
                    );
                    let (tl, nl) = build(t, grown, lo, m, lb, n);
                    build(tl, nl, m, hi, rb, n + 1)
                } else {
                    (t, nodes)
                }
            },
        }
    }
}

/// Builds the part of the hierarchy below node `current` over the triangles
/// `tris[lo..hi]`, whose box is `bounds`: splits the window, and either turns the
/// node into a leaf over it, or into a split whose two children are appended to
/// `out_nodes` and built in turn over the two parts. An empty window leaves
/// everything as it is.
///
/// Returns where each node of that part stands: `current` and every node added.
fn make_hierarchy(
    tris: &mut Vec<Triangle>,
    lo: usize,
    hi: usize,
    bounds: BoundingBox,
    current: usize,
    out_nodes: &mut Vec<BihNode>,
) -> (spans: Ghost<Map<int, NodeSpan>>)
    requires
        lo <= hi <= old(tris).len(),
        current < old(out_nodes).len(),
        old(out_nodes)@[current as int] == empty_leaf(),
        tree_shaped(old(out_nodes)@),
    ensures
        rearranged(final(tris)@, old(tris)@, lo as int, hi as int),
        final(out_nodes).len() >= old(out_nodes).len(),
        forall|k: int|
            0 <= k < old(out_nodes).len() && k != current ==> #[trigger] final(out_nodes)@[k]
                == old(out_nodes)@[k],
        leaf_total(final(out_nodes)@) == leaf_total(old(out_nodes)@) + (hi - lo),
        final(out_nodes).len() - old(out_nodes).len() == 2 * (leaf_nodes(final(out_nodes)@) - leaf_nodes(
            old(out_nodes)@,
        )),
        tree_shaped(final(out_nodes)@),
        (final(tris)@, final(out_nodes)@) == build(old(tris)@, old(out_nodes)@, lo as int, hi as int, bounds, current as int),
        lo == hi ==> final(out_nodes)@ == old(out_nodes)@ && final(tris)@ == old(tris)@,
        lo < hi ==> spans@.dom() == Set::new(
            |k: int| k == current || old(out_nodes).len() <= k < final(out_nodes).len(),
        ),
        lo < hi ==> spans@[current as int] == (NodeSpan {
            lo: lo as int,
            hi: hi as int,
            bounds,
            below_lo: old(out_nodes).len() as int,
            below_hi: final(out_nodes).len() as int,
        }),
        lo < hi ==> forall|k: int|
            #[trigger] spans@.dom().contains(k) ==> lo <= spans@[k].lo < spans@[k].hi <= hi,
        lo < hi ==> forall|k: int| #[trigger]
            spans@.dom().contains(k) ==> node_ok(final(out_nodes)@, spans@, final(tris)@, k),
        lo < hi ==> leaves_apart(final(out_nodes)@, spans@),
    decreases hi - lo,
{
    let ghost t0 = tris@;
    let ghost n0 = out_nodes@;
    if lo == hi {
        proof {
            crate::seqs::lemma_rearranged_refl(t0, lo as int, hi as int);
        }
        return Ghost(Map::<int, NodeSpan>::empty());
    }
    match split(tris, lo, hi, &bounds) {
        Split::Axis { ty, middle, left_box, right_box, clip_left, clip_right } => {
            let ghost ts = tris@;
            let mid = lo + middle;
            out_nodes.push(BihNode::default());
            out_nodes.push(BihNode::default());
            let child_left = out_nodes.len() - 2;
            let child_right = out_nodes.len() - 1;
            let ghost n1 = out_nodes@;
            out_nodes.set(
                current,
                BihNode {
                    ty,
                    data: BihNodeData::Branch { clip_left, clip_right, child_left, child_right },
                },
            );
            let ghost n2 = out_nodes@;
            proof {
                lemma_leaf_total_push(n0, empty_leaf());
                lemma_leaf_total_push(n0.push(empty_leaf()), empty_leaf());
                lemma_leaf_nodes_push(n0, empty_leaf());
                lemma_leaf_nodes_push(n0.push(empty_leaf()), empty_leaf());
                assert(n1 == n0.push(empty_leaf()).push(empty_leaf()));
                lemma_leaf_total_update(n1, current as int, n2[current as int]);
                lemma_leaf_nodes_update(n1, current as int, n2[current as int]);
                assert(n2 == n1.update(current as int, n2[current as int]));
                lemma_tree_grows(n0, current as int, n2[current as int]);
            }
            let sl = make_hierarchy(tris, lo, mid, left_box, child_left, out_nodes);
            let ghost tl = tris@;
            let ghost nl = out_nodes@;
            let sr = make_hierarchy(tris, mid, hi, right_box, child_right, out_nodes);
            let ghost tf = tris@;
            let ghost nf = out_nodes@;
            let ghost here = NodeSpan {
                lo: lo as int,
                hi: hi as int,
                bounds,
                below_lo: n0.len() as int,
                below_hi: nf.len() as int,
            };
            let ghost spans = sl@.union_prefer_right(sr@).insert(current as int, here);
            proof {
                lemma_split_triangles(t0, ts, tl, tf, lo as int, mid as int, hi as int);
                lemma_split_node_ok(
                    ts,
                    tl,
                    tf,
                    nf,
                    spans,
                    current as int,
                    lo as int,
                    mid as int,
                    hi as int,
                    left_box,
                    right_box,
                );
                lemma_assemble_spans(n0, nl, nf, tl, tf, sl@, sr@, spans, current as int, lo as int, mid as int, hi as int);
                assert forall|k: int| #[trigger] spans.dom().contains(k) implies spans[k].lo < spans[k].hi by {
                    if k != current && sr@.dom().contains(k) {
                        assert(sr@[k].lo < sr@[k].hi);
                    } else if k != current {
                        assert(sl@.dom().contains(k));
                        assert(sl@[k].lo < sl@[k].hi);
                    }
                }
            }
            Ghost(spans)
        },
        Split::Leaf => {
            out_nodes.set(
                current,
                BihNode {
                    ty: BihNodeType::Leaf,
                    data: BihNodeData::Leaf { triangle_index: lo, count: hi - lo },
                },
            );
            proof {
                lemma_leaf_total_update(n0, current as int, out_nodes@[current as int]);
                lemma_leaf_nodes_update(n0, current as int, out_nodes@[current as int]);
                assert(out_nodes@ == n0.update(current as int, out_nodes@[current as int]));
                lemma_tree_leaf_update(n0, current as int, out_nodes@[current as int]);
            }
            let ghost here = NodeSpan {
                lo: lo as int,
                hi: hi as int,
                bounds,
                below_lo: n0.len() as int,
                below_hi: n0.len() as int,
            };
            let ghost spans = Map::<int, NodeSpan>::empty().insert(current as int, here);
            proof {
                reveal(node_ok);
                assert(spans.dom() =~= Set::new(
                    |k: int| k == current || n0.len() <= k < out_nodes@.len(),
                ));
            }
            Ghost(spans)
        },
    }
}

/// `b` is the tightest box around the triangles of the window: on each axis its
/// lower bound is the smallest lower bound of a triangle there, and its upper
/// bound the largest upper bound.
pub open spec fn tight_box(s: Seq<Triangle>, lo: int, hi: int, b: BoundingBox) -> bool {
    &&& is_min_lower(s, lo, hi, 0, b.min.x)
    &&& is_min_lower(s, lo, hi, 1, b.min.y)
    &&& is_min_lower(s, lo, hi, 2, b.min.z)
    &&& is_max_upper(s, lo, hi, 0, b.max.x)
    &&& is_max_upper(s, lo, hi, 1, b.max.y)
    &&& is_max_upper(s, lo, hi, 2, b.max.z)
}

/// The box that `calculate_bounds` starts from: empty, with every lower bound at
/// the largest coordinate and every upper bound at the smallest.
pub open spec fn inverted_box() -> BoundingBox {
    BoundingBox {
        min: Point3 { x: i32::MAX, y: i32::MAX, z: i32::MAX },
        max: Point3 { x: i32::MIN, y: i32::MIN, z: i32::MIN },
    }
}

proof fn lemma_min_lower_step(s: Seq<Triangle>, k: int, a: int, v: i32, nv: i32)
    requires
        0 <= k < s.len(),
        k == 0 ==> v == i32::MAX,
        k > 0 ==> is_min_lower(s, 0, k, a, v),
        nv == crate::mesh::min_i32(v, tri_bounds(s[k]).min.coord(a)),
    ensures
        is_min_lower(s, 0, k + 1, a, nv),
{
    if nv == tri_bounds(s[k]).min.coord(a) {
        assert(tri_bounds(s[k]).min.coord(a) == nv);
    } else {
        let j = choose|j: int| 0 <= j < k && #[trigger] tri_bounds(s[j]).min.coord(a) == v;
        assert(tri_bounds(s[j]).min.coord(a) == nv);
    }
}

proof fn lemma_max_upper_step(s: Seq<Triangle>, k: int, a: int, v: i32, nv: i32)
    requires
        0 <= k < s.len(),
        k == 0 ==> v == i32::MIN,
        k > 0 ==> is_max_upper(s, 0, k, a, v),
        nv == crate::mesh::max_i32(v, tri_bounds(s[k]).max.coord(a)),
    ensures
        is_max_upper(s, 0, k + 1, a, nv),
{
    if nv == tri_bounds(s[k]).max.coord(a) {
        assert(tri_bounds(s[k]).max.coord(a) == nv);
    } else {
        let j = choose|j: int| 0 <= j < k && #[trigger] tri_bounds(s[j]).max.coord(a) == v;
        assert(tri_bounds(s[j]).max.coord(a) == nv);
    }
}

/// The tightest box around all of `triangles` (the inverted box when there is none).
fn calculate_bounds(triangles: &Vec<Triangle>) -> (b: BoundingBox)
    ensures
        triangles.len() == 0 ==> b == inverted_box(),
        triangles.len() > 0 ==> tight_box(triangles@, 0, triangles.len() as int, b),
{
    let mut acc = BoundingBox {
        min: Point3 { x: i32::MAX, y: i32::MAX, z: i32::MAX },
        max: Point3 { x: i32::MIN, y: i32::MIN, z: i32::MIN },
    };
    let mut k: usize = 0;
    while k < triangles.len()
        invariant
            k <= triangles.len(),
            k == 0 ==> acc == inverted_box(),
            k > 0 ==> tight_box(triangles@, 0, k as int, acc),
        decreases triangles.len() - k,
    {
        let t = triangles[k].bounds();
        let next = BoundingBox {
            min: Point3 {
                x: crate::mesh::min_of(acc.min.x, t.min.x),
                y: crate::mesh::min_of(acc.min.y, t.min.y),
                z: crate::mesh::min_of(acc.min.z, t.min.z),
            },
            max: Point3 {
                x: crate::mesh::max_of(acc.max.x, t.max.x),
                y: crate::mesh::max_of(acc.max.y, t.max.y),
                z: crate::mesh::max_of(acc.max.z, t.max.z),
            },
        };
        proof {
            let s = triangles@;
            lemma_min_lower_step(s, k as int, 0, acc.min.x, next.min.x);
            lemma_min_lower_step(s, k as int, 1, acc.min.y, next.min.y);
            lemma_min_lower_step(s, k as int, 2, acc.min.z, next.min.z);
            lemma_max_upper_step(s, k as int, 0, acc.max.x, next.max.x);
            lemma_max_upper_step(s, k as int, 1, acc.max.y, next.max.y);
            lemma_max_upper_step(s, k as int, 2, acc.max.z, next.max.z);
        }
        acc = next;
        k = k + 1;
    }
    acc
}

/// `nodes` is laid out over `tris` as `spans` says: node 0 is the root, over all
/// the triangles and with their tightest box, with all the other nodes below it,
/// and every node is laid out as `node_ok` says.
pub open spec fn bih_layout(nodes: Seq<BihNode>, tris: Seq<Triangle>, spans: Map<int, NodeSpan>) -> bool {
    &&& nodes.len() >= 1
    &&& spans.dom() == Set::new(|k: int| 0 <= k < nodes.len())
    &&& spans[0].lo == 0
    &&& spans[0].hi == tris.len()
    &&& spans[0].below_lo == 1
    &&& spans[0].below_hi == nodes.len()
    &&& tris.len() > 0 ==> tight_box(tris, 0, tris.len() as int, spans[0].bounds)
    &&& forall|k: int| #[trigger] spans.dom().contains(k) ==> 0 <= spans[k].lo <= spans[k].hi <= tris.len()
    &&& forall|k: int| #[trigger] spans.dom().contains(k) ==> node_ok(nodes, spans, tris, k)
    &&& leaves_apart(nodes, spans)
}

/// `nodes` is a bounding interval hierarchy over `tris`.
pub open spec fn is_bih_of(nodes: Seq<BihNode>, tris: Seq<Triangle>) -> bool {
    exists|spans: Map<int, NodeSpan>| bih_layout(nodes, tris, spans)
}

/// `node` is a leaf whose triangles include the one at position `k`.
pub open spec fn leaf_holds(node: BihNode, k: int) -> bool {
    match node.data {
        BihNodeData::Leaf { triangle_index, count } => triangle_index <= k < triangle_index + count,
        BihNodeData::Branch { .. } => false,
    }
}

/// Going down from node `i`, whose window holds `k`, always ends at a leaf that
/// holds `k`.
proof fn lemma_descend_to_leaf(nodes: Seq<BihNode>, tris: Seq<Triangle>, spans: Map<int, NodeSpan>, i: int, k: int)
    requires
        bih_layout(nodes, tris, spans),
        0 <= i < nodes.len(),
        spans[i].lo <= k < spans[i].hi,
    ensures
        exists|j: int| 0 <= j < nodes.len() && #[trigger] leaf_holds(nodes[j], k),
    decreases nodes.len() - i,
{
    assert(spans.dom().contains(i));
    assert(node_ok(nodes, spans, tris, i));
    reveal(node_ok);
    match nodes[i].data {
        BihNodeData::Leaf { triangle_index, count } => {
            assert(leaf_holds(nodes[i], k));
        },
        BihNodeData::Branch { child_left, child_right, .. } => {
            if k < spans[child_left as int].hi {
                lemma_descend_to_leaf(nodes, tris, spans, child_left as int, k);
            } else {
                lemma_descend_to_leaf(nodes, tris, spans, child_right as int, k);
            }
        },
    }
}

/// Every triangle of a hierarchy's triangle list is held by one of its leaves.
pub proof fn lemma_triangle_in_leaf(nodes: Seq<BihNode>, tris: Seq<Triangle>, k: int)
    requires
        is_bih_of(nodes, tris),
        0 <= k < tris.len(),
    ensures
        exists|j: int| 0 <= j < nodes.len() && #[trigger] leaf_holds(nodes[j], k),
{
    let spans = choose|spans: Map<int, NodeSpan>| bih_layout(nodes, tris, spans);
    lemma_descend_to_leaf(nodes, tris, spans, 0, k);
}

/// In a hierarchy laid out over `tris`, every corner of every triangle below the
/// left child of a split lies at or below the split's left clipping plane on the
/// split's axis, and every corner of every triangle below its right child at or
/// above its right clipping plane.
pub proof fn lemma_clip_planes_bound_corners(
    nodes: Seq<BihNode>,
    tris: Seq<Triangle>,
    spans: Map<int, NodeSpan>,
    p: int,
    k: int,
    i: int,
)
    requires
        bih_layout(nodes, tris, spans),
        0 <= p < nodes.len(),
        0 <= i < 3,
    ensures
        nodes[p].data matches BihNodeData::Branch { clip_left, clip_right, child_left, child_right } ==> {
            &&& spans[child_left as int].lo <= k < spans[child_left as int].hi ==> tris[k].positions[i].coord(
                nodes[p].ty.code(),
            ) <= clip_left
            &&& spans[child_right as int].lo <= k < spans[child_right as int].hi ==> tris[k].positions[i].coord(
                nodes[p].ty.code(),
            ) >= clip_right
        },
{
    assert(spans.dom().contains(p));
    assert(node_ok(nodes, spans, tris, p));
    reveal(node_ok);
    reveal(branch_facts);
    if let BihNodeData::Branch { clip_left, clip_right, child_left, child_right } = nodes[p].data {
        let a = nodes[p].ty.code();
        assert(0 <= a < 3);
        crate::mesh::lemma_bounds_hold_corners(tris[k]);
        if spans[child_left as int].lo <= k < spans[child_left as int].hi {
            assert(tri_bounds(tris[k]).max.coord(a) <= clip_left);
        }
        if spans[child_right as int].lo <= k < spans[child_right as int].hi {
            assert(tri_bounds(tris[k]).min.coord(a) >= clip_right);
        }
    }
}

/// No triangle of a hierarchy's triangle list is held by two different leaves.
pub proof fn lemma_triangle_in_one_leaf(nodes: Seq<BihNode>, tris: Seq<Triangle>, k: int, j1: int, j2: int)
    requires
        is_bih_of(nodes, tris),
        0 <= j1 < nodes.len(),
        0 <= j2 < nodes.len(),
        leaf_holds(nodes[j1], k),
        leaf_holds(nodes[j2], k),
    ensures
        j1 == j2,
{
    let spans = choose|spans: Map<int, NodeSpan>| bih_layout(nodes, tris, spans);
    assert(spans.dom().contains(j1));
    assert(spans.dom().contains(j2));
    assert(node_ok(nodes, spans, tris, j1));
    assert(node_ok(nodes, spans, tris, j2));
    reveal(node_ok);
    if j1 != j2 {
        assert(nodes[j1].data is Leaf && nodes[j2].data is Leaf);
        assert(spans[j1].hi <= spans[j2].lo || spans[j2].hi <= spans[j1].lo);
    }
}

/// The tightest box around all the triangles of `s`.
pub open spec fn tightest_box(s: Seq<Triangle>) -> BoundingBox {
    choose|b: BoundingBox| tight_box(s, 0, s.len() as int, b)
}

proof fn lemma_tight_box_unique(s: Seq<Triangle>, b: BoundingBox)
    requires
        tight_box(s, 0, s.len() as int, b),
    ensures
        tightest_box(s) == b,
{
    let c = tightest_box(s);
    assert(tight_box(s, 0, s.len() as int, c));
    lemma_min_lower_unique(s, 0, s.len() as int, 0, b.min.x, c.min.x);
    lemma_min_lower_unique(s, 0, s.len() as int, 1, b.min.y, c.min.y);
    lemma_min_lower_unique(s, 0, s.len() as int, 2, b.min.z, c.min.z);
    lemma_max_upper_unique(s, 0, s.len() as int, 0, b.max.x, c.max.x);
    lemma_max_upper_unique(s, 0, s.len() as int, 1, b.max.y, c.max.y);
    lemma_max_upper_unique(s, 0, s.len() as int, 2, b.max.z, c.max.z);
}

proof fn lemma_min_lower_unique(s: Seq<Triangle>, lo: int, hi: int, a: int, v: i32, w: i32)
    requires
        is_min_lower(s, lo, hi, a, v),
        is_min_lower(s, lo, hi, a, w),
    ensures
        v == w,
{
    let kv = choose|k: int| lo <= k < hi && #[trigger] tri_bounds(s[k]).min.coord(a) == v;
    let kw = choose|k: int| lo <= k < hi && #[trigger] tri_bounds(s[k]).min.coord(a) == w;
    assert(tri_bounds(s[kv]).min.coord(a) >= w);
    assert(tri_bounds(s[kw]).min.coord(a) >= v);
}

proof fn lemma_max_upper_unique(s: Seq<Triangle>, lo: int, hi: int, a: int, v: i32, w: i32)
    requires
        is_max_upper(s, lo, hi, a, v),
        is_max_upper(s, lo, hi, a, w),
    ensures
        v == w,
{
    let kv = choose|k: int| lo <= k < hi && #[trigger] tri_bounds(s[k]).max.coord(a) == v;
    let kw = choose|k: int| lo <= k < hi && #[trigger] tri_bounds(s[k]).max.coord(a) == w;
    assert(tri_bounds(s[kv]).max.coord(a) <= w);
    assert(tri_bounds(s[kw]).max.coord(a) <= v);
}

/// What `Bih::new` makes of the triangles `s`: the triangles in their new order and
/// the nodes. With no triangle, one empty leaf; else the hierarchy built from an
/// empty leaf at node 0 over all the triangles, with their tightest box.
pub open spec fn bih_build(s: Seq<Triangle>) -> (Seq<Triangle>, Seq<BihNode>) {
    if s.len() == 0 {
        (s, seq![empty_leaf()])
    } else {
        build(s, seq![empty_leaf()], 0, s.len() as int, tightest_box(s), 0)
    }
}

/// A bounding interval hierarchy: its nodes, the root first.
#[derive(Clone, Debug)]
pub struct Bih(pub Vec<BihNode>);

impl Bih {
    /// Builds the hierarchy over `triangles`, reordering them so that each leaf
    /// holds a run of consecutive triangles. The new order of the triangles and the
    /// nodes are exactly those that `bih_build` gives.
    pub fn new(triangles: &mut Vec<Triangle>) -> (bih: Bih)
        ensures
            (final(triangles)@, bih.0@) == bih_build(old(triangles)@),
            rearranged(final(triangles)@, old(triangles)@, 0, old(triangles).len() as int),
            leaf_total(bih.0@) == old(triangles).len(),
            is_bih_of(bih.0@, final(triangles)@),
            tree_shaped(bih.0@),
            bih.0.len() == 2 * leaf_nodes(bih.0@) - 1,
            old(triangles).len() == 0 ==> bih.0@ == seq![empty_leaf()],
            old(triangles).len() > 0 ==> forall|k: int|
                0 <= k < bih.0.len() && (#[trigger] bih.0@[k]).data is Leaf ==> leaf_count(bih.0@[k]) >= 1,
            old(triangles).len() > 0 ==> bih.0.len() <= 2 * old(triangles).len() - 1,
    {
        let ghost t0 = triangles@;
        let mut nodes: Vec<BihNode> = Vec::new();
        nodes.push(BihNode::default());
        proof {
            lemma_leaf_total_push(Seq::<BihNode>::empty(), empty_leaf());
            lemma_leaf_nodes_push(Seq::<BihNode>::empty(), empty_leaf());
            assert(Seq::<BihNode>::empty().push(empty_leaf()) == nodes@);
            assert(leaf_total(Seq::<BihNode>::empty()) == 0);
            assert(leaf_nodes(Seq::<BihNode>::empty()) == 0);
        }
        if triangles.len() > 0 {
            let bounds = calculate_bounds(triangles);
            let n = triangles.len();
            proof {
                lemma_tight_box_unique(t0, bounds);
                assert(nodes@ == seq![empty_leaf()]);
            }
            let spans = make_hierarchy(triangles, 0, n, bounds, 0, &mut nodes);
            proof {
                assert(spans@.dom() =~= Set::new(|k: int| 0 <= k < nodes@.len()));
                lemma_min_lower_same(triangles@, t0, 0, n as int, 0, bounds.min.x);
                lemma_min_lower_same(triangles@, t0, 0, n as int, 1, bounds.min.y);
                lemma_min_lower_same(triangles@, t0, 0, n as int, 2, bounds.min.z);
                lemma_max_upper_same(triangles@, t0, 0, n as int, 0, bounds.max.x);
                lemma_max_upper_same(triangles@, t0, 0, n as int, 1, bounds.max.y);
                lemma_max_upper_same(triangles@, t0, 0, n as int, 2, bounds.max.z);
                assert(bih_layout(nodes@, triangles@, spans@));
                assert forall|k: int| 0 <= k < nodes.len() && (#[trigger] nodes@[k]).data is Leaf implies leaf_count(
                    nodes@[k],
                ) >= 1 by {
                    assert(spans@.dom().contains(k));
                    assert(node_ok(nodes@, spans@, triangles@, k));
                    reveal(node_ok);
                }
                lemma_leaf_nodes_at_most_total(nodes@);
            }
            Bih(nodes)
        } else {
            let ghost spans = Map::<int, NodeSpan>::empty().insert(
                0,
                NodeSpan { lo: 0, hi: 0, bounds: inverted_box(), below_lo: 1, below_hi: 1 },
            );
            proof {
                crate::seqs::lemma_rearranged_refl(t0, 0, 0);
                reveal(node_ok);
                assert(all_left(triangles@, 0, 0, inverted_box(), tried_axis(inverted_box(), 0)));
                assert(all_left(triangles@, 0, 0, inverted_box(), tried_axis(inverted_box(), 1)));
                assert(all_left(triangles@, 0, 0, inverted_box(), tried_axis(inverted_box(), 2)));
                assert(node_ok(nodes@, spans, triangles@, 0));
                assert(spans.dom() =~= Set::new(|k: int| 0 <= k < nodes@.len()));
                assert(bih_layout(nodes@, triangles@, spans));
                assert(nodes@ =~= seq![empty_leaf()]);
            }
            Bih(nodes)
        }
    }
}

/// A node as the GPU reads it.
#[derive(Clone, Copy, Debug, PartialEq, Eq, Structural)]
pub struct BihNodeUniform {
    pub node_type: u32,
    pub child_left: u32,
    pub child_right: u32,
    pub clip_left: i32,
    pub clip_right: i32,
}

/// The node layout, under the name that the scene buffers use for it.
pub type BihNodeStd140 = BihNodeUniform;

impl BihNode {
    /// What `into_uniform` makes of this node: a split keeps its kind, children and
    /// clipping planes; a leaf keeps its kind, and puts its first triangle and its
    /// count where a split has its children, with both planes at 0. Indices are
    /// cut down to 32 bits.
    pub open spec fn uniform(self) -> BihNodeUniform {
        match self.data {
            BihNodeData::Branch { clip_left, clip_right, child_left, child_right } => BihNodeUniform {
                node_type: self.ty.code() as u32,
                child_left: child_left as u32,
                child_right: child_right as u32,
                clip_left,
                clip_right,
            },
            BihNodeData::Leaf { triangle_index, count } => BihNodeUniform {
                node_type: self.ty.code() as u32,
                child_left: triangle_index as u32,
                child_right: count as u32,
                clip_left: 0,
                clip_right: 0,
            },
        }
    }

    /// The node in the layout that the GPU reads.
    pub fn into_uniform(self) -> (u: BihNodeUniform)
        ensures
            u == self.uniform(),
    {
        match self.data {
            BihNodeData::Branch { clip_left, clip_right, child_left, child_right } => BihNodeUniform {
                node_type: self.ty.to_u32(),
                child_left: child_left as u32,
                child_right: child_right as u32,
                clip_left,
                clip_right,
            },
            BihNodeData::Leaf { triangle_index, count } => BihNodeUniform {
                node_type: self.ty.to_u32(),
                child_left: triangle_index as u32,
                child_right: count as u32,
                clip_left: 0,
                clip_right: 0,
            },
        }
    }
}

/// The GPU reads the kind of a node as a number: 0, 1 and 2 for a split across the
/// x, y and z axis, 3 for a leaf, whatever the node holds. A split keeps its
/// children and its clipping planes; a leaf puts its first triangle and its count
/// where a split has its children, with both planes at 0.
pub proof fn lemma_gpu_node_kind(n: BihNode)
    ensures
        n.ty == BihNodeType::X ==> n.uniform().node_type == 0,
        n.ty == BihNodeType::Y ==> n.uniform().node_type == 1,
        n.ty == BihNodeType::Z ==> n.uniform().node_type == 2,
        n.ty == BihNodeType::Leaf ==> n.uniform().node_type == 3,
        n.data matches BihNodeData::Branch { clip_left, clip_right, child_left, child_right } ==> {
            &&& n.uniform().child_left == child_left as u32
            &&& n.uniform().child_right == child_right as u32
            &&& n.uniform().clip_left == clip_left
            &&& n.uniform().clip_right == clip_right
        },
        n.data matches BihNodeData::Leaf { triangle_index, count } ==> {
            &&& n.uniform().child_left == triangle_index as u32
            &&& n.uniform().child_right == count as u32
            &&& n.uniform().clip_left == 0
            &&& n.uniform().clip_right == 0
        },
{
}

/// A split of a laid-out hierarchy is read by the GPU with the number of the axis
/// across which it split its window, the axis on which its clipping planes bound
/// its children.
pub proof fn lemma_gpu_split_axis(nodes: Seq<BihNode>, tris: Seq<Triangle>, spans: Map<int, NodeSpan>, p: int)
    requires
        bih_layout(nodes, tris, spans),
        0 <= p < nodes.len(),
        nodes[p].data is Branch,
    ensures
        first_split_axis(tris, spans[p].lo, spans[p].hi, spans[p].bounds) == Some(nodes[p].uniform().node_type as int),
        nodes[p].uniform().node_type < 3,
{
    assert(spans.dom().contains(p));
    assert(node_ok(nodes, spans, tris, p));
    reveal(node_ok);
    reveal(branch_facts);
}

/// The nodes of `bih`, in order, in the layout that the GPU reads.
pub fn get_bih_data(bih: Bih) -> (data: Vec<BihNodeStd140>)
    ensures
        data.len() == bih.0.len(),
        forall|i: int| 0 <= i < data.len() ==> data[i] == (#[trigger] bih.0@[i]).uniform(),
{
    let nodes = bih.0;
    let mut data: Vec<BihNodeStd140> = Vec::new();
    let mut i: usize = 0;
    while i < nodes.len()
        invariant
            i <= nodes.len(),
            data.len() == i,
            nodes@ == bih.0@,
            forall|j: int| 0 <= j < i ==> data[j] == (#[trigger] nodes@[j]).uniform(),
        decreases nodes.len() - i,
    {
        data.push(nodes[i].into_uniform());
        i = i + 1;
    }
    data
}

} // verus!
