//! Facts about sequences that are reordered inside a window, used by the
//! in-place algorithms of the library.
use vstd::prelude::*;

verus! {

/// `a` and `b` have the same length and agree outside the window `[lo, hi)`.
pub open spec fn same_outside<T>(a: Seq<T>, b: Seq<T>, lo: int, hi: int) -> bool {
    &&& a.len() == b.len()
    &&& forall|k: int| 0 <= k < a.len() && !(lo <= k < hi) ==> #[trigger] a[k] == b[k]
}

/// `x` occurs in `b` inside the window `[lo, hi)`.
pub open spec fn in_window<T>(b: Seq<T>, lo: int, hi: int, x: T) -> bool {
    exists|j: int| lo <= j < hi && b[j] == x
}

/// Every element of `a` in the window `[lo, hi)` occurs in `b` inside the same window.
pub open spec fn drawn_from<T>(a: Seq<T>, b: Seq<T>, lo: int, hi: int) -> bool {
    forall|k: int| lo <= k < hi ==> #[trigger] in_window(b, lo, hi, a[k])
}

/// The windows `[lo, hi)` of `a` and `b` hold the same elements (each one occurs
/// in the other).
pub open spec fn same_contents<T>(a: Seq<T>, b: Seq<T>, lo: int, hi: int) -> bool {
    drawn_from(a, b, lo, hi) && drawn_from(b, a, lo, hi)
}

/// `a` is `b` with the elements of the window `[lo, hi)` moved around inside that
/// window: same multiset of elements, same elements outside the window, and the
/// same elements inside it.
pub open spec fn rearranged<T>(a: Seq<T>, b: Seq<T>, lo: int, hi: int) -> bool {
    &&& 0 <= lo <= hi <= a.len()
    &&& a.to_multiset() == b.to_multiset()
    &&& same_outside(a, b, lo, hi)
    &&& same_contents(a, b, lo, hi)
}

/// `s` with the elements at `i` and `j` exchanged.
pub open spec fn swapped<T>(s: Seq<T>, i: int, j: int) -> Seq<T> {
    s.update(i, s[j]).update(j, s[i])
}

pub proof fn lemma_rearranged_refl<T>(a: Seq<T>, lo: int, hi: int)
    requires
        0 <= lo <= hi <= a.len(),
    ensures
        rearranged(a, a, lo, hi),
{
    assert forall|k: int| lo <= k < hi implies #[trigger] in_window(a, lo, hi, a[k]) by {
        assert(a[k] == a[k]);
    }
}

pub proof fn lemma_swap_rearranged<T>(s: Seq<T>, i: int, j: int, lo: int, hi: int)
    requires
        0 <= lo <= i < hi <= s.len(),
        lo <= j < hi,
    ensures
        rearranged(swapped(s, i, j), s, lo, hi),
{
    let t = swapped(s, i, j);
    assert(t.to_multiset() =~= s.to_multiset()) by {
        broadcast use vstd::seq_lib::to_multiset_update;
        broadcast use vstd::multiset::group_multiset_axioms;
        broadcast use vstd::seq_lib::to_multiset_contains;

        let s1 = s.update(i, s[j]);
        assert(s1[j] == s[j]);
        assert(s.contains(s[i]));
        assert(s1.to_multiset() == s.to_multiset().insert(s[j]).remove(s[i]));
        assert(t.to_multiset() == s1.to_multiset().insert(s[i]).remove(s[j]));
    }
    assert forall|k: int| lo <= k < hi implies #[trigger] in_window(s, lo, hi, t[k]) by {
        if k == j {
            assert(s[i] == t[k]);
        } else if k == i {
            assert(s[j] == t[k]);
        } else {
            assert(s[k] == t[k]);
        }
    }
    assert forall|k: int| lo <= k < hi implies #[trigger] in_window(t, lo, hi, s[k]) by {
        if k == j {
            assert(t[i] == s[k]);
        } else if k == i {
            assert(t[j] == s[k]);
        } else {
            assert(t[k] == s[k]);
        }
    }
}

/// A rearrangement inside a window is also one inside any larger window.
pub proof fn lemma_rearranged_widen<T>(a: Seq<T>, b: Seq<T>, lo: int, hi: int, wlo: int, whi: int)
    requires
        rearranged(a, b, lo, hi),
        0 <= wlo <= lo,
        hi <= whi <= a.len(),
    ensures
        rearranged(a, b, wlo, whi),
{
    assert forall|k: int| wlo <= k < whi implies #[trigger] in_window(b, wlo, whi, a[k]) by {
        if lo <= k < hi {
            assert(in_window(b, lo, hi, a[k]));
            let m = choose|m: int| lo <= m < hi && b[m] == a[k];
            assert(b[m] == a[k]);
        } else {
            assert(b[k] == a[k]);
        }
    }
    assert forall|k: int| wlo <= k < whi implies #[trigger] in_window(a, wlo, whi, b[k]) by {
        if lo <= k < hi {
            assert(in_window(a, lo, hi, b[k]));
            let m = choose|m: int| lo <= m < hi && a[m] == b[k];
            assert(a[m] == b[k]);
        } else {
            assert(a[k] == b[k]);
        }
    }
}

/// Two rearrangements of one window make a rearrangement of that window.
pub proof fn lemma_rearranged_trans<T>(a: Seq<T>, b: Seq<T>, c: Seq<T>, lo: int, hi: int)
    requires
        rearranged(a, b, lo, hi),
        rearranged(b, c, lo, hi),
    ensures
        rearranged(a, c, lo, hi),
{
    assert forall|k: int| lo <= k < hi implies #[trigger] in_window(c, lo, hi, a[k]) by {
        assert(in_window(b, lo, hi, a[k]));
        let m1 = choose|m: int| lo <= m < hi && b[m] == a[k];
        assert(in_window(c, lo, hi, b[m1]));
        let m2 = choose|m: int| lo <= m < hi && c[m] == b[m1];
        assert(c[m2] == a[k]);
    }
    assert forall|k: int| lo <= k < hi implies #[trigger] in_window(a, lo, hi, c[k]) by {
        assert(in_window(b, lo, hi, c[k]));
        let m1 = choose|m: int| lo <= m < hi && b[m] == c[k];
        assert(in_window(a, lo, hi, b[m1]));
        let m2 = choose|m: int| lo <= m < hi && a[m] == b[m1];
        assert(a[m2] == c[k]);
    }
}

/// A property of elements that holds all over a window still holds there once it
/// holds the same elements.
pub proof fn lemma_rearranged_all<T>(a: Seq<T>, b: Seq<T>, lo: int, hi: int, p: spec_fn(T) -> bool)
    requires
        same_contents(a, b, lo, hi),
        forall|k: int| lo <= k < hi ==> #[trigger] p(b[k]),
    ensures
        forall|k: int| lo <= k < hi ==> #[trigger] p(a[k]),
{
    assert forall|k: int| lo <= k < hi implies #[trigger] p(a[k]) by {
        assert(in_window(b, lo, hi, a[k]));
        let m = choose|m: int| lo <= m < hi && b[m] == a[k];
        assert(p(b[m]));
    }
}

/// Two sequences that agree on a window hold the same elements there.
pub proof fn lemma_agree_same_contents<T>(a: Seq<T>, b: Seq<T>, lo: int, hi: int)
    requires
        0 <= lo <= hi <= a.len(),
        hi <= b.len(),
        forall|k: int| lo <= k < hi ==> a[k] == b[k],
    ensures
        same_contents(a, b, lo, hi),
{
    assert forall|k: int| lo <= k < hi implies #[trigger] in_window(b, lo, hi, a[k]) by {
        assert(b[k] == a[k]);
    }
    assert forall|k: int| lo <= k < hi implies #[trigger] in_window(a, lo, hi, b[k]) by {
        assert(a[k] == b[k]);
    }
}

/// Holding the same elements in a window is transitive.
pub proof fn lemma_same_contents_trans<T>(a: Seq<T>, b: Seq<T>, c: Seq<T>, lo: int, hi: int)
    requires
        same_contents(a, b, lo, hi),
        same_contents(b, c, lo, hi),
    ensures
        same_contents(a, c, lo, hi),
{
    assert forall|k: int| lo <= k < hi implies #[trigger] in_window(c, lo, hi, a[k]) by {
        assert(in_window(b, lo, hi, a[k]));
        let m1 = choose|m: int| lo <= m < hi && b[m] == a[k];
        assert(in_window(c, lo, hi, b[m1]));
        let m2 = choose|m: int| lo <= m < hi && c[m] == b[m1];
        assert(c[m2] == a[k]);
    }
    assert forall|k: int| lo <= k < hi implies #[trigger] in_window(a, lo, hi, c[k]) by {
        assert(in_window(b, lo, hi, c[k]));
        let m1 = choose|m: int| lo <= m < hi && b[m] == c[k];
        assert(in_window(a, lo, hi, b[m1]));
        let m2 = choose|m: int| lo <= m < hi && a[m] == b[m1];
        assert(a[m2] == c[k]);
    }
}

/// A property of elements that holds for some element of a window still holds for
/// some element of that window once it holds the same elements.
pub proof fn lemma_rearranged_any<T>(a: Seq<T>, b: Seq<T>, lo: int, hi: int, p: spec_fn(T) -> bool)
    requires
        same_contents(a, b, lo, hi),
        exists|k: int| lo <= k < hi && #[trigger] p(b[k]),
    ensures
        exists|k: int| lo <= k < hi && #[trigger] p(a[k]),
{
    let k = choose|k: int| lo <= k < hi && #[trigger] p(b[k]);
    assert(in_window(a, lo, hi, b[k]));
    let m = choose|m: int| lo <= m < hi && a[m] == b[k];
    assert(p(a[m]));
}

} // verus!
