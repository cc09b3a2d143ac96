//! How the descriptors of a graphics pipeline are grouped: the bindings of a
//! descriptor set are written in runs of consecutive bindings of one kind, and the
//! descriptor pool has one size entry per run of equal descriptor types.
use vstd::prelude::*;

verus! {

/// One binding of a descriptor set, as far as the grouping reads it: the Vulkan
/// number of its descriptor type, whether it comes with an image or with a buffer,
/// and the sampler that an image uses.
#[derive(Clone, Copy, Debug, PartialEq, Eq, Structural)]
pub struct BindingDesc {
    pub descriptor_type: i32,
    pub has_image: bool,
    pub has_buffer: bool,
    pub sampler_index: Option<usize>,
}

/// One descriptor write: `count` consecutive bindings from `first_binding` on, all of
/// the type `descriptor_type`, all images or all buffers; the bindings that it
/// writes, in order, and for images the sampler that each of them gets.
#[derive(Clone, Debug, PartialEq, Eq)]
pub struct WriteRun {
    pub first_binding: usize,
    pub count: usize,
    pub descriptor_type: i32,
    pub is_image: bool,
    pub bindings: Vec<usize>,
    pub samplers: Vec<usize>,
}

/// The bindings `first`, `first + 1`, ... of a run of `count`.
pub open spec fn run_bindings(first: int, count: int) -> Seq<usize> {
    Seq::new(count as nat, |k: int| (first + k) as usize)
}

/// The samplers of the bindings of a run of `count` from `first` on, where they are
/// images; none where they are buffers.
pub open spec fn run_samplers(bs: Seq<BindingDesc>, first: int, count: int, is_image: bool) -> Seq<usize> {
    if is_image {
        Seq::new(count as nat, |k: int| bs[first + k].sampler_index->0)
    } else {
        Seq::empty()
    }
}

/// The run lists the bindings that it writes and, for images, their samplers.
pub open spec fn run_lists_ok(bs: Seq<BindingDesc>, r: WriteRun) -> bool {
    &&& r.bindings@ == run_bindings(r.first_binding as int, r.count as int)
    &&& r.samplers@ == run_samplers(bs, r.first_binding as int, r.count as int, r.is_image)
}

/// A binding that a pipeline accepts: it has exactly one of an image and a buffer,
/// and a sampler exactly when it has an image.
pub open spec fn binding_ok(b: BindingDesc) -> bool {
    &&& b.has_image != b.has_buffer
    &&& b.has_image == (b.sampler_index is Some)
}

/// The binding is of the kind of the run.
pub open spec fn of_kind(b: BindingDesc, r: WriteRun) -> bool {
    b.descriptor_type == r.descriptor_type && b.has_image == r.is_image
}

/// Binding `i` is in run `r`.
pub open spec fn in_run(r: WriteRun, i: int) -> bool {
    r.first_binding <= i < r.first_binding + r.count
}

/// `rs` are runs that cover the bindings `bs[0..end]` one after the other, each of
/// them non-empty, with every binding of a run of its kind, and each run but the
/// first starting where the kind changes; each run lists its bindings and their
/// samplers.
pub open spec fn runs_up_to(bs: Seq<BindingDesc>, rs: Seq<WriteRun>, end: int) -> bool {
    &&& rs.len() == 0 ==> end == 0
    &&& rs.len() > 0 ==> rs[0].first_binding == 0 && rs.last().first_binding + rs.last().count == end
    &&& forall|r: int| 0 <= r < rs.len() ==> (#[trigger] rs[r]).count >= 1
    &&& forall|r: int| 0 <= r < rs.len() ==> run_lists_ok(bs, #[trigger] rs[r])
    &&& forall|r: int|
        0 < r < rs.len() ==> (#[trigger] rs[r]).first_binding == rs[r - 1].first_binding + rs[r - 1].count
    &&& forall|r: int, i: int| 0 <= r < rs.len() && #[trigger] in_run(rs[r], i) ==> of_kind(#[trigger] bs[i], rs[r])
    &&& forall|r: int| 0 < r < rs.len() ==> !of_kind(bs[(#[trigger] rs[r]).first_binding - 1], rs[r])
}

/// `rs` are the descriptor writes of the bindings `bs`: the longest runs of
/// consecutive bindings with the same type and the same choice of image or buffer,
/// in order, covering every binding once, each with the list of its bindings and,
/// for images, of the sampler of each.
pub open spec fn is_write_runs(bs: Seq<BindingDesc>, rs: Seq<WriteRun>) -> bool {
    &&& rs.len() >= 1
    &&& runs_up_to(bs, rs, bs.len() as int)
}

proof fn lemma_runs_drop_last(bs: Seq<BindingDesc>, rs: Seq<WriteRun>, end: int)
    requires
        runs_up_to(bs, rs, end),
        rs.len() > 0,
    ensures
        runs_up_to(bs, rs.drop_last(), rs.last().first_binding as int),
{
    let p = rs.drop_last();
    assert forall|r: int, i: int| 0 <= r < p.len() && #[trigger] in_run(p[r], i) implies of_kind(#[trigger] bs[i], p[r]) by {
        assert(p[r] == rs[r]);
    }
    assert forall|r: int| 0 < r < p.len() implies !of_kind(bs[(#[trigger] p[r]).first_binding - 1], p[r]) by {
        assert(p[r] == rs[r]);
    }
    assert forall|r: int| 0 <= r < p.len() implies run_lists_ok(bs, #[trigger] p[r]) by {
        assert(p[r] == rs[r]);
    }
    assert forall|r: int| 0 < r < p.len() implies (#[trigger] p[r]).first_binding == p[r - 1].first_binding + p[r
        - 1].count by {
        assert(p[r] == rs[r]);
        assert(p[r - 1] == rs[r - 1]);
    }
    if p.len() > 0 {
        assert(rs[rs.len() - 1] == rs.last());
        assert(p.last() == rs[rs.len() - 2]);
    }
}

proof fn lemma_runs_ordered(bs: Seq<BindingDesc>, rs: Seq<WriteRun>, end: int, r1: int, r2: int)
    requires
        runs_up_to(bs, rs, end),
        0 <= r1 < r2 < rs.len(),
    ensures
        rs[r1].first_binding + rs[r1].count <= rs[r2].first_binding,
    decreases r2 - r1,
{
    assert(rs[r2].first_binding == rs[r2 - 1].first_binding + rs[r2 - 1].count);
    if r2 - 1 > r1 {
        lemma_runs_ordered(bs, rs, end, r1, r2 - 1);
        assert(rs[r2 - 1].count >= 1);
    }
}

proof fn lemma_in_some_run(bs: Seq<BindingDesc>, rs: Seq<WriteRun>, end: int, i: int)
    requires
        runs_up_to(bs, rs, end),
        0 <= i < end,
    ensures
        exists|r: int| 0 <= r < rs.len() && #[trigger] in_run(rs[r], i),
    decreases rs.len(),
{
    let last = rs.len() - 1;
    assert(rs[last] == rs.last());
    if i < rs.last().first_binding {
        lemma_runs_drop_last(bs, rs, end);
        lemma_in_some_run(bs, rs.drop_last(), rs.last().first_binding as int, i);
        let r = choose|r: int| 0 <= r < rs.drop_last().len() && #[trigger] in_run(rs.drop_last()[r], i);
        assert(rs.drop_last()[r] == rs[r]);
    } else {
        assert(in_run(rs[last], i));
    }
}

/// The descriptor writes of a set of bindings write each binding once: every
/// binding lies in exactly one run.
pub proof fn lemma_each_binding_in_one_run(bs: Seq<BindingDesc>, rs: Seq<WriteRun>, i: int)
    requires
        is_write_runs(bs, rs),
        0 <= i < bs.len(),
    ensures
        exists|r: int| 0 <= r < rs.len() && #[trigger] in_run(rs[r], i),
        forall|r1: int, r2: int|
            0 <= r1 < rs.len() && 0 <= r2 < rs.len() && #[trigger] in_run(rs[r1], i) && #[trigger] in_run(rs[r2], i)
                ==> r1 == r2,
{
    lemma_in_some_run(bs, rs, bs.len() as int, i);
    assert forall|r1: int, r2: int|
        0 <= r1 < rs.len() && 0 <= r2 < rs.len() && #[trigger] in_run(rs[r1], i) && #[trigger] in_run(rs[r2], i)
            implies r1 == r2 by {
        if r1 < r2 {
            lemma_runs_ordered(bs, rs, bs.len() as int, r1, r2);
        } else if r2 < r1 {
            lemma_runs_ordered(bs, rs, bs.len() as int, r2, r1);
        }
    }
}

/// Groups the bindings of one descriptor set into descriptor writes: one write for
/// each longest run of consecutive bindings with the same type and the same choice
/// of image or buffer, starting at the run's first binding.
pub fn descriptor_write_runs(bindings: &Vec<BindingDesc>) -> (runs: Vec<WriteRun>)
    requires
        bindings.len() >= 1,
        forall|i: int| 0 <= i < bindings.len() ==> binding_ok(#[trigger] bindings@[i]),
    ensures
        is_write_runs(bindings@, runs@),
{
    let n = bindings.len();
    let mut runs: Vec<WriteRun> = Vec::new();
    let mut first: usize = 0;
    let mut curr_type = bindings[0].descriptor_type;
    let mut curr_is_image = bindings[0].has_image;
    let mut run_b: Vec<usize> = Vec::new();
    let mut run_s: Vec<usize> = Vec::new();
    let mut i: usize = 0;
    while i < n
        invariant
            n == bindings.len(),
            n >= 1,
            forall|k: int| 0 <= k < bindings.len() ==> binding_ok(#[trigger] bindings@[k]),
            first <= i <= n,
            first < n,
            i == 0 ==> first == 0,
            runs_up_to(bindings@, runs@, first as int),
            curr_type == bindings@[first as int].descriptor_type,
            curr_is_image == bindings@[first as int].has_image,
            forall|j: int|
                first <= j < i ==> (#[trigger] bindings@[j]).descriptor_type == curr_type
                    && bindings@[j].has_image == curr_is_image,
            run_b@ == run_bindings(first as int, i - first),
            run_s@ == run_samplers(bindings@, first as int, i - first, curr_is_image),
            runs@.len() > 0 ==> !(bindings@[first - 1].descriptor_type == curr_type
                && bindings@[first - 1].has_image == curr_is_image),
        decreases n - i,
    {
        let b = bindings[i];
        if i > first && (b.descriptor_type != curr_type || b.has_image != curr_is_image) {
            let run = WriteRun {
                first_binding: first,
                count: i - first,
                descriptor_type: curr_type,
                is_image: curr_is_image,
                bindings: run_b,
                samplers: run_s,
            };
            let ghost before = runs@;
            runs.push(run);
            proof {
                assert forall|r: int, j: int| 0 <= r < runs@.len() && #[trigger] in_run(runs@[r], j) implies of_kind(
                    #[trigger] bindings@[j],
                    runs@[r],
                ) by {
                    if r < before.len() {
                        assert(runs@[r] == before[r]);
                    }
                }
                assert forall|r: int| 0 <= r < runs@.len() implies run_lists_ok(bindings@, #[trigger] runs@[r]) by {
                    if r < before.len() {
                        assert(runs@[r] == before[r]);
                    }
                }
                assert forall|r: int| 0 < r < runs@.len() implies !of_kind(
                    bindings@[(#[trigger] runs@[r]).first_binding - 1],
                    runs@[r],
                ) by {
                    if r < before.len() {
                        assert(runs@[r] == before[r]);
                    } else {
                        assert(before.last() == runs@[r - 1]);
                    }
                }
                assert forall|r: int| 0 < r < runs@.len() implies (#[trigger] runs@[r]).first_binding == runs@[r
                    - 1].first_binding + runs@[r - 1].count by {
                    if r < before.len() {
                        assert(runs@[r] == before[r]);
                        assert(runs@[r - 1] == before[r - 1]);
                    } else {
                        assert(before.last() == runs@[r - 1]);
                    }
                }
            }
            first = i;
            curr_type = b.descriptor_type;
            curr_is_image = b.has_image;
            run_b = Vec::new();
            run_s = Vec::new();
            proof {
                assert(run_b@ =~= run_bindings(first as int, 0));
                assert(run_s@ =~= run_samplers(bindings@, first as int, 0, curr_is_image));
            }
        }
        let ghost sb = run_b@;
        let ghost ss = run_s@;
        run_b.push(i);
        if b.has_image {
            match b.sampler_index {
                Some(k) => run_s.push(k),
                None => {},
            }
        }
        proof {
            assert(binding_ok(bindings@[i as int]));
            assert(run_b@ =~= run_bindings(first as int, i + 1 - first));
            assert(run_s@ =~= run_samplers(bindings@, first as int, i + 1 - first, curr_is_image));
        }
        i = i + 1;
    }
    let run = WriteRun {
        first_binding: first,
        count: n - first,
        descriptor_type: curr_type,
        is_image: curr_is_image,
        bindings: run_b,
        samplers: run_s,
    };
    let ghost before = runs@;
    runs.push(run);
    proof {
        assert forall|r: int, j: int| 0 <= r < runs@.len() && #[trigger] in_run(runs@[r], j) implies of_kind(
            #[trigger] bindings@[j],
            runs@[r],
        ) by {
            if r < before.len() {
                assert(runs@[r] == before[r]);
            }
        }
        assert forall|r: int| 0 <= r < runs@.len() implies run_lists_ok(bindings@, #[trigger] runs@[r]) by {
            if r < before.len() {
                assert(runs@[r] == before[r]);
            }
        }
        assert forall|r: int| 0 < r < runs@.len() implies !of_kind(
            bindings@[(#[trigger] runs@[r]).first_binding - 1],
            runs@[r],
        ) by {
            if r < before.len() {
                assert(runs@[r] == before[r]);
            } else {
                assert(before.last() == runs@[r - 1]);
            }
        }
        assert forall|r: int| 0 < r < runs@.len() implies (#[trigger] runs@[r]).first_binding == runs@[r
            - 1].first_binding + runs@[r - 1].count by {
            if r < before.len() {
                assert(runs@[r] == before[r]);
                assert(runs@[r - 1] == before[r - 1]);
            } else {
                assert(before.last() == runs@[r - 1]);
            }
        }
    }
    runs
}

/// The descriptor types of `bs`, in order.
pub open spec fn types_of(bs: Seq<BindingDesc>) -> Seq<i32> {
    bs.map_values(|b: BindingDesc| b.descriptor_type)
}

/// The descriptor types of all the bindings of all the sets, set after set.
pub open spec fn all_types(sets: Seq<Vec<BindingDesc>>) -> Seq<i32>
    decreases sets.len(),
{
    if sets.len() == 0 {
        Seq::empty()
    } else {
        all_types(sets.drop_last()) + types_of(sets.last()@)
    }
}

/// `s` with every element that equals the one before it left out.
pub open spec fn dedup(s: Seq<i32>) -> Seq<i32>
    decreases s.len(),
{
    if s.len() == 0 {
        Seq::empty()
    } else if s.len() >= 2 && s[s.len() - 2] == s.last() {
        dedup(s.drop_last())
    } else {
        dedup(s.drop_last()).push(s.last())
    }
}

/// The descriptor types that the pool of a pipeline makes room for: the types of
/// all the bindings of all its sets, set after set, with repeats of the type just
/// before left out.
pub fn descriptor_pool_types(sets: &Vec<Vec<BindingDesc>>) -> (types: Vec<i32>)
    ensures
        types@ == dedup(all_types(sets@)),
{
    let mut types: Vec<i32> = Vec::new();
    let ghost mut flat: Seq<i32> = Seq::empty();
    let mut prev: Option<i32> = None;
    let mut i: usize = 0;
    while i < sets.len()
        invariant
            i <= sets.len(),
            flat == all_types(sets@.subrange(0, i as int)),
            types@ == dedup(flat),
            flat.len() == 0 ==> prev is None,
            flat.len() > 0 ==> prev == Some(flat.last()),
        decreases sets.len() - i,
    {
        let set = &sets[i];
        let mut j: usize = 0;
        while j < set.len()
            invariant
                i < sets.len(),
                *set == sets@[i as int],
                j <= set.len(),
                flat == all_types(sets@.subrange(0, i as int)) + types_of(set@.subrange(0, j as int)),
                types@ == dedup(flat),
                flat.len() == 0 ==> prev is None,
                flat.len() > 0 ==> prev == Some(flat.last()),
            decreases set.len() - j,
        {
            let t = set[j].descriptor_type;
            let ghost next = flat.push(t);
            proof {
                assert(next.drop_last() =~= flat);
                assert(types_of(set@.subrange(0, j as int + 1)) =~= types_of(set@.subrange(0, j as int)).push(t));
            }
            match prev {
                Some(p) => {
                    if p != t {
                        types.push(t);
                    }
                },
                None => {
                    types.push(t);
                },
            }
            prev = Some(t);
            proof {
                flat = next;
            }
            j = j + 1;
        }
        proof {
            assert(set@.subrange(0, j as int) =~= set@);
            assert(sets@.subrange(0, i as int + 1).drop_last() =~= sets@.subrange(0, i as int));
        }
        i = i + 1;
    }
    proof {
        assert(sets@.subrange(0, sets.len() as int) =~= sets@);
    }
    types
}

} // verus!
