//! The bookkeeping of the user interface's drawing: resources whose destruction
//! waits until no frame in flight uses them, and the batching of the interface's
//! meshes into one vertex buffer and one index buffer.
use vstd::prelude::*;

verus! {

/// The entries that stay after a countdown step: those that had time left, with one
/// step less, in order.
pub open spec fn kept_after_spin<T>(q: Seq<(usize, T)>) -> Seq<(usize, T)>
    decreases q.len(),
{
    if q.len() == 0 {
        Seq::empty()
    } else {
        let rest = kept_after_spin(q.drop_last());
        let (life, item) = q.last();
        if life == 0 {
            rest
        } else {
            rest.push(((life - 1) as usize, item))
        }
    }
}

/// The items whose time is up at a countdown step, in order.
pub open spec fn released_by_spin<T>(q: Seq<(usize, T)>) -> Seq<T>
    decreases q.len(),
{
    if q.len() == 0 {
        Seq::empty()
    } else {
        let rest = released_by_spin(q.drop_last());
        let (life, item) = q.last();
        if life == 0 {
            rest.push(item)
        } else {
            rest
        }
    }
}

/// Resources waiting to be destroyed, each with the number of further frames that
/// may still use it.
pub struct DeferredQueue<T> {
    entries: Vec<(usize, T)>,
}

impl<T> DeferredQueue<T> {
    /// The waiting resources with their remaining frames, oldest first.
    pub closed spec fn entries(&self) -> Seq<(usize, T)> {
        self.entries@
    }

    /// An empty queue.
    pub fn new() -> (q: DeferredQueue<T>)
        ensures
            q.entries() == Seq::<(usize, T)>::empty(),
    {
        DeferredQueue { entries: Vec::new() }
    }

    /// How many resources are waiting.
    pub fn len(&self) -> (n: usize)
        ensures
            n == self.entries().len(),
    {
        self.entries.len()
    }

    /// Queues `item` to be destroyed once `frames` more frames have passed.
    pub fn push(&mut self, frames: usize, item: T)
        ensures
            final(self).entries() == old(self).entries().push((frames, item)),
    {
        self.entries.push((frames, item));
    }

    /// Queues all of `items`, in order, each to be destroyed once `frames` more
    /// frames have passed, and leaves `items` empty: what the interface does with
    /// the meshes of the frame before when it builds new ones.
    pub fn retire_all(&mut self, frames: usize, items: &mut Vec<T>)
        ensures
            final(items)@ == Seq::<T>::empty(),
            final(self).entries() == old(self).entries() + old(items)@.map_values(|x: T| (frames, x)),
    {
        let ghost q = items@;
        let ghost start = self.entries@;
        let mut rest: Vec<T> = Vec::new();
        // Take the items off the back, so that taking them off `rest` in turn visits
        // them from the first on.
        while items.len() > 0
            invariant
                q == items@ + rest@.reverse(),
            decreases items.len(),
        {
            match items.pop() {
                Some(x) => {
                    rest.push(x);
                    proof {
                        assert(q =~= items@ + rest@.reverse());
                    }
                },
                None => {},
            }
        }
        proof {
            assert(q =~= rest@.reverse());
        }
        let ghost n = q.len();
        while rest.len() > 0
            invariant
                n == q.len(),
                rest@.len() <= n,
                forall|j: int| 0 <= j < rest@.len() ==> #[trigger] rest@[j] == q[n - 1 - j],
                self.entries@ == start + q.subrange(0, n - rest@.len()).map_values(|x: T| (frames, x)),
            decreases rest.len(),
        {
            let ghost done = n - rest@.len();
            match rest.pop() {
                Some(x) => {
                    proof {
                        assert(x == q[done]);
                    }
                    self.entries.push((frames, x));
                    proof {
                        assert(start + q.subrange(0, done + 1).map_values(|x: T| (frames, x)) =~= (start + q.subrange(
                            0,
                            done,
                        ).map_values(|x: T| (frames, x))).push((frames, x)));
                    }
                },
                None => {},
            }
        }
        proof {
            assert(q.subrange(0, n as int) =~= q);
        }
    }

    /// One countdown step: hands back the resources whose time is up (to be
    /// destroyed now), in order, and keeps the others with one frame less.
    pub fn spin(&mut self) -> (released: Vec<T>)
        ensures
            final(self).entries() == kept_after_spin(old(self).entries()),
            released@ == released_by_spin(old(self).entries()),
    {
        let mut waiting: Vec<(usize, T)> = Vec::new();
        std::mem::swap(&mut waiting, &mut self.entries);
        let ghost q = waiting@;
        let mut kept: Vec<(usize, T)> = Vec::new();
        let mut released: Vec<T> = Vec::new();
        let mut rest: Vec<(usize, T)> = Vec::new();
        // Walk the entries from the back, so that popping visits them all.
        while waiting.len() > 0
            invariant
                q == waiting@ + rest@.reverse(),
            decreases waiting.len(),
        {
            match waiting.pop() {
                Some(e) => {
                    rest.push(e);
                    proof {
                        assert(q =~= waiting@ + rest@.reverse());
                    }
                },
                None => {},
            }
        }
        proof {
            assert(q =~= rest@.reverse());
        }
        let ghost n = rest@.len();
        while rest.len() > 0
            invariant
                n == q.len(),
                rest@.len() <= n,
                forall|j: int| 0 <= j < rest@.len() ==> #[trigger] rest@[j] == q[n - 1 - j],
                kept@ == kept_after_spin(q.subrange(0, n - rest@.len())),
                released@ == released_by_spin(q.subrange(0, n - rest@.len())),
            decreases rest.len(),
        {
            let ghost done = n - rest@.len();
            match rest.pop() {
                Some(e) => {
                    proof {
                        assert(e == q[done]);
                        assert(q.subrange(0, done + 1).drop_last() =~= q.subrange(0, done));
                    }
                    let (life, item) = e;
                    if life == 0 {
                        released.push(item);
                    } else {
                        kept.push((life - 1, item));
                    }
                },
                None => {},
            }
        }
        proof {
            assert(q.subrange(0, n as int) =~= q);
        }
        self.entries = kept;
        released
    }
}

/// A countdown step loses no resource and makes up none: every waiting resource is
/// either kept or handed back.
pub proof fn lemma_spin_accounts_for_all<T>(q: Seq<(usize, T)>)
    ensures
        kept_after_spin(q).len() + released_by_spin(q).len() == q.len(),
    decreases q.len(),
{
    if q.len() > 0 {
        lemma_spin_accounts_for_all(q.drop_last());
    }
}

/// At a countdown step, a waiting resource with no frame left is handed back, and
/// one with frames left stays, with one frame less.
pub proof fn lemma_spin_counts_down<T>(q: Seq<(usize, T)>, i: int)
    requires
        0 <= i < q.len(),
    ensures
        q[i].0 == 0 ==> released_by_spin(q).contains(q[i].1),
        q[i].0 > 0 ==> kept_after_spin(q).contains(((q[i].0 - 1) as usize, q[i].1)),
    decreases q.len(),
{
    if i == q.len() - 1 {
        let rest = q.drop_last();
        if q[i].0 == 0 {
            assert(released_by_spin(q) == released_by_spin(rest).push(q[i].1));
            assert(released_by_spin(q)[released_by_spin(rest).len() as int] == q[i].1);
        } else {
            assert(kept_after_spin(q) == kept_after_spin(rest).push(((q[i].0 - 1) as usize, q[i].1)));
            assert(kept_after_spin(q)[kept_after_spin(rest).len() as int] == ((q[i].0 - 1) as usize, q[i].1));
        }
    } else {
        let rest = q.drop_last();
        lemma_spin_counts_down(rest, i);
        assert(rest[i] == q[i]);
        let (life, item) = q.last();
        if q[i].0 == 0 {
            let r = released_by_spin(rest);
            let k = choose|k: int| 0 <= k < r.len() && r[k] == q[i].1;
            if life == 0 {
                assert(released_by_spin(q) == r.push(item));
                assert(released_by_spin(q)[k] == q[i].1);
            }
        } else {
            let r = kept_after_spin(rest);
            let k = choose|k: int| 0 <= k < r.len() && r[k] == ((q[i].0 - 1) as usize, q[i].1);
            if life != 0 {
                assert(kept_after_spin(q) == r.push(((life - 1) as usize, item)));
                assert(kept_after_spin(q)[k] == ((q[i].0 - 1) as usize, q[i].1));
            }
        }
    }
}

/// The waiting resources after `n` countdown steps.
pub open spec fn after_spins<T>(q: Seq<(usize, T)>, n: nat) -> Seq<(usize, T)>
    decreases n,
{
    if n == 0 {
        q
    } else {
        kept_after_spin(after_spins(q, (n - 1) as nat))
    }
}

/// The entries of `q` that are still waiting after `s` countdown steps: those queued
/// with at least `s` frames, with `s` frames less, in queue order.
pub open spec fn waiting<T>(q: Seq<(usize, T)>, s: nat) -> Seq<(usize, T)>
    decreases q.len(),
{
    if q.len() == 0 {
        Seq::empty()
    } else {
        let rest = waiting(q.drop_last(), s);
        let (life, item) = q.last();
        if life >= s {
            rest.push(((life - s) as usize, item))
        } else {
            rest
        }
    }
}

/// The items of `q` that were queued with exactly `s` frames, in queue order.
pub open spec fn due<T>(q: Seq<(usize, T)>, s: nat) -> Seq<T>
    decreases q.len(),
{
    if q.len() == 0 {
        Seq::empty()
    } else {
        let rest = due(q.drop_last(), s);
        let (life, item) = q.last();
        if life == s {
            rest.push(item)
        } else {
            rest
        }
    }
}

proof fn lemma_spin_of_waiting<T>(q: Seq<(usize, T)>, s: nat)
    ensures
        kept_after_spin(waiting(q, s)) == waiting(q, s + 1),
        released_by_spin(waiting(q, s)) == due(q, s),
    decreases q.len(),
{
    if q.len() > 0 {
        lemma_spin_of_waiting(q.drop_last(), s);
        let w = waiting(q.drop_last(), s);
        let (life, item) = q.last();
        if life >= s {
            assert(w.push(((life - s) as usize, item)).drop_last() =~= w);
        }
    }
}

/// What the countdown does, step by step, to the resources queued in `q`: after
/// `s` steps exactly those queued with at least `s` frames are still waiting, each
/// with `s` frames less and in queue order; and the step after them hands back
/// exactly the items queued with `s` frames, in queue order. So a resource queued
/// with `f` frames is handed back once, by step `f + 1`, and by no step before or
/// after it.
pub proof fn lemma_spins_release_each_once<T>(q: Seq<(usize, T)>, s: nat)
    ensures
        after_spins(q, s) == waiting(q, s),
        released_by_spin(after_spins(q, s)) == due(q, s),
    decreases s,
{
    if s == 0 {
        lemma_nothing_spent(q);
    } else {
        lemma_spins_release_each_once(q, (s - 1) as nat);
        lemma_spin_of_waiting(q, (s - 1) as nat);
    }
    lemma_spin_of_waiting(q, s);
}

proof fn lemma_nothing_spent<T>(q: Seq<(usize, T)>)
    ensures
        waiting(q, 0) == q,
    decreases q.len(),
{
    if q.len() > 0 {
        lemma_nothing_spent(q.drop_last());
        assert(q.drop_last().push(q.last()) =~= q);
    }
}

/// The position in `q` of the `j`-th item of `due(q, s)`.
pub open spec fn due_source<T>(q: Seq<(usize, T)>, s: nat, j: int) -> int
    decreases q.len(),
{
    if q.len() == 0 {
        -1
    } else if q.last().0 == s && j == due(q.drop_last(), s).len() {
        q.len() - 1
    } else {
        due_source(q.drop_last(), s, j)
    }
}

proof fn lemma_due_sources<T>(q: Seq<(usize, T)>, s: nat)
    ensures
        forall|j: int|
            0 <= j < due(q, s).len() ==> 0 <= #[trigger] due_source(q, s, j) < q.len() && q[due_source(
                q,
                s,
                j,
            )].0 == s && due(q, s)[j] == q[due_source(q, s, j)].1,
        forall|j1: int, j2: int|
            0 <= j1 < j2 < due(q, s).len() ==> #[trigger] due_source(q, s, j1) < #[trigger] due_source(q, s, j2),
    decreases q.len(),
{
    if q.len() > 0 {
        let p = q.drop_last();
        lemma_due_sources(p, s);
        let n = due(p, s).len();
        assert forall|j: int| 0 <= j < due(q, s).len() implies 0 <= #[trigger] due_source(q, s, j) < q.len()
            && q[due_source(q, s, j)].0 == s && due(q, s)[j] == q[due_source(q, s, j)].1 by {
            if j < n {
                assert(due_source(q, s, j) == due_source(p, s, j));
                assert(p[due_source(p, s, j)] == q[due_source(p, s, j)]);
            }
        }
        assert forall|j1: int, j2: int| 0 <= j1 < j2 < due(q, s).len() implies #[trigger] due_source(q, s, j1)
            < #[trigger] due_source(q, s, j2) by {
            assert(due_source(q, s, j1) == due_source(p, s, j1));
            if j2 < n {
                assert(due_source(q, s, j2) == due_source(p, s, j2));
            }
        }
    }
}

proof fn lemma_due_source_onto<T>(q: Seq<(usize, T)>, s: nat, i: int)
    requires
        0 <= i < q.len(),
        q[i].0 == s,
    ensures
        exists|j: int| 0 <= j < due(q, s).len() && #[trigger] due_source(q, s, j) == i,
    decreases q.len(),
{
    let p = q.drop_last();
    let n = due(p, s).len();
    if i == q.len() - 1 {
        assert(due_source(q, s, n as int) == i);
    } else {
        lemma_due_source_onto(p, s, i);
        let j = choose|j: int| 0 <= j < due(p, s).len() && #[trigger] due_source(p, s, j) == i;
        assert(due_source(q, s, j) == i);
    }
}

/// Each resource of the queue is handed back by exactly one countdown step: the
/// step after as many steps as it was queued with frames. The items that this step
/// hands back come each from its own position of the queue, in queue order, and the
/// resource at position `i` is among them, once, exactly when it was queued with
/// `s` frames.
pub proof fn lemma_due_holds_exactly_its_step<T>(q: Seq<(usize, T)>, s: nat, i: int)
    requires
        0 <= i < q.len(),
    ensures
        released_by_spin(after_spins(q, s)) == due(q, s),
        forall|j: int|
            0 <= j < due(q, s).len() ==> 0 <= #[trigger] due_source(q, s, j) < q.len() && q[due_source(
                q,
                s,
                j,
            )].0 == s && due(q, s)[j] == q[due_source(q, s, j)].1,
        forall|j1: int, j2: int|
            0 <= j1 < j2 < due(q, s).len() ==> #[trigger] due_source(q, s, j1) < #[trigger] due_source(q, s, j2),
        q[i].0 == s <==> exists|j: int| 0 <= j < due(q, s).len() && #[trigger] due_source(q, s, j) == i,
{
    lemma_spins_release_each_once(q, s);
    lemma_due_sources(q, s);
    if q[i].0 == s {
        lemma_due_source_onto(q, s, i);
    }
}

/// The size in bytes of a buffer that holds `count` elements of `element_size`
/// bytes each, when that is more than the `current_size` of the buffer in use: a
/// larger buffer must then take its place. `None` when the buffer in use is large
/// enough.
pub fn grown_buffer_size(count: usize, element_size: usize, current_size: u64) -> (r: Option<u64>)
    requires
        count * element_size <= usize::MAX,
    ensures
        r == (if count * element_size > current_size {
            Some((count * element_size) as u64)
        } else {
            None
        }),
{
    let needed = (count * element_size) as u64;
    if needed > current_size {
        Some(needed)
    } else {
        None
    }
}

/// Where one mesh's data stands in the shared buffers: the vertex of index 0 of
/// the mesh, the first of its indices, and how many indices it has.
#[derive(Clone, Copy, Debug, PartialEq, Eq, Structural)]
pub struct DrawRange {
    pub vertex_offset: i32,
    pub first_index: u32,
    pub index_count: u32,
}

/// The vertices of all meshes, one mesh after the other.
pub open spec fn all_vertices<V>(meshes: Seq<(Vec<V>, Vec<u32>)>) -> Seq<V>
    decreases meshes.len(),
{
    if meshes.len() == 0 {
        Seq::empty()
    } else {
        all_vertices(meshes.drop_last()) + meshes.last().0@
    }
}

/// The indices of all meshes, one mesh after the other.
pub open spec fn all_indices<V>(meshes: Seq<(Vec<V>, Vec<u32>)>) -> Seq<u32>
    decreases meshes.len(),
{
    if meshes.len() == 0 {
        Seq::empty()
    } else {
        all_indices(meshes.drop_last()) + meshes.last().1@
    }
}

/// The draw range of mesh `k`: its vertices and indices start where those of the
/// meshes before it end (cut down to the widths of the fields).
pub open spec fn draw_range_of<V>(meshes: Seq<(Vec<V>, Vec<u32>)>, k: int) -> DrawRange {
    DrawRange {
        vertex_offset: all_vertices(meshes.subrange(0, k)).len() as i32,
        first_index: all_indices(meshes.subrange(0, k)).len() as u32,
        index_count: meshes[k].1@.len() as u32,
    }
}

/// Puts the vertices and indices of all meshes into one vertex list and one index
/// list, and says where each mesh stands in them.
pub fn batch_meshes<V>(meshes: Vec<(Vec<V>, Vec<u32>)>) -> (r: (Vec<V>, Vec<u32>, Vec<DrawRange>))
    requires
        all_vertices(meshes@).len() <= usize::MAX,
        all_indices(meshes@).len() <= usize::MAX,
    ensures
        r.0@ == all_vertices(meshes@),
        r.1@ == all_indices(meshes@),
        r.2.len() == meshes.len(),
        forall|k: int| 0 <= k < meshes.len() ==> r.2@[k] == #[trigger] draw_range_of(meshes@, k),
{
    let ghost m0 = meshes@;
    let mut vertices: Vec<V> = Vec::new();
    let mut indices: Vec<u32> = Vec::new();
    let mut ranges: Vec<DrawRange> = Vec::new();
    let mut meshes = meshes;
    let mut pending: Vec<(Vec<V>, Vec<u32>)> = Vec::new();
    while meshes.len() > 0
        invariant
            m0 == meshes@ + pending@.reverse(),
        decreases meshes.len(),
    {
        match meshes.pop() {
            Some(m) => {
                pending.push(m);
                proof {
                    assert(m0 =~= meshes@ + pending@.reverse());
                }
            },
            None => {},
        }
    }
    proof {
        assert(m0 =~= pending@.reverse());
    }
    let ghost n = m0.len();
    while pending.len() > 0
        invariant
            n == m0.len(),
            pending@.len() <= n,
            forall|j: int| 0 <= j < pending@.len() ==> #[trigger] pending@[j] == m0[n - 1 - j],
            all_vertices(m0).len() <= usize::MAX,
            all_indices(m0).len() <= usize::MAX,
            vertices@ == all_vertices(m0.subrange(0, n - pending@.len())),
            indices@ == all_indices(m0.subrange(0, n - pending@.len())),
            ranges.len() == n - pending@.len(),
            forall|k: int| 0 <= k < ranges.len() ==> ranges@[k] == #[trigger] draw_range_of(m0, k),
        decreases pending.len(),
    {
        let ghost done = n - pending@.len();
        match pending.pop() {
            Some(m) => {
                proof {
                    assert(m == m0[done]);
                    assert(m0.subrange(0, done + 1).drop_last() =~= m0.subrange(0, done));
                    lemma_all_prefix(m0, done + 1);
                }
                let (mut mesh_vertices, mut mesh_indices) = m;
                let vertex_offset = vertices.len() as i32;
                let first_index = indices.len() as u32;
                let index_count = mesh_indices.len() as u32;
                vertices.append(&mut mesh_vertices);
                indices.append(&mut mesh_indices);
                ranges.push(DrawRange { vertex_offset, first_index, index_count });
            },
            None => {},
        }
    }
    proof {
        assert(m0.subrange(0, n as int) =~= m0);
    }
    (vertices, indices, ranges)
}

/// The lists of the first `k` meshes are prefixes of the lists of all of them.
proof fn lemma_all_prefix<V>(meshes: Seq<(Vec<V>, Vec<u32>)>, k: int)
    requires
        0 <= k <= meshes.len(),
    ensures
        all_vertices(meshes.subrange(0, k)) =~= all_vertices(meshes).subrange(
            0,
            all_vertices(meshes.subrange(0, k)).len() as int,
        ),
        all_indices(meshes.subrange(0, k)) =~= all_indices(meshes).subrange(
            0,
            all_indices(meshes.subrange(0, k)).len() as int,
        ),
        all_vertices(meshes.subrange(0, k)).len() <= all_vertices(meshes).len(),
        all_indices(meshes.subrange(0, k)).len() <= all_indices(meshes).len(),
    decreases meshes.len(),
{
    if k < meshes.len() {
        assert(meshes.drop_last().subrange(0, k) =~= meshes.subrange(0, k));
        lemma_all_prefix(meshes.drop_last(), k);
    } else {
        assert(meshes.subrange(0, k) =~= meshes);
    }
}

/// With shared lists short enough that no offset is cut down, the draw range of
/// mesh `k` picks out exactly that mesh: its `j`-th index is at `first_index + j`
/// of the index list, and its `v`-th vertex at `vertex_offset + v` of the vertex
/// list.
pub proof fn lemma_draw_range_selects_mesh<V>(meshes: Seq<(Vec<V>, Vec<u32>)>, k: int)
    requires
        0 <= k < meshes.len(),
        all_vertices(meshes).len() <= i32::MAX,
        all_indices(meshes).len() <= u32::MAX,
    ensures
        forall|j: int|
            0 <= j < meshes[k].1@.len() ==> all_indices(meshes)[draw_range_of(meshes, k).first_index + j]
                == #[trigger] meshes[k].1@[j],
        forall|v: int|
            0 <= v < meshes[k].0@.len() ==> all_vertices(meshes)[draw_range_of(meshes, k).vertex_offset + v]
                == #[trigger] meshes[k].0@[v],
        draw_range_of(meshes, k).index_count == meshes[k].1@.len(),
{
    let upto = meshes.subrange(0, k + 1);
    lemma_all_prefix(meshes, k + 1);
    assert(upto.drop_last() =~= meshes.subrange(0, k));
    assert(upto.last() == meshes[k]);
    let before_i = all_indices(meshes.subrange(0, k));
    let before_v = all_vertices(meshes.subrange(0, k));
    assert(all_indices(upto) == before_i + meshes[k].1@);
    assert(all_vertices(upto) == before_v + meshes[k].0@);
    assert forall|j: int| 0 <= j < meshes[k].1@.len() implies all_indices(meshes)[draw_range_of(
        meshes,
        k,
    ).first_index + j] == #[trigger] meshes[k].1@[j] by {
        assert(all_indices(upto)[before_i.len() + j] == meshes[k].1@[j]);
    }
    assert forall|v: int| 0 <= v < meshes[k].0@.len() implies all_vertices(meshes)[draw_range_of(
        meshes,
        k,
    ).vertex_offset + v] == #[trigger] meshes[k].0@[v] by {
        assert(all_vertices(upto)[before_v.len() + v] == meshes[k].0@[v]);
    }
}

} // verus!
