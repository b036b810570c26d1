//! Ordering of items by their dependencies.
//!
//! `add_dep(a, b)` records that `a` depends on `b`. `topological_sort` lists every
//! item once, dependents before what they depend on; `dependency_sort` is its
//! reverse, dependencies first. The order is that of Kahn's algorithm: at each
//! step the earliest added item all of whose dependents are already listed comes
//! next; where no such item remains (a cycle), the earliest added item not yet
//! listed comes next, so that items on cycles are still listed.

use vstd::prelude::*;
use vstd::laws_eq::obeys_view_eq;

verus! {

/// What the sorter needs of its items: `==` compares their views and a clone
/// has the view of the value it copies.
pub open spec fn item_laws<N: PartialEq + Clone + View>() -> bool {
    &&& obeys_view_eq::<N>()
    &&& forall|a: N, b: N| #[trigger] cloned::<N>(a, b) ==> a@ == b@
}

/// `vs` with `v` appended, unless it is already there.
pub open spec fn add_vertex_spec<V>(vs: Seq<V>, v: V) -> Seq<V> {
    if vs.contains(v) {
        vs
    } else {
        vs.push(v)
    }
}

/// `vs` with each of `ws` added in turn.
pub open spec fn add_vertices_spec<V>(vs: Seq<V>, ws: Seq<V>) -> Seq<V>
    decreases ws.len(),
{
    if ws.len() == 0 {
        vs
    } else {
        add_vertices_spec(add_vertex_spec(vs, ws[0]), ws.drop_first())
    }
}

/// Adding one more item after several is adding it to the result.
pub proof fn lemma_add_vertices_push<V>(vs: Seq<V>, ws: Seq<V>, w: V)
    ensures
        add_vertices_spec(vs, ws.push(w)) == add_vertex_spec(add_vertices_spec(vs, ws), w),
    decreases ws.len(),
{
    if ws.len() == 0 {
        assert(ws.push(w).drop_first() =~= Seq::<V>::empty());
        assert(ws.push(w)[0] == w);
        assert(add_vertices_spec(vs, ws.push(w)) == add_vertices_spec(add_vertex_spec(vs, w), Seq::<V>::empty()));
    } else {
        assert(ws.push(w).drop_first() =~= ws.drop_first().push(w));
        assert(ws.push(w)[0] == ws[0]);
        lemma_add_vertices_push(add_vertex_spec(vs, ws[0]), ws.drop_first(), w);
    }
}

/// `v` is not listed yet and everything that depends on it is.
pub open spec fn is_ready<V>(deps: Set<(V, V)>, done: Set<V>, v: V) -> bool {
    !done.contains(v) && forall|u: V| #[trigger] deps.contains((u, v)) ==> done.contains(u)
}

/// The first position at or after `k` whose item is ready.
pub open spec fn first_ready_from<V>(vs: Seq<V>, deps: Set<(V, V)>, done: Set<V>, k: int) -> Option<int>
    decreases vs.len() - k,
{
    if k < 0 || k >= vs.len() {
        None
    } else if is_ready(deps, done, vs[k]) {
        Some(k)
    } else {
        first_ready_from(vs, deps, done, k + 1)
    }
}

/// The first position at or after `k` whose item is not listed yet.
pub open spec fn first_pending_from<V>(vs: Seq<V>, done: Set<V>, k: int) -> Option<int>
    decreases vs.len() - k,
{
    if k < 0 || k >= vs.len() {
        None
    } else if !done.contains(vs[k]) {
        Some(k)
    } else {
        first_pending_from(vs, done, k + 1)
    }
}

/// The position of the item listed next: the first ready one, or, if none is
/// ready, the first one not listed yet.
pub open spec fn next_pick<V>(vs: Seq<V>, deps: Set<(V, V)>, done: Set<V>) -> Option<int> {
    match first_ready_from(vs, deps, done, 0) {
        Some(i) => Some(i),
        None => first_pending_from(vs, done, 0),
    }
}

/// The next `fuel` items listed once the items `done` are listed.
pub open spec fn kahn_from<V>(vs: Seq<V>, deps: Set<(V, V)>, done: Set<V>, fuel: nat) -> Seq<V>
    decreases fuel,
{
    if fuel == 0 {
        Seq::empty()
    } else {
        match next_pick(vs, deps, done) {
            None => Seq::empty(),
            Some(i) => seq![vs[i]] + kahn_from(vs, deps, done.insert(vs[i]), (fuel - 1) as nat),
        }
    }
}

/// The order in which `topological_sort` lists the items `vs` under the dependencies `deps`.
pub open spec fn topo_order<V>(vs: Seq<V>, deps: Set<(V, V)>) -> Seq<V> {
    kahn_from(vs, deps, Set::empty(), vs.len())
}

/// A graph of items and dependencies that orders them.
#[derive(Clone)]
pub struct TopologicalSorter<N: Clone + Eq + Ord + View> {
    vertices: Vec<N>,
    edges: Vec<(usize, usize)>,
}

impl<N: Clone + Eq + Ord + View> TopologicalSorter<N> {
    /// The items, in the order they were added.
    pub closed spec fn verts(self) -> Seq<N::V> {
        self.vertices@.map_values(|v: N| v@)
    }

    /// The dependencies: `(a, b)` when `a` depends on `b`.
    pub closed spec fn deps(self) -> Set<(N::V, N::V)> {
        Set::new(
            |p: (N::V, N::V)|
                exists|j: int|
                    0 <= j < self.edges@.len() && p == (
                        self.vertices@[self.edges@[j].0 as int]@,
                        self.vertices@[self.edges@[j].1 as int]@,
                    ),
        )
    }

    /// The items are distinct and the dependencies are between items.
    pub closed spec fn wf(self) -> bool {
        &&& forall|i: int, j: int|
            0 <= i < j < self.vertices@.len() ==> self.vertices@[i]@ != self.vertices@[j]@
        &&& forall|j: int|
            0 <= j < self.edges@.len() ==> (#[trigger] self.edges@[j]).0 < self.vertices@.len()
                && self.edges@[j].1 < self.vertices@.len()
    }

    /// An empty sorter.
    pub fn new() -> (r: Self)
        ensures
            r.wf(),
            r.verts() == Seq::<N::V>::empty(),
            r.deps() == Set::<(N::V, N::V)>::empty(),
    {
        let r = TopologicalSorter { vertices: Vec::new(), edges: Vec::new() };
        assert(r.verts() =~= Seq::<N::V>::empty());
        assert(r.deps() =~= Set::<(N::V, N::V)>::empty());
        r
    }

    /// The position of an item with the view of `item`, if there is one.
    fn find(&self, item: &N) -> (r: Option<usize>)
        requires
            item_laws::<N>(),
        ensures
            match r {
                Some(i) => i < self.vertices@.len() && self.vertices@[i as int]@ == item@,
                None => !self.verts().contains(item@),
            },
    {
        let mut i: usize = 0;
        while i < self.vertices.len()
            invariant
                item_laws::<N>(),
                i <= self.vertices@.len(),
                forall|j: int| 0 <= j < i ==> self.vertices@[j]@ != item@,
            decreases self.vertices.len() - i,
        {
            proof {
                reveal(obeys_view_eq);
            }
            if self.vertices[i] == *item {
                return Some(i);
            }
            i = i + 1;
        }
        proof {
            if self.verts().contains(item@) {
                let k = choose|k: int| 0 <= k < self.verts().len() && self.verts()[k] == item@;
                assert(self.vertices@[k]@ == item@);
            }
        }
        None
    }

    /// Adds `item` unless an equal item is there; its position.
    fn insert_vertex(&mut self, item: N) -> (r: usize)
        requires
            old(self).wf(),
            item_laws::<N>(),
        ensures
            final(self).wf(),
            final(self).verts() == add_vertex_spec(old(self).verts(), item@),
            final(self).deps() == old(self).deps(),
            final(self).edges@ == old(self).edges@,
            forall|j: int| 0 <= j < old(self).vertices@.len() ==> final(self).vertices@[j] == old(self).vertices@[j],
            r < final(self).vertices@.len(),
            final(self).vertices@[r as int]@ == item@,
    {
        match self.find(&item) {
            Some(i) => {
                proof {
                    assert(self.verts()[i as int] == item@);
                }
                i
            },
            None => {
                let ghost old_self = *self;
                let n = self.vertices.len();
                self.vertices.push(item);
                proof {
                    assert(self.verts() =~= old_self.verts().push(item@));
                    assert(forall|j: int| 0 <= j < n ==> self.vertices@[j] == old_self.vertices@[j]);
                    assert forall|j: int| 0 <= j < n implies self.vertices@[j]@ != item@ by {
                        assert(old_self.verts()[j] == old_self.vertices@[j]@);
                    }
                    assert(self.deps() =~= old_self.deps()) by {
                        assert forall|p: (N::V, N::V)| self.deps().contains(p) == old_self.deps().contains(p) by {
                            if old_self.deps().contains(p) {
                                let j = choose|j: int| 0 <= j < old_self.edges@.len() && p == (
                                    old_self.vertices@[old_self.edges@[j].0 as int]@,
                                    old_self.vertices@[old_self.edges@[j].1 as int]@,
                                );
                                assert(old_self.edges@[j].0 < n);
                            }
                            if self.deps().contains(p) {
                                let j = choose|j: int| 0 <= j < self.edges@.len() && p == (
                                    self.vertices@[self.edges@[j].0 as int]@,
                                    self.vertices@[self.edges@[j].1 as int]@,
                                );
                                assert(self.edges@[j] == old_self.edges@[j]);
                            }
                        }
                    }
                }
                n
            },
        }
    }

    /// Adds an item without dependencies, unless an equal item is there.
    pub fn add_vertex(&mut self, item: N)
        requires
            old(self).wf(),
            item_laws::<N>(),
        ensures
            final(self).wf(),
            final(self).verts() == add_vertex_spec(old(self).verts(), item@),
            final(self).deps() == old(self).deps(),
    {
        let _ = self.insert_vertex(item);
    }

    /// Records that `from` depends on `to`, adding `from` and then `to` as items
    /// where they are not there.
    pub fn add_dep(&mut self, from: N, to: N)
        requires
            old(self).wf(),
            item_laws::<N>(),
        ensures
            final(self).wf(),
            final(self).verts() == add_vertex_spec(add_vertex_spec(old(self).verts(), from@), to@),
            final(self).deps() == old(self).deps().insert((from@, to@)),
    {
        let ghost fv = from@;
        let ghost tv = to@;
        let f = self.insert_vertex(from);
        let t = self.insert_vertex(to);
        let ghost before = *self;
        self.edges.push((f, t));
        proof {
            assert(self.verts() == before.verts());
            assert(self.deps() =~= before.deps().insert((fv, tv))) by {
                assert forall|p: (N::V, N::V)| self.deps().contains(p) == before.deps().insert((fv, tv)).contains(p) by {
                    let k = before.edges@.len() as int;
                    if p == (fv, tv) {
                        assert(self.edges@[k] == (f, t));
                    }
                    if before.deps().contains(p) {
                        let j = choose|j: int| 0 <= j < before.edges@.len() && p == (
                            before.vertices@[before.edges@[j].0 as int]@,
                            before.vertices@[before.edges@[j].1 as int]@,
                        );
                        assert(self.edges@[j] == before.edges@[j]);
                    }
                    if self.deps().contains(p) {
                        let j = choose|j: int| 0 <= j < self.edges@.len() && p == (
                            self.vertices@[self.edges@[j].0 as int]@,
                            self.vertices@[self.edges@[j].1 as int]@,
                        );
                        if j < k {
                            assert(self.edges@[j] == before.edges@[j]);
                        }
                    }
                }
            }
        }
    }

    /// Records that `from` depends on each of `tos`, as `add_dep` does for each
    /// in turn; nothing changes when `tos` is empty.
    pub fn add_deps(&mut self, from: N, tos: Vec<N>)
        requires
            old(self).wf(),
            item_laws::<N>(),
        ensures
            final(self).wf(),
            tos@.len() == 0 ==> final(self).verts() == old(self).verts(),
            tos@.len() > 0 ==> final(self).verts() == add_vertices_spec(
                add_vertex_spec(old(self).verts(), from@),
                tos@.map_values(|v: N| v@),
            ),
            final(self).deps() == old(self).deps().union(
                Set::new(|p: (N::V, N::V)| exists|k: int| 0 <= k < tos@.len() && p == (from@, #[trigger] tos@[k]@)),
            ),
    {
        let ghost old_self = *self;
        let ghost tv = tos@.map_values(|v: N| v@);
        let ghost fv = from@;
        if tos.len() == 0 {
            assert(self.deps() =~= old_self.deps().union(
                Set::new(|p: (N::V, N::V)| exists|k: int| 0 <= k < tos@.len() && p == (from@, #[trigger] tos@[k]@)),
            ));
            return;
        }
        let f = self.insert_vertex(from);
        let ghost base = self.verts();
        let mut k: usize = 0;
        let mut tos = tos;
        let ghost all_tos = tos@;
        assert(add_vertices_spec(base, tv.take(0)) == base) by {
            assert(tv.take(0).len() == 0);
        }
        while tos.len() > 0
            invariant
                self.wf(),
                item_laws::<N>(),
                f < self.vertices@.len(),
                self.vertices@[f as int]@ == fv,
                k + tos@.len() == all_tos.len(),
                all_tos.len() <= usize::MAX,
                tv == all_tos.map_values(|v: N| v@),
                tos@ == all_tos.subrange(k as int, all_tos.len() as int),
                self.verts() == add_vertices_spec(base, tv.take(k as int)),
                self.deps() == old_self.deps().union(
                    Set::new(|p: (N::V, N::V)| exists|j: int| 0 <= j < k && p == (fv, #[trigger] all_tos[j]@)),
                ),
            decreases tos.len(),
        {
            let to = tos.remove(0);
            let ghost tov = to@;
            assert(to == all_tos[k as int]);
            let ghost before = *self;
            let t = self.insert_vertex(to);
            let ghost mid = *self;
            self.edges.push((f, t));
            proof {
                assert(self.vertices@[f as int] == before.vertices@[f as int]);
                lemma_add_vertices_push(base, tv.take(k as int), tov);
                assert(tv.take(k + 1) =~= tv.take(k as int).push(tov));
                assert(self.verts() == mid.verts());
                let newset = Set::new(|p: (N::V, N::V)| exists|j: int| 0 <= j < k + 1 && p == (fv, #[trigger] all_tos[j]@));
                let oldset = Set::new(|p: (N::V, N::V)| exists|j: int| 0 <= j < k && p == (fv, #[trigger] all_tos[j]@));
                assert(self.deps() =~= old_self.deps().union(newset)) by {
                    assert forall|p: (N::V, N::V)| self.deps().contains(p) == old_self.deps().union(newset).contains(p) by {
                        let m = mid.edges@.len() as int;
                        if p == (fv, tov) {
                            assert(self.edges@[m] == (f, t));
                            assert(newset.contains(p)) by { assert(p == (fv, all_tos[k as int]@)); }
                        }
                        if mid.deps().contains(p) {
                            let j = choose|j: int| 0 <= j < mid.edges@.len() && p == (
                                mid.vertices@[mid.edges@[j].0 as int]@,
                                mid.vertices@[mid.edges@[j].1 as int]@,
                            );
                            assert(self.edges@[j] == mid.edges@[j]);
                        }
                        if self.deps().contains(p) {
                            let j = choose|j: int| 0 <= j < self.edges@.len() && p == (
                                self.vertices@[self.edges@[j].0 as int]@,
                                self.vertices@[self.edges@[j].1 as int]@,
                            );
                            if j < m {
                                assert(self.edges@[j] == mid.edges@[j]);
                                assert(mid.deps().contains(p));
                            } else {
                                assert(p == (fv, tov));
                            }
                        }
                        if newset.contains(p) {
                            let j = choose|j: int| 0 <= j < k + 1 && p == (fv, #[trigger] all_tos[j]@);
                            if j < k {
                                assert(oldset.contains(p));
                            } else {
                                assert(p == (fv, tov));
                            }
                        }
                        if oldset.contains(p) {
                            let j = choose|j: int| 0 <= j < k && p == (fv, #[trigger] all_tos[j]@);
                            assert(newset.contains(p));
                        }
                    }
                }
                assert(tos@ =~= all_tos.subrange(k + 1, all_tos.len() as int));
            }
            k = k + 1;
        }
        proof {
            assert(tv.take(k as int) =~= tv);
            assert(all_tos == tos@.take(0) + all_tos) by { assert(all_tos =~= all_tos); }
        }
    }

    /// Whether the item at `i` is ready: not listed and all its dependents listed.
    fn ready_at(&self, done: &Vec<bool>, i: usize, Ghost(dset): Ghost<Set<N::V>>) -> (r: bool)
        requires
            self.wf(),
            i < self.vertices@.len(),
            done@.len() == self.vertices@.len(),
            forall|a: int| 0 <= a < self.vertices@.len() ==> done@[a] == dset.contains(#[trigger] self.verts()[a]),
        ensures
            r == is_ready(self.deps(), dset, self.verts()[i as int]),
    {
        assert(self.verts()[i as int] == self.vertices@[i as int]@);
        if done[i] {
            return false;
        }
        let mut j: usize = 0;
        while j < self.edges.len()
            invariant
                self.wf(),
                i < self.vertices@.len(),
                j <= self.edges@.len(),
                done@.len() == self.vertices@.len(),
                forall|a: int| 0 <= a < self.vertices@.len() ==> done@[a] == dset.contains(#[trigger] self.verts()[a]),
                forall|k: int| 0 <= k < j && (#[trigger] self.edges@[k]).1 == i ==> done@[self.edges@[k].0 as int],
            decreases self.edges.len() - j,
        {
            let (a, b) = self.edges[j];
            if b == i && !done[a] {
                proof {
                    let u = self.vertices@[a as int]@;
                    assert(self.verts()[a as int] == u);
                    assert(self.deps().contains((u, self.verts()[i as int])));
                }
                return false;
            }
            j = j + 1;
        }
        proof {
            let v = self.verts()[i as int];
            assert forall|u: N::V| #[trigger] self.deps().contains((u, v)) implies dset.contains(u) by {
                let k = choose|k: int| 0 <= k < self.edges@.len() && (u, v) == (
                    self.vertices@[self.edges@[k].0 as int]@,
                    self.vertices@[self.edges@[k].1 as int]@,
                );
                let b = self.edges@[k].1 as int;
                if b != i {
                    if b < i {
                        assert(self.vertices@[b]@ != self.vertices@[i as int]@);
                    } else {
                        assert(self.vertices@[i as int]@ != self.vertices@[b]@);
                    }
                }
                assert(self.verts()[self.edges@[k].0 as int] == u);
            }
        }
        true
    }

    /// The position `next_pick` chooses.
    fn pick(&self, done: &Vec<bool>, Ghost(dset): Ghost<Set<N::V>>) -> (r: Option<usize>)
        requires
            self.wf(),
            done@.len() == self.vertices@.len(),
            forall|a: int| 0 <= a < self.vertices@.len() ==> done@[a] == dset.contains(#[trigger] self.verts()[a]),
        ensures
            match next_pick(self.verts(), self.deps(), dset) {
                Some(i) => r == Some(i as usize) && 0 <= i < self.vertices@.len(),
                None => r is None,
            },
    {
        let n = self.vertices.len();
        let mut i: usize = 0;
        while i < n
            invariant
                self.wf(),
                n == self.vertices@.len(),
                i <= n,
                done@.len() == n,
                forall|a: int| 0 <= a < n ==> done@[a] == dset.contains(#[trigger] self.verts()[a]),
                first_ready_from(self.verts(), self.deps(), dset, 0) == first_ready_from(self.verts(), self.deps(), dset, i as int),
            decreases n - i,
        {
            if self.ready_at(done, i, Ghost(dset)) {
                return Some(i);
            }
            i = i + 1;
        }
        let mut i: usize = 0;
        while i < n
            invariant
                n == self.vertices@.len(),
                i <= n,
                done@.len() == n,
                forall|a: int| 0 <= a < n ==> done@[a] == dset.contains(#[trigger] self.verts()[a]),
                first_ready_from(self.verts(), self.deps(), dset, 0) is None,
                first_pending_from(self.verts(), dset, 0) == first_pending_from(self.verts(), dset, i as int),
            decreases n - i,
        {
            if !done[i] {
                return Some(i);
            }
            i = i + 1;
        }
        None
    }

    /// The positions of the items in the order of `topo_order`.
    fn order_positions(&self) -> (r: Vec<usize>)
        requires
            self.wf(),
        ensures
            forall|k: int| 0 <= k < r@.len() ==> r@[k] < self.vertices@.len(),
            r@.map_values(|i: usize| self.verts()[i as int]) == topo_order(self.verts(), self.deps()),
    {
        let n = self.vertices.len();
        let mut done: Vec<bool> = Vec::new();
        let mut m: usize = 0;
        while m < n
            invariant
                m <= n,
                done@.len() == m,
                forall|a: int| 0 <= a < m ==> !done@[a],
            decreases n - m,
        {
            done.push(false);
            m = m + 1;
        }
        let ghost vs = self.verts();
        let ghost deps = self.deps();
        let ghost mut dset: Set<N::V> = Set::empty();
        let mut order: Vec<usize> = Vec::new();
        proof {
            assert(vs.len() == n);
            assert(order@.map_values(|i: usize| vs[i as int]) =~= Seq::<N::V>::empty());
            assert(Seq::<N::V>::empty() + kahn_from(vs, deps, dset, n as nat) =~= kahn_from(vs, deps, dset, n as nat));
        }
        while order.len() < n
            invariant
                self.wf(),
                vs == self.verts(),
                deps == self.deps(),
                n == self.vertices@.len(),
                order@.len() <= n,
                done@.len() == n,
                forall|a: int| 0 <= a < n ==> done@[a] == dset.contains(#[trigger] self.verts()[a]),
                forall|k: int| 0 <= k < order@.len() ==> order@[k] < n,
                topo_order(vs, deps) == order@.map_values(|i: usize| vs[i as int]) + kahn_from(
                    vs,
                    deps,
                    dset,
                    (n - order@.len()) as nat,
                ),
            decreases n - order@.len(),
        {
            match self.pick(&done, Ghost(dset)) {
                None => {
                    proof {
                        assert(kahn_from(vs, deps, dset, (n - order@.len()) as nat) =~= Seq::<N::V>::empty());
                        assert(order@.map_values(|i: usize| vs[i as int]) + Seq::<N::V>::empty()
                            =~= order@.map_values(|i: usize| vs[i as int]));
                    }
                    return order;
                },
                Some(i) => {
                    let ghost old_order = order@;
                    let ghost fuel = (n - order@.len()) as nat;
                    let ghost rest = kahn_from(vs, deps, dset.insert(vs[i as int]), (fuel - 1) as nat);
                    order.push(i);
                    done.set(i, true);
                    proof {
                        assert(kahn_from(vs, deps, dset, fuel) == seq![vs[i as int]] + rest);
                        assert(order@.map_values(|i: usize| vs[i as int]) =~= old_order.map_values(|i: usize| vs[i as int]).push(vs[i as int]));
                        assert(old_order.map_values(|i: usize| vs[i as int]) + (seq![vs[i as int]] + rest)
                            =~= old_order.map_values(|i: usize| vs[i as int]).push(vs[i as int]) + rest);
                        dset = dset.insert(vs[i as int]);
                        assert forall|a: int| 0 <= a < n implies done@[a] == dset.contains(#[trigger] self.verts()[a]) by {
                            if a != i {
                                if a < i {
                                    assert(self.vertices@[a]@ != self.vertices@[i as int]@);
                                } else {
                                    assert(self.vertices@[i as int]@ != self.vertices@[a]@);
                                }
                            }
                        }
                    }
                },
            }
        }
        proof {
            assert(kahn_from(vs, deps, dset, 0) =~= Seq::<N::V>::empty());
            assert(order@.map_values(|i: usize| vs[i as int]) + Seq::<N::V>::empty()
                =~= order@.map_values(|i: usize| vs[i as int]));
        }
        order
    }

    /// Every item once, in the order of `topo_order`: dependents before what
    /// they depend on.
    pub fn topological_sort(&self) -> (r: Vec<N>)
        requires
            self.wf(),
            item_laws::<N>(),
        ensures
            r@.map_values(|v: N| v@) == topo_order(self.verts(), self.deps()),
    {
        let order = self.order_positions();
        let mut r: Vec<N> = Vec::new();
        let mut k: usize = 0;
        while k < order.len()
            invariant
                item_laws::<N>(),
                k <= order@.len(),
                forall|j: int| 0 <= j < order@.len() ==> order@[j] < self.vertices@.len(),
                r@.map_values(|v: N| v@) == order@.take(k as int).map_values(|i: usize| self.verts()[i as int]),
            decreases order.len() - k,
        {
            let c = self.vertices[order[k]].clone();
            let ghost old_r = r@;
            proof {
                assert(cloned::<N>(self.vertices@[order@[k as int] as int], c));
                assert(c@ == self.vertices@[order@[k as int] as int]@);
                assert(c@ == self.verts()[order@[k as int] as int]);
                assert(order@.take(k + 1) =~= order@.take(k as int).push(order@[k as int]));
            }
            r.push(c);
            proof {
                assert(r@ == old_r.push(c));
                assert(r@.map_values(|v: N| v@) =~= old_r.map_values(|v: N| v@).push(c@));
                assert(r@.map_values(|v: N| v@) =~= order@.take(k + 1).map_values(|i: usize| self.verts()[i as int]));
            }
            k = k + 1;
        }
        assert(order@.take(order@.len() as int) =~= order@);
        r
    }

    /// Every item once, in the reverse of `topo_order`: dependencies before what
    /// depends on them.
    pub fn dependency_sort(&self) -> (r: Vec<N>)
        requires
            self.wf(),
            item_laws::<N>(),
        ensures
            r@.map_values(|v: N| v@) == topo_order(self.verts(), self.deps()).reverse(),
    {
        let mut result = self.topological_sort();
        let ghost fwd = result@.map_values(|v: N| v@);
        let mut r: Vec<N> = Vec::new();
        while result.len() > 0
            invariant
                fwd.len() == result@.len() + r@.len(),
                result@.map_values(|v: N| v@) == fwd.take(result@.len() as int),
                r@.map_values(|v: N| v@) == fwd.reverse().take(r@.len() as int),
            decreases result.len(),
        {
            let ghost k = result@.len();
            let ghost old_result = result@;
            let x = result.pop().unwrap();
            proof {
                assert(x == old_result[k - 1]);
                assert(old_result.map_values(|v: N| v@)[k - 1] == x@);
                assert(fwd.take(k as int)[k - 1] == fwd[k - 1]);
                assert(x@ == fwd[k - 1]);
            }
            r.push(x);
            proof {
                assert(result@.map_values(|v: N| v@) =~= fwd.take(result@.len() as int));
                assert(r@.map_values(|v: N| v@) =~= fwd.reverse().take(r@.len() as int));
            }
        }
        assert(fwd.reverse().take(fwd.len() as int) =~= fwd.reverse());
        r
    }
}

} // verus!

verus! {

// ---------------------------------------------------------------------------
// Laws of the order
// ---------------------------------------------------------------------------

/// Each step of `path` is a dependency.
pub open spec fn is_dep_path<V>(deps: Set<(V, V)>, path: Seq<V>) -> bool {
    forall|i: int| 0 <= i < path.len() - 1 ==> #[trigger] deps.contains((path[i], path[i + 1]))
}

/// No chain of dependencies leads from an item back to itself.
pub open spec fn acyclic<V>(deps: Set<(V, V)>) -> bool {
    forall|path: Seq<V>| path.len() >= 2 && #[trigger] is_dep_path(deps, path) ==> path[0] != path.last()
}

/// Every dependency is between items of `vs`.
pub open spec fn deps_within<V>(vs: Seq<V>, deps: Set<(V, V)>) -> bool {
    forall|u: V, v: V| #[trigger] deps.contains((u, v)) ==> vs.contains(u) && vs.contains(v)
}

proof fn lemma_first_ready_some<V>(vs: Seq<V>, deps: Set<(V, V)>, done: Set<V>, k: int)
    requires
        k >= 0,
    ensures
        first_ready_from(vs, deps, done, k) matches Some(i) ==> k <= i < vs.len() && is_ready(deps, done, vs[i]),
        first_ready_from(vs, deps, done, k) is None ==> forall|j: int| k <= j < vs.len() ==> !is_ready(deps, done, #[trigger] vs[j]),
    decreases vs.len() - k,
{
    if 0 <= k < vs.len() {
        lemma_first_ready_some(vs, deps, done, k + 1);
    }
}

proof fn lemma_first_pending_some<V>(vs: Seq<V>, done: Set<V>, k: int)
    requires
        k >= 0,
    ensures
        first_pending_from(vs, done, k) matches Some(i) ==> k <= i < vs.len() && !done.contains(vs[i]),
        first_pending_from(vs, done, k) is None ==> forall|j: int| k <= j < vs.len() ==> done.contains(#[trigger] vs[j]),
    decreases vs.len() - k,
{
    if 0 <= k < vs.len() {
        lemma_first_pending_some(vs, done, k + 1);
    }
}

/// The pick is an item not yet listed, whenever one is left.
proof fn lemma_next_pick<V>(vs: Seq<V>, deps: Set<(V, V)>, done: Set<V>)
    ensures
        next_pick(vs, deps, done) matches Some(i) ==> 0 <= i < vs.len() && !done.contains(vs[i]),
        next_pick(vs, deps, done) is None ==> forall|j: int| 0 <= j < vs.len() ==> done.contains(#[trigger] vs[j]),
        first_ready_from(vs, deps, done, 0) matches Some(i) ==> is_ready(deps, done, vs[i]),
{
    lemma_first_ready_some(vs, deps, done, 0);
    lemma_first_pending_some(vs, done, 0);
    if first_ready_from(vs, deps, done, 0) is None {
        if first_pending_from(vs, done, 0) is None {
        }
    }
}

/// A subset of the items of `vs` as large as `vs` holds all of them.
proof fn lemma_full_subset<V>(vs: Seq<V>, done: Set<V>)
    requires
        vs.no_duplicates(),
        done.subset_of(vs.to_set()),
        done.finite(),
        done.len() >= vs.len(),
    ensures
        forall|j: int| 0 <= j < vs.len() ==> done.contains(#[trigger] vs[j]),
{
    vs.unique_seq_to_set();
    assert forall|j: int| 0 <= j < vs.len() implies done.contains(#[trigger] vs[j]) by {
        if !done.contains(vs[j]) {
            let t = vs.to_set().remove(vs[j]);
            assert(done.subset_of(t));
            vstd::set_lib::lemma_len_subset(done, t);
        }
    }
}

/// `kahn_from` lists, without repeating, exactly the items not listed yet.
proof fn lemma_kahn_from_permutation<V>(vs: Seq<V>, deps: Set<(V, V)>, done: Set<V>, fuel: nat)
    requires
        vs.no_duplicates(),
        done.subset_of(vs.to_set()),
        done.finite(),
        done.len() + fuel == vs.len(),
    ensures
        kahn_from(vs, deps, done, fuel).len() == fuel,
        kahn_from(vs, deps, done, fuel).no_duplicates(),
        forall|v: V| #[trigger] kahn_from(vs, deps, done, fuel).contains(v) <==> (vs.contains(v) && !done.contains(v)),
    decreases fuel,
{
    let r = kahn_from(vs, deps, done, fuel);
    lemma_next_pick(vs, deps, done);
    if fuel == 0 {
        lemma_full_subset(vs, done);
        assert forall|v: V| r.contains(v) <==> (vs.contains(v) && !done.contains(v)) by {
            if vs.contains(v) {
                let j = choose|j: int| 0 <= j < vs.len() && vs[j] == v;
                assert(done.contains(vs[j]));
            }
        }
    } else {
        match next_pick(vs, deps, done) {
            None => {
                assert(vs.to_set().subset_of(done)) by {
                    assert forall|v: V| vs.to_set().contains(v) implies done.contains(v) by {
                        let j = choose|j: int| 0 <= j < vs.len() && vs[j] == v;
                        assert(done.contains(vs[j]));
                    }
                }
                vs.unique_seq_to_set();
                vstd::set_lib::lemma_len_subset(vs.to_set(), done);
                assert(false);
            },
            Some(i) => {
                let w = vs[i];
                let done2 = done.insert(w);
                assert(vs.to_set().contains(w));
                lemma_kahn_from_permutation(vs, deps, done2, (fuel - 1) as nat);
                let rest = kahn_from(vs, deps, done2, (fuel - 1) as nat);
                assert(r == seq![w] + rest);
                assert(!rest.contains(w));
                assert forall|a: int, b: int| 0 <= a < r.len() && 0 <= b < r.len() && a != b implies r[a] != r[b] by {
                    if a == 0 {
                        assert(r[b] == rest[b - 1]);
                    } else if b == 0 {
                        assert(r[a] == rest[a - 1]);
                    } else {
                        assert(r[a] == rest[a - 1] && r[b] == rest[b - 1]);
                    }
                }
                assert forall|v: V| r.contains(v) <==> (vs.contains(v) && !done.contains(v)) by {
                    if r.contains(v) {
                        let j = choose|j: int| 0 <= j < r.len() && r[j] == v;
                        if j > 0 {
                            assert(rest.contains(r[j])) by { assert(rest[j - 1] == r[j]); }
                        }
                    }
                    if vs.contains(v) && !done.contains(v) {
                        if v == w {
                            assert(r[0] == v);
                        } else {
                            assert(rest.contains(v));
                            let j = choose|j: int| 0 <= j < rest.len() && rest[j] == v;
                            assert(r[j + 1] == v);
                        }
                    }
                }
            },
        }
    }
}

/// `topo_order` lists every item of `vs` exactly once.
pub proof fn lemma_topo_order_lists_each_item_once<V>(vs: Seq<V>, deps: Set<(V, V)>)
    requires
        vs.no_duplicates(),
    ensures
        topo_order(vs, deps).len() == vs.len(),
        topo_order(vs, deps).no_duplicates(),
        forall|v: V| #[trigger] topo_order(vs, deps).contains(v) <==> vs.contains(v),
{
    lemma_kahn_from_permutation(vs, deps, Set::empty(), vs.len());
}

} // verus!

verus! {

/// A dependent of `v` that is not listed yet.
spec fn pending_dependent<V>(deps: Set<(V, V)>, done: Set<V>, v: V) -> V {
    choose|u: V| deps.contains((u, v)) && !done.contains(u)
}

/// Going back `m` steps from `v` through pending dependents.
spec fn back_walk<V>(deps: Set<(V, V)>, done: Set<V>, v: V, m: nat) -> Seq<V>
    decreases m,
{
    if m == 0 {
        seq![v]
    } else {
        back_walk(deps, done, pending_dependent(deps, done, v), (m - 1) as nat).push(v)
    }
}

proof fn lemma_back_walk<V>(vs: Seq<V>, deps: Set<(V, V)>, done: Set<V>, v: V, m: nat)
    requires
        deps_within(vs, deps),
        forall|w: V| vs.contains(w) && !done.contains(w) ==> exists|u: V| #[trigger] deps.contains((u, w)) && !done.contains(u),
        vs.contains(v),
        !done.contains(v),
    ensures
        back_walk(deps, done, v, m).len() == m + 1,
        back_walk(deps, done, v, m).last() == v,
        is_dep_path(deps, back_walk(deps, done, v, m)),
        forall|k: int| 0 <= k < m + 1 ==> vs.contains(#[trigger] back_walk(deps, done, v, m)[k]) && !done.contains(back_walk(deps, done, v, m)[k]),
    decreases m,
{
    if m > 0 {
        let u = pending_dependent(deps, done, v);
        assert(deps.contains((u, v)) && !done.contains(u));
        lemma_back_walk(vs, deps, done, u, (m - 1) as nat);
        let w0 = back_walk(deps, done, u, (m - 1) as nat);
        let w = w0.push(v);
        assert(w == back_walk(deps, done, v, m));
        assert forall|i: int| 0 <= i < w.len() - 1 implies #[trigger] deps.contains((w[i], w[i + 1])) by {
            if i < w0.len() - 1 {
                assert(deps.contains((w0[i], w0[i + 1])));
            } else {
                assert(w[i] == u);
            }
        }
        assert forall|k: int| 0 <= k < m + 1 implies vs.contains(#[trigger] w[k]) && !done.contains(w[k]) by {
            if k < m {
                assert(w[k] == w0[k]);
            }
        }
    }
}

/// A sequence longer than `vs` whose items all come from `vs` repeats an item.
proof fn lemma_pigeonhole<V>(vs: Seq<V>, walk: Seq<V>)
    requires
        walk.len() > vs.len(),
        forall|k: int| 0 <= k < walk.len() ==> vs.contains(#[trigger] walk[k]),
    ensures
        !walk.no_duplicates(),
{
    if walk.no_duplicates() {
        walk.unique_seq_to_set();
        vs.lemma_cardinality_of_set();
        assert(walk.to_set().subset_of(vs.to_set())) by {
            assert forall|x: V| walk.to_set().contains(x) implies vs.to_set().contains(x) by {
                let k = choose|k: int| 0 <= k < walk.len() && walk[k] == x;
                assert(vs.contains(walk[k]));
            }
        }
        vstd::set_lib::lemma_len_subset(walk.to_set(), vs.to_set());
    }
}

/// A chain of dependencies that repeats an item holds a cycle.
proof fn lemma_repeat_is_cycle<V>(deps: Set<(V, V)>, walk: Seq<V>)
    requires
        is_dep_path(deps, walk),
        !walk.no_duplicates(),
    ensures
        !acyclic(deps),
{
    let (a, b) = choose|a: int, b: int| 0 <= a < walk.len() && 0 <= b < walk.len() && a != b && walk[a] == walk[b];
    let lo = if a < b { a } else { b };
    let hi = if a < b { b } else { a };
    let cyc = walk.subrange(lo, hi + 1);
    assert forall|i: int| 0 <= i < cyc.len() - 1 implies #[trigger] deps.contains((cyc[i], cyc[i + 1])) by {
        assert(cyc[i] == walk[lo + i] && cyc[i + 1] == walk[lo + i + 1]);
        assert(deps.contains((walk[lo + i], walk[lo + i + 1])));
    }
    assert(is_dep_path(deps, cyc));
    assert(cyc[0] == cyc.last());
}

/// Where no item is ready, every item left has a dependent that is left.
proof fn lemma_none_ready<V>(vs: Seq<V>, deps: Set<(V, V)>, done: Set<V>)
    requires
        first_ready_from(vs, deps, done, 0) is None,
    ensures
        forall|w: V| vs.contains(w) && !done.contains(w) ==> exists|u: V| #[trigger] deps.contains((u, w)) && !done.contains(u),
{
    lemma_first_ready_some(vs, deps, done, 0);
    assert forall|w: V| vs.contains(w) && !done.contains(w) implies exists|u: V| #[trigger] deps.contains((u, w)) && !done.contains(u) by {
        let j = choose|j: int| 0 <= j < vs.len() && vs[j] == w;
        assert(!is_ready(deps, done, vs[j]));
    }
}

/// Without cycles, while items are left some item is ready.
proof fn lemma_ready_exists<V>(vs: Seq<V>, deps: Set<(V, V)>, done: Set<V>, p: int)
    requires
        deps_within(vs, deps),
        acyclic(deps),
        0 <= p < vs.len(),
        !done.contains(vs[p]),
    ensures
        first_ready_from(vs, deps, done, 0) is Some,
{
    if first_ready_from(vs, deps, done, 0) is None {
        lemma_none_ready(vs, deps, done);
        let walk = back_walk(deps, done, vs[p], vs.len());
        lemma_back_walk(vs, deps, done, vs[p], vs.len());
        lemma_pigeonhole(vs, walk);
        lemma_repeat_is_cycle(deps, walk);
    }
}

/// Without cycles, every dependent of an item is listed before it (or was
/// listed already).
proof fn lemma_kahn_from_ready<V>(vs: Seq<V>, deps: Set<(V, V)>, done: Set<V>, fuel: nat)
    requires
        vs.no_duplicates(),
        deps_within(vs, deps),
        acyclic(deps),
        done.subset_of(vs.to_set()),
        done.finite(),
        done.len() + fuel == vs.len(),
    ensures
        forall|k: int, u: V|
            0 <= k < kahn_from(vs, deps, done, fuel).len() && #[trigger] deps.contains((u, kahn_from(vs, deps, done, fuel)[k]))
                ==> done.contains(u) || kahn_from(vs, deps, done, fuel).take(k).contains(u),
    decreases fuel,
{
    let r = kahn_from(vs, deps, done, fuel);
    lemma_next_pick(vs, deps, done);
    if fuel > 0 {
        match next_pick(vs, deps, done) {
            None => {},
            Some(i) => {
                lemma_ready_exists(vs, deps, done, i);
                let j = first_ready_from(vs, deps, done, 0)->0;
                assert(i == j);
                let w = vs[i];
                let done2 = done.insert(w);
                assert(vs.to_set().contains(w));
                lemma_kahn_from_ready(vs, deps, done2, (fuel - 1) as nat);
                let rest = kahn_from(vs, deps, done2, (fuel - 1) as nat);
                assert(r == seq![w] + rest);
                assert forall|k: int, u: V| 0 <= k < r.len() && #[trigger] deps.contains((u, r[k])) implies done.contains(u)
                    || r.take(k).contains(u) by {
                    if k == 0 {
                        assert(is_ready(deps, done, w));
                    } else {
                        assert(r[k] == rest[k - 1]);
                        assert(deps.contains((u, rest[k - 1])));
                        if u == w {
                            assert(r.take(k)[0] == w);
                        } else if !done.contains(u) {
                            assert(rest.take(k - 1).contains(u));
                            let rt = rest.take(k - 1);
                            let m = choose|m: int| 0 <= m < rt.len() && #[trigger] rt[m] == u;
                            assert(r.take(k)[m + 1] == u);
                        }
                    }
                }
            },
        }
    }
}

/// Without cycles, `topo_order` puts every item before the items it depends on.
pub proof fn lemma_topo_order_respects_deps<V>(vs: Seq<V>, deps: Set<(V, V)>)
    requires
        vs.no_duplicates(),
        deps_within(vs, deps),
        acyclic(deps),
    ensures
        forall|i: int, j: int|
            0 <= i < topo_order(vs, deps).len() && 0 <= j < topo_order(vs, deps).len() && #[trigger] deps.contains(
                (topo_order(vs, deps)[i], topo_order(vs, deps)[j]),
            ) ==> i < j,
{
    let r = topo_order(vs, deps);
    lemma_kahn_from_permutation(vs, deps, Set::empty(), vs.len());
    lemma_kahn_from_ready(vs, deps, Set::empty(), vs.len());
    assert forall|i: int, j: int| 0 <= i < r.len() && 0 <= j < r.len() && #[trigger] deps.contains((r[i], r[j])) implies i < j by {
        assert(r.take(j).contains(r[i]));
        let rt = r.take(j);
        let m = choose|m: int| 0 <= m < rt.len() && #[trigger] rt[m] == r[i];
        assert(r[m] == r[i]);
    }
}

} // verus!

verus! {

impl<N: Clone + Eq + Ord + View> TopologicalSorter<N> {
    /// The items of a well-formed sorter are distinct and its dependencies are
    /// between its items.
    pub proof fn lemma_wf_graph(self)
        requires
            self.wf(),
        ensures
            self.verts().no_duplicates(),
            deps_within(self.verts(), self.deps()),
    {
        assert forall|i: int, j: int| 0 <= i < self.verts().len() && 0 <= j < self.verts().len() && i != j
            implies self.verts()[i] != self.verts()[j] by {
            if i < j {
                assert(self.vertices@[i]@ != self.vertices@[j]@);
            } else {
                assert(self.vertices@[j]@ != self.vertices@[i]@);
            }
        }
        assert forall|u: N::V, v: N::V| #[trigger] self.deps().contains((u, v)) implies self.verts().contains(u)
            && self.verts().contains(v) by {
            let k = choose|k: int| 0 <= k < self.edges@.len() && (u, v) == (
                self.vertices@[self.edges@[k].0 as int]@,
                self.vertices@[self.edges@[k].1 as int]@,
            );
            assert(self.verts()[self.edges@[k].0 as int] == u);
            assert(self.verts()[self.edges@[k].1 as int] == v);
        }
    }
}

/// `topological_sort` lists every item of the sorter exactly once, whatever the
/// dependencies, cycles included; so does `dependency_sort`, in reverse.
pub proof fn law_sort_lists_each_item_once<N: Clone + Eq + Ord + View>(g: TopologicalSorter<N>)
    requires
        g.wf(),
    ensures
        topo_order(g.verts(), g.deps()).len() == g.verts().len(),
        topo_order(g.verts(), g.deps()).no_duplicates(),
        forall|v: N::V| #[trigger] topo_order(g.verts(), g.deps()).contains(v) <==> g.verts().contains(v),
{
    g.lemma_wf_graph();
    lemma_topo_order_lists_each_item_once(g.verts(), g.deps());
}

/// Where the dependencies hold no cycle, `topological_sort` puts every item before
/// the items it depends on, and `dependency_sort` puts every item after them.
pub proof fn law_sort_respects_deps<N: Clone + Eq + Ord + View>(g: TopologicalSorter<N>)
    requires
        g.wf(),
        acyclic(g.deps()),
    ensures
        forall|i: int, j: int|
            0 <= i < topo_order(g.verts(), g.deps()).len() && 0 <= j < topo_order(g.verts(), g.deps()).len()
                && #[trigger] g.deps().contains((topo_order(g.verts(), g.deps())[i], topo_order(g.verts(), g.deps())[j]))
                ==> i < j,
        forall|i: int, j: int|
            0 <= i < topo_order(g.verts(), g.deps()).len() && 0 <= j < topo_order(g.verts(), g.deps()).len()
                && #[trigger] g.deps().contains((topo_order(g.verts(), g.deps()).reverse()[i], topo_order(g.verts(), g.deps()).reverse()[j]))
                ==> j < i,
{
    g.lemma_wf_graph();
    lemma_topo_order_respects_deps(g.verts(), g.deps());
    let r = topo_order(g.verts(), g.deps());
    assert forall|i: int, j: int| 0 <= i < r.len() && 0 <= j < r.len() && #[trigger] g.deps().contains((r.reverse()[i], r.reverse()[j]))
        implies j < i by {
        assert(r.reverse()[i] == r[r.len() - 1 - i]);
        assert(r.reverse()[j] == r[r.len() - 1 - j]);
        assert(g.deps().contains((r[r.len() - 1 - i], r[r.len() - 1 - j])));
    }
}

/// The items and dependencies after `add_dep(from, t)` for each `t` of `ts` in
/// turn, from the items `vs` and dependencies `deps`, as `add_dep` states it.
pub open spec fn add_dep_steps<V>(vs: Seq<V>, deps: Set<(V, V)>, from: V, ts: Seq<V>) -> (Seq<V>, Set<(V, V)>)
    decreases ts.len(),
{
    if ts.len() == 0 {
        (vs, deps)
    } else {
        add_dep_steps(
            add_vertex_spec(add_vertex_spec(vs, from), ts[0]),
            deps.insert((from, ts[0])),
            from,
            ts.drop_first(),
        )
    }
}

/// `add_deps(from, tos)` does what `add_dep(from, t)` does for each `t` of `tos`
/// in turn: its items and dependencies, as its contract states them, are those
/// that the run of `add_dep` calls leaves; with no `tos` nothing changes.
pub proof fn law_add_deps_is_add_dep_each<V>(vs: Seq<V>, deps: Set<(V, V)>, from: V, ts: Seq<V>)
    ensures
        ts.len() == 0 ==> add_dep_steps(vs, deps, from, ts) == (vs, deps),
        ts.len() > 0 ==> add_dep_steps(vs, deps, from, ts) == (
            add_vertices_spec(add_vertex_spec(vs, from), ts),
            deps.union(Set::new(|p: (V, V)| exists|k: int| 0 <= k < ts.len() && p == (from, #[trigger] ts[k]))),
        ),
    decreases ts.len(),
{
    if ts.len() > 0 {
        let vs1 = add_vertex_spec(add_vertex_spec(vs, from), ts[0]);
        let deps1 = deps.insert((from, ts[0]));
        let rest = ts.drop_first();
        law_add_deps_is_add_dep_each(vs1, deps1, from, rest);
        assert(add_vertex_spec(vs, from).contains(from)) by {
            if !vs.contains(from) {
                assert(vs.push(from)[vs.len() as int] == from);
            }
        }
        assert(vs1.contains(from)) by {
            let avs = add_vertex_spec(vs, from);
            let i = choose|i: int| 0 <= i < avs.len() && avs[i] == from;
            if !avs.contains(ts[0]) {
                assert(avs.push(ts[0])[i] == from);
            }
        }
        assert(add_vertex_spec(vs1, from) == vs1);
        assert(add_vertices_spec(add_vertex_spec(vs, from), ts) == add_vertices_spec(vs1, rest));
        if rest.len() == 0 {
            assert(add_vertices_spec(vs1, rest) == vs1);
        }
        let all = Set::new(|p: (V, V)| exists|k: int| 0 <= k < ts.len() && p == (from, #[trigger] ts[k]));
        let later = Set::new(|p: (V, V)| exists|k: int| 0 <= k < rest.len() && p == (from, #[trigger] rest[k]));
        assert(deps1.union(later) =~= deps.union(all)) by {
            assert forall|p: (V, V)| deps.union(all).contains(p) implies deps1.union(later).contains(p) by {
                if all.contains(p) && !deps.contains(p) {
                    let k = choose|k: int| 0 <= k < ts.len() && p == (from, #[trigger] ts[k]);
                    if k > 0 {
                        assert(rest[k - 1] == ts[k]);
                    }
                }
            }
            assert forall|p: (V, V)| deps1.union(later).contains(p) implies deps.union(all).contains(p) by {
                if p == (from, ts[0]) {
                    assert(all.contains(p));
                }
                if later.contains(p) {
                    let k = choose|k: int| 0 <= k < rest.len() && p == (from, #[trigger] rest[k]);
                    assert(ts[k + 1] == rest[k]);
                }
            }
        }
        if rest.len() == 0 {
            assert(deps1 =~= deps.union(all)) by {
                assert forall|p: (V, V)| all.contains(p) implies p == (from, ts[0]) by {
                    let k = choose|k: int| 0 <= k < ts.len() && p == (from, #[trigger] ts[k]);
                }
                assert(all.contains((from, ts[0])));
            }
        }
    }
}

impl<N: Clone + Eq + Ord + View> Default for TopologicalSorter<N> {
    fn default() -> (r: Self)
        ensures
            r.wf(),
            r.verts() == Seq::<N::V>::empty(),
            r.deps() == Set::<(N::V, N::V)>::empty(),
    {
        Self::new()
    }
}

} // verus!

verus! {

/// Integers meet what the sorter needs of its items.
pub proof fn lemma_u64_item_laws()
    ensures
        item_laws::<u64>(),
{
    broadcast use vstd::laws_eq::group_laws_eq;

}

} // verus!
