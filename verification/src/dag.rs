//! The graph engine: an incrementally edited directed acyclic graph of
//! device handles and polarity-tagged wires. After every mutation it keeps
//! a cached topological order of all vertices and a cached transitive
//! closure of the wire relation, so that ordered iteration and reachability
//! queries need no further graph walk.
use vstd::prelude::*;

use crate::reach::{
    acyclic, before, child_reach, endpoints_in, has_edge, insert_witness, lemma_before_index,
    lemma_before_push, lemma_filter_no_dup, lemma_filter_order_valid, lemma_find_source,
    lemma_before_asym, lemma_filter_step, lemma_insert_witness, lemma_push_contains,
    lemma_push_no_dup, lemma_reach_decompose, lemma_reaches_before, lemma_reaches_refl,
    lemma_reaches_unfold, lemma_remove_contains, lemma_remove_no_dup, lemma_subrange_push,
    lemma_subset_wires_valid, lemma_valid_topo_acyclic, parent_in, reaches, respects_wires,
    valid_topo,
};

verus! {

/// An opaque handle for one device vertex. Handles are issued by a
/// monotonically increasing counter and are never reused, even after the
/// vertex is removed.
#[derive(PartialEq, Eq, Structural, Clone, Copy, Hash, Debug)]
pub struct DeviceId(u32);

impl DeviceId {
    /// The handle's number on the issuing counter. Together with
    /// `Dag::next_id` this pins down that handles are never reused: a
    /// graph only ever holds handles numbered below its counter, and
    /// `add_device` returns the handle numbered by the counter it then
    /// advances.
    pub closed spec fn num(self) -> int {
        self.0 as int
    }
}

/// The polarity of a wire: a `Negated` wire delivers the logical
/// complement of its source's output.
#[derive(PartialEq, Eq, Structural, Clone, Copy, Hash, Debug)]
pub enum WireType {
    Normal,
    Negated,
}

/// A directed, polarity-tagged connection between two devices.
#[derive(PartialEq, Eq, Structural, Clone, Copy, Hash, Debug)]
pub struct Wire {
    pub from: DeviceId,
    pub to: DeviceId,
    pub wire_type: WireType,
}

/// The one error of the engine: the requested wire has a nonexistent
/// endpoint, or inserting it would close a directed cycle. The graph is
/// left exactly as it was.
#[derive(PartialEq, Eq, Structural, Clone, Copy, Debug)]
pub struct IllegalWireError;

/// The graph engine. It owns the wire set and both caches; callers refer
/// to vertices only through `DeviceId` handles.
pub struct Dag {
    id_counter: u32,
    wires: Vec<Wire>,
    topological_order: Vec<DeviceId>,
    transitive_closure: Vec<(DeviceId, DeviceId)>,
}

impl Dag {
    /// The cached topological order; also the authoritative vertex list.
    pub closed spec fn topo(self) -> Seq<DeviceId> {
        self.topological_order@
    }

    /// The current wire set, in insertion order.
    pub closed spec fn wire_list(self) -> Seq<Wire> {
        self.wires@
    }

    /// The cached transitive closure, as a list of (source, target) pairs.
    pub closed spec fn closure_pairs(self) -> Seq<(DeviceId, DeviceId)> {
        self.transitive_closure@
    }

    /// The handle the next `add_device` call will issue, as an integer.
    pub closed spec fn next_id(self) -> int {
        self.id_counter as int
    }

    /// `d` is a live vertex.
    pub open spec fn contains_dev(self, d: DeviceId) -> bool {
        self.topo().contains(d)
    }

    /// A wire from `from` to `to` is present (any polarity).
    pub open spec fn has_wire(self, from: DeviceId, to: DeviceId) -> bool {
        has_edge(self.wire_list(), from, to)
    }

    /// Some wire ends at `to`.
    pub open spec fn has_incoming(self, to: DeviceId) -> bool {
        exists|k: int| 0 <= k < self.wire_list().len() && (#[trigger] self.wire_list()[k]).to == to
    }

    /// What `is_reachable` answers: `from` is live and a directed path
    /// (possibly empty) runs from `from` to `to` over current wires.
    pub open spec fn reachable(self, from: DeviceId, to: DeviceId) -> bool {
        self.contains_dev(from) && reaches(self.wire_list(), from, to)
    }

    /// The cache holds the pair (from, to).
    pub open spec fn closure_has(self, from: DeviceId, to: DeviceId) -> bool {
        self.closure_pairs().contains((from, to))
    }

    /// The closure cache agrees exactly with path reachability over the
    /// current wire set: no staleness in either direction.
    pub open spec fn closure_matches(self) -> bool {
        forall|u: DeviceId, v: DeviceId|
            #![trigger self.closure_has(u, v)]
            #![trigger self.reachable(u, v)]
            self.closure_has(u, v) <==> self.reachable(u, v)
    }

    /// Every issued handle is numerically below the counter, so fresh
    /// handles never collide with live ones.
    pub closed spec fn ids_bounded(self) -> bool {
        forall|i: int|
            0 <= i < self.topological_order@.len()
                ==> (#[trigger] self.topological_order@[i]).0 < self.id_counter
    }

    /// The engine's invariant, reestablished by every public mutation:
    /// the vertex list is duplicate-free, every wire runs forward along it
    /// between live endpoints, the closure cache matches path
    /// reachability and lists each pair at most once, and no live handle
    /// collides with a future one.
    pub open spec fn wf(self) -> bool {
        &&& valid_topo(self.topo(), self.wire_list())
        &&& endpoints_in(self.wire_list(), self.topo())
        &&& self.closure_matches()
        &&& self.closure_pairs().no_duplicates()
        &&& self.ids_bounded()
    }

    /// The two states are observably identical, component for component.
    pub open spec fn same_state(self, other: Dag) -> bool {
        &&& self.topo() == other.topo()
        &&& self.wire_list() == other.wire_list()
        &&& self.closure_pairs() == other.closure_pairs()
        &&& self.next_id() == other.next_id()
    }

    /// Inserting a wire from `from` to `to` is legal: both endpoints are
    /// live and no directed path already runs from `to` back to `from`,
    /// so the new wire closes no cycle.
    pub open spec fn wire_ok(self, from: DeviceId, to: DeviceId) -> bool {
        self.contains_dev(from) && self.contains_dev(to) && !reaches(
            self.wire_list(),
            to,
            from,
        )
    }

    /// The full relation between the states before and after `add_wire`
    /// and its result: success exactly on a present or legal wire; a
    /// present wire and every error leave the state untouched; a legal
    /// new wire is appended with the vertex set and counter unchanged.
    pub open spec fn add_wire_post(
        pre: Dag,
        post: Dag,
        r: Result<(), IllegalWireError>,
        from: DeviceId,
        to: DeviceId,
        wt: WireType,
    ) -> bool {
        &&& (r is Ok <==> (pre.has_wire(from, to) || pre.wire_ok(from, to)))
        &&& (pre.has_wire(from, to) ==> post.same_state(pre))
        &&& ((!pre.has_wire(from, to) && pre.wire_ok(from, to)) ==> {
            &&& post.wire_list() == pre.wire_list().push(
                Wire { from, to, wire_type: wt },
            )
            &&& (forall|x: DeviceId, y: DeviceId|
                #[trigger] post.has_wire(x, y) <==> (pre.has_wire(x, y) || (x == from && y
                    == to)))
            &&& (forall|x: DeviceId| #[trigger] post.contains_dev(x) <==> pre.contains_dev(x))
            &&& post.topo().len() == pre.topo().len()
            &&& post.next_id() == pre.next_id()
        })
        &&& (r is Err ==> post.same_state(pre))
    }

    /// An empty graph: no vertices, no wires, nothing reachable.
    pub fn new() -> (g: Dag)
        ensures
            g.wf(),
            g.topo() == Seq::<DeviceId>::empty(),
            g.wire_list() == Seq::<Wire>::empty(),
            g.closure_pairs() == Seq::<(DeviceId, DeviceId)>::empty(),
            g.next_id() == 0,
    {
        let g = Dag {
            id_counter: 0,
            wires: Vec::new(),
            transitive_closure: Vec::new(),
            topological_order: Vec::new(),
        };
        proof {
            assert(g.topo() =~= Seq::<DeviceId>::empty());
            assert(g.wire_list() =~= Seq::<Wire>::empty());
            assert(g.closure_pairs() =~= Seq::<(DeviceId, DeviceId)>::empty());
        }
        g
    }

    /// All live vertices, in the cached topological order: for every wire,
    /// the source appears strictly before the target.
    pub fn devices(&self) -> (r: &Vec<DeviceId>)
        ensures
            r@ == self.topo(),
    {
        &self.topological_order
    }

    /// The current wire set, in insertion order.
    pub fn wires(&self) -> (r: &Vec<Wire>)
        ensures
            r@ == self.wire_list(),
    {
        &self.wires
    }

    /// Whether `d` is a live vertex.
    pub fn contains_device(&self, d: DeviceId) -> (r: bool)
        ensures
            r == self.contains_dev(d),
    {
        let n = self.topological_order.len();
        let mut i: usize = 0;
        while i < n
            invariant
                0 <= i <= n,
                forall|j: int| 0 <= j < i ==> self.topological_order@[j] != d,
            decreases n - i,
        {
            if self.topological_order[i] == d {
                return true;
            }
            i += 1;
        }
        false
    }

    /// Whether some wire runs from `from` to `to`, of either polarity.
    pub fn contains_wire(&self, from: DeviceId, to: DeviceId) -> (r: bool)
        ensures
            r == self.has_wire(from, to),
    {
        let n = self.wires.len();
        let mut i: usize = 0;
        while i < n
            invariant
                0 <= i <= n,
                forall|j: int|
                    0 <= j < i
                        ==> !((#[trigger] self.wires@[j]).from == from && self.wires@[j].to == to),
            decreases n - i,
        {
            let w = self.wires[i];
            if w.from == from && w.to == to {
                return true;
            }
            i += 1;
        }
        false
    }

    /// Whether a directed path runs from `from` to `to` over current
    /// wires, answered from the closure cache without a graph walk.
    pub fn is_reachable(&self, from: DeviceId, to: DeviceId) -> (r: bool)
        requires
            self.wf(),
        ensures
            r == self.reachable(from, to),
    {
        let n = self.transitive_closure.len();
        let mut i: usize = 0;
        while i < n
            invariant
                0 <= i <= n,
                forall|j: int| 0 <= j < i ==> #[trigger] self.transitive_closure@[j] != (from, to),
            decreases n - i,
        {
            let p = self.transitive_closure[i];
            if p.0 == from && p.1 == to {
                proof {
                    assert(self.closure_has(from, to));
                }
                return true;
            }
            i += 1;
        }
        proof {
            assert(!self.closure_has(from, to));
        }
        false
    }

    /// Create a fresh vertex and return its handle. Always succeeds; the
    /// new vertex has no incident wires and goes to the end of the cached
    /// order, and its trivial reachability pair enters the closure cache
    /// at once, so queries never see a stale cache. The handle is
    /// distinct from every handle ever issued.
    pub fn add_device(&mut self) -> (id: DeviceId)
        requires
            old(self).wf(),
            old(self).next_id() < u32::MAX,
        ensures
            final(self).wf(),
            !old(self).contains_dev(id),
            final(self).contains_dev(id),
            id.num() == old(self).next_id(),
            final(self).topo() == old(self).topo().push(id),
            forall|x: DeviceId|
                #[trigger] final(self).contains_dev(x)
                    <==> (old(self).contains_dev(x) || x == id),
            final(self).wire_list() == old(self).wire_list(),
            final(self).next_id() == old(self).next_id() + 1,
    {
        let id = DeviceId(self.id_counter);
        self.id_counter = self.id_counter + 1;
        self.topological_order.push(id);
        self.transitive_closure.push((id, id));
        proof {
            let pre = *old(self);
            // The handle is fresh: every live handle sits below the counter.
            assert(!pre.contains_dev(id)) by {
                if pre.contains_dev(id) {
                    let i = choose|i: int| 0 <= i < pre.topo().len() && pre.topo()[i] == id;
                    assert(pre.topo()[i].0 < pre.id_counter);
                }
            }
            assert(self.topo()[self.topo().len() - 1] == id);
            assert forall|x: DeviceId|
                #[trigger] self.contains_dev(x) <==> (pre.contains_dev(x) || x == id) by {
                lemma_push_contains(pre.topo(), id, x);
            }
            // The order is still duplicate-free and still tops every wire.
            assert(self.topo().no_duplicates()) by {
                assert forall|i: int, j: int| 0 <= i < j < self.topo().len()
                    implies self.topo()[i] != self.topo()[j] by {
                    if j == self.topo().len() - 1 {
                        assert(pre.topo()[i].0 < pre.id_counter);
                    }
                }
            }
            assert(respects_wires(self.topo(), self.wire_list())) by {
                assert forall|k: int| 0 <= k < self.wire_list().len()
                    implies before(self.topo(), (#[trigger] self.wire_list()[k]).from,
                        self.wire_list()[k].to) by {
                    assert(before(pre.topo(), self.wire_list()[k].from, self.wire_list()[k].to));
                    lemma_before_push(pre.topo(), id, self.wire_list()[k].from,
                        self.wire_list()[k].to);
                }
            }
            assert(endpoints_in(self.wire_list(), self.topo())) by {
                assert forall|k: int| 0 <= k < self.wire_list().len()
                    implies self.topo().contains((#[trigger] self.wire_list()[k]).from)
                        && self.topo().contains(self.wire_list()[k].to) by {
                    lemma_push_contains(pre.topo(), id, self.wire_list()[k].from);
                    lemma_push_contains(pre.topo(), id, self.wire_list()[k].to);
                }
            }
            // The fresh pair is new to the closure cache: the cache only
            // holds pairs whose source is live, and the handle was not.
            assert(self.transitive_closure@.no_duplicates()) by {
                assert(!pre.closure_has(id, id));
                assert(!pre.closure_pairs().contains((id, id)));
                lemma_push_no_dup(pre.closure_pairs(), (id, id));
            }
            // The closure cache gains exactly the trivial pair of the new
            // vertex, which has no incident wires yet.
            assert(self.closure_matches()) by {
                assert forall|u: DeviceId, v: DeviceId|
                    #![trigger self.closure_has(u, v)]
                    #![trigger self.reachable(u, v)]
                    self.closure_has(u, v) <==> self.reachable(u, v) by {
                    lemma_push_contains(pre.topo(), id, u);
                    if self.closure_has(u, v) {
                        let i = choose|i: int|
                            0 <= i < self.closure_pairs().len()
                                && self.closure_pairs()[i] == (u, v);
                        if i < pre.closure_pairs().len() {
                            assert(pre.closure_has(u, v));
                            assert(pre.reachable(u, v));
                        } else {
                            assert(u == id && v == id);
                            lemma_reaches_refl(self.wire_list(), u);
                        }
                        assert(self.reachable(u, v));
                    }
                    if self.reachable(u, v) {
                        if pre.contains_dev(u) {
                            assert(pre.reachable(u, v));
                            assert(pre.closure_has(u, v));
                            let i = choose|i: int|
                                0 <= i < pre.closure_pairs().len()
                                    && pre.closure_pairs()[i] == (u, v);
                            assert(self.closure_pairs()[i] == (u, v));
                        } else {
                            // u is the fresh vertex: it has no outgoing
                            // wire, so it reaches only itself.
                            assert(u == id);
                            if v != u {
                                let mid = lemma_reaches_unfold(self.wire_list(), u, v);
                                let k = choose|k: int|
                                    0 <= k < self.wire_list().len()
                                        && (#[trigger] self.wire_list()[k]).from == u
                                        && self.wire_list()[k].to == mid;
                                assert(pre.topo().contains(u));
                            }
                            assert(self.closure_pairs()[self.closure_pairs().len() - 1]
                                == (u, v));
                        }
                        assert(self.closure_has(u, v));
                    }
                }
            }
        }
        id
    }
}

/// The wires that survive removing the wire (from, to), as a predicate.
pub open spec fn keeps_wire(from: DeviceId, to: DeviceId) -> spec_fn(Wire) -> bool {
    |w: Wire| !(w.from == from && w.to == to)
}

/// The wires not touching vertex `d`, as a predicate.
pub open spec fn wire_avoids(d: DeviceId) -> spec_fn(Wire) -> bool {
    |w: Wire| w.from != d && w.to != d
}

/// The vertices other than `d`, as a predicate.
pub open spec fn other_vertex(d: DeviceId) -> spec_fn(DeviceId) -> bool {
    |x: DeviceId| x != d
}

/// The wires ending at `child`, as a predicate.
pub open spec fn wire_into(child: DeviceId) -> spec_fn(Wire) -> bool {
    |w: Wire| w.to == child
}

/// Some wire among the first `upto` runs from `u` to `v`.
spec fn edge_upto(wires: Seq<Wire>, upto: int, u: DeviceId, v: DeviceId) -> bool {
    exists|k: int| 0 <= k < upto && (#[trigger] wires[k]).from == u && wires[k].to == v
}

/// Row `u` of the pair list holds exactly what `u` reaches.
spec fn row_exact(cl: Seq<(DeviceId, DeviceId)>, wires: Seq<Wire>, u: DeviceId) -> bool {
    forall|x: DeviceId|
        #![trigger cl.contains((u, x))]
        #![trigger reaches(wires, u, x)]
        cl.contains((u, x)) <==> reaches(wires, u, x)
}

/// Row `u` holds exactly what `u`'s children at position `lo` or later
/// reach.
spec fn row_partial(
    cl: Seq<(DeviceId, DeviceId)>,
    wires: Seq<Wire>,
    topo: Seq<DeviceId>,
    lo: int,
    u: DeviceId,
) -> bool {
    forall|x: DeviceId|
        #![trigger cl.contains((u, x))]
        #![trigger child_reach(wires, topo, lo, u, x)]
        cl.contains((u, x)) <==> child_reach(wires, topo, lo, u, x)
}

/// Row `u` midway through distributing `v`'s reach set to `v`'s parents:
/// the children at `lo` or later, plus `v`'s reach set once a wire
/// `u -> v` has been seen among the first `k` wires.
spec fn row_mid(
    cl: Seq<(DeviceId, DeviceId)>,
    wires: Seq<Wire>,
    topo: Seq<DeviceId>,
    lo: int,
    k: int,
    v: DeviceId,
    u: DeviceId,
) -> bool {
    forall|x: DeviceId|
        #![trigger cl.contains((u, x))]
        cl.contains((u, x)) <==> (child_reach(wires, topo, lo, u, x) || (edge_upto(
            wires,
            k,
            u,
            v,
        ) && reaches(wires, v, x)))
}

/// All targets paired with `u` in the list.
fn collect_targets(cl: &Vec<(DeviceId, DeviceId)>, u: DeviceId) -> (r: Vec<DeviceId>)
    ensures
        forall|x: DeviceId| #[trigger] r@.contains(x) <==> cl@.contains((u, x)),
{
    let n = cl.len();
    let mut r: Vec<DeviceId> = Vec::new();
    let mut i: usize = 0;
    while i < n
        invariant
            0 <= i <= n,
            forall|x: DeviceId|
                #![trigger r@.contains(x)]
                #![trigger cl@.subrange(0, i as int).contains((u, x))]
                r@.contains(x) <==> cl@.subrange(0, i as int).contains((u, x)),
        decreases n - i,
    {
        let ghost r0 = r@;
        let p = cl[i];
        if p.0 == u {
            r.push(p.1);
        }
        proof {
            lemma_subrange_push(cl@, i as int);
            assert forall|x: DeviceId|
                #![trigger r@.contains(x)]
                r@.contains(x) <==> cl@.subrange(0, i as int + 1).contains((u, x)) by {
                lemma_push_contains(cl@.subrange(0, i as int), cl@[i as int], (u, x));
                if p.0 == u {
                    lemma_push_contains(r0, p.1, x);
                }
            }
        }
        i += 1;
    }
    proof {
        assert(cl@.subrange(0, n as int) =~= cl@);
    }
    r
}

/// Whether the pair (from, to) is already listed.
fn pair_present(cl: &Vec<(DeviceId, DeviceId)>, from: DeviceId, to: DeviceId) -> (r: bool)
    ensures
        r == cl@.contains((from, to)),
{
    let n = cl.len();
    let mut i: usize = 0;
    while i < n
        invariant
            0 <= i <= n,
            forall|j: int| 0 <= j < i ==> #[trigger] cl@[j] != (from, to),
        decreases n - i,
    {
        let p = cl[i];
        if p.0 == from && p.1 == to {
            return true;
        }
        i += 1;
    }
    false
}

/// Whether `d` occurs in `v`.
fn vec_contains_id(v: &Vec<DeviceId>, d: DeviceId) -> (r: bool)
    ensures
        r == v@.contains(d),
{
    let n = v.len();
    let mut i: usize = 0;
    while i < n
        invariant
            0 <= i <= n,
            forall|j: int| 0 <= j < i ==> v@[j] != d,
        decreases n - i,
    {
        if v[i] == d {
            return true;
        }
        i += 1;
    }
    false
}

/// Whether some wire in `wires` ends at `v` and starts inside `set`.
fn has_parent_in(wires: &Vec<Wire>, set: &Vec<DeviceId>, v: DeviceId) -> (r: bool)
    ensures
        r == parent_in(wires@, set@, v),
{
    let n = wires.len();
    let mut i: usize = 0;
    while i < n
        invariant
            0 <= i <= n,
            forall|j: int|
                0 <= j < i
                    ==> !((#[trigger] wires@[j]).to == v && set@.contains(wires@[j].from)),
        decreases n - i,
    {
        let w = wires[i];
        if w.to == v && vec_contains_id(set, w.from) {
            return true;
        }
        i += 1;
    }
    false
}

impl Dag {
    /// Rebuild the cached topological order from scratch with Kahn's
    /// algorithm: repeatedly take a vertex with no incoming wire from the
    /// working set and append it. The ghost `witness` order — any
    /// topological order of the current wires covering the current
    /// vertices — guarantees a source vertex always exists, so the sort
    /// visits every vertex.
    fn recompute_topological_order(&mut self, Ghost(witness): Ghost<Seq<DeviceId>>)
        requires
            old(self).topo().no_duplicates(),
            endpoints_in(old(self).wire_list(), old(self).topo()),
            old(self).ids_bounded(),
            valid_topo(witness, old(self).wire_list()),
            forall|i: int|
                0 <= i < old(self).topo().len()
                    ==> witness.contains(#[trigger] old(self).topo()[i]),
        ensures
            final(self).wire_list() == old(self).wire_list(),
            final(self).closure_pairs() == old(self).closure_pairs(),
            final(self).next_id() == old(self).next_id(),
            valid_topo(final(self).topo(), final(self).wire_list()),
            endpoints_in(final(self).wire_list(), final(self).topo()),
            final(self).ids_bounded(),
            final(self).topo().len() == old(self).topo().len(),
            forall|x: DeviceId|
                #[trigger] final(self).topo().contains(x) <==> old(self).topo().contains(x),
    {
        let ghost orig = self.topological_order@;
        let ghost wires_g = self.wires@;

        // Working copy of the vertex list.
        let mut remaining: Vec<DeviceId> = Vec::new();
        let n = self.topological_order.len();
        let mut i: usize = 0;
        while i < n
            invariant
                0 <= i <= n,
                remaining@ == orig.subrange(0, i as int),
            decreases n - i,
        {
            remaining.push(self.topological_order[i]);
            i += 1;
        }
        proof {
            assert(remaining@ =~= orig);
        }

        let mut topo_new: Vec<DeviceId> = Vec::new();
        while remaining.len() > 0
            invariant
                topo_new@.len() + remaining@.len() == orig.len(),
                topo_new@.no_duplicates(),
                remaining@.no_duplicates(),
                forall|a: int, b: int|
                    #![trigger topo_new@[a], remaining@[b]]
                    0 <= a < topo_new@.len() && 0 <= b < remaining@.len()
                        ==> topo_new@[a] != remaining@[b],
                forall|x: DeviceId|
                    #[trigger] orig.contains(x)
                        <==> (topo_new@.contains(x) || remaining@.contains(x)),
                forall|k: int|
                    0 <= k < wires_g.len()
                        ==> remaining@.contains((#[trigger] wires_g[k]).to)
                            || before(topo_new@, wires_g[k].from, wires_g[k].to),
                forall|b: int|
                    0 <= b < remaining@.len() ==> witness.contains(#[trigger] remaining@[b]),
            decreases remaining@.len(),
        {
            // Find a vertex of the working set with no parent inside it.
            let rlen = remaining.len();
            let mut idx: usize = 0;
            let mut found: bool = false;
            while !found && idx < rlen
                invariant
                    0 <= idx <= rlen,
                    rlen == remaining@.len(),
                    !found ==> forall|j: int|
                        0 <= j < idx
                            ==> parent_in(wires_g, remaining@, #[trigger] remaining@[j]),
                    found ==> idx < rlen
                        && !parent_in(wires_g, remaining@, remaining@[idx as int]),
                decreases rlen - idx, (if found { 0int } else { 1int }),
            {
                if !has_parent_in(&self.wires, &remaining, remaining[idx]) {
                    found = true;
                } else {
                    idx += 1;
                }
            }
            proof {
                if !found {
                    let s = lemma_find_source(wires_g, witness, remaining@);
                    assert(parent_in(wires_g, remaining@, remaining@[s]));
                    assert(false);
                }
            }

            let ghost rem_pre = remaining@;
            let ghost topo_pre = topo_new@;
            let v = remaining[idx];
            let _ = remaining.remove(idx);
            topo_new.push(v);
            proof {
                let iv = idx as int;
                lemma_remove_no_dup(rem_pre, iv);
                assert forall|x: DeviceId| #[trigger] remaining@.contains(x) implies rem_pre.contains(x)
                    && x != v by {
                    lemma_remove_contains(rem_pre, iv, x);
                }
                assert forall|x: DeviceId| rem_pre.contains(x) && x != v
                    implies #[trigger] remaining@.contains(x) by {
                    lemma_remove_contains(rem_pre, iv, x);
                }
                // v is new to topo_new, so the push stays duplicate-free.
                assert(topo_new@.no_duplicates()) by {
                    assert forall|a: int, b: int| 0 <= a < b < topo_new@.len()
                        implies topo_new@[a] != topo_new@[b] by {
                        if b == topo_new@.len() - 1 {
                            assert(topo_pre[a] != rem_pre[iv]);
                        }
                    }
                }
                // Disjointness of the new halves.
                assert forall|a: int, b: int|
                    #![trigger topo_new@[a], remaining@[b]]
                    0 <= a < topo_new@.len() && 0 <= b < remaining@.len()
                    implies topo_new@[a] != remaining@[b] by {
                    lemma_remove_contains(rem_pre, iv, remaining@[b]);
                    let x = remaining@[b];
                    assert(rem_pre.contains(x) && x != v);
                    let b0 = choose|b0: int| 0 <= b0 < rem_pre.len() && rem_pre[b0] == x;
                    if a < topo_pre.len() {
                        assert(topo_pre[a] != rem_pre[b0]);
                    }
                }
                // Membership bookkeeping.
                assert forall|x: DeviceId| #[trigger] orig.contains(x)
                    implies (topo_new@.contains(x) || remaining@.contains(x)) by {
                    lemma_push_contains(topo_pre, v, x);
                    lemma_remove_contains(rem_pre, iv, x);
                }
                assert forall|x: DeviceId| topo_new@.contains(x) || remaining@.contains(x)
                    implies #[trigger] orig.contains(x) by {
                    lemma_push_contains(topo_pre, v, x);
                    lemma_remove_contains(rem_pre, iv, x);
                    assert(rem_pre.contains(v));
                }
                // Every wire either still waits on its target or already
                // runs forward inside the built prefix.
                assert forall|k: int| 0 <= k < wires_g.len()
                    implies remaining@.contains((#[trigger] wires_g[k]).to)
                        || before(topo_new@, wires_g[k].from, wires_g[k].to) by {
                    let u = wires_g[k].from;
                    let t = wires_g[k].to;
                    lemma_remove_contains(rem_pre, iv, t);
                    if !remaining@.contains(t) {
                        if rem_pre.contains(t) {
                            // t is exactly the vertex just appended.
                            assert(t == v);
                            assert(!rem_pre.contains(u));
                            assert(orig.contains(u));
                            assert(topo_pre.contains(u));
                            let a = choose|a: int|
                                0 <= a < topo_pre.len() && topo_pre[a] == u;
                            assert(topo_new@[a] == u);
                            assert(topo_new@[topo_new@.len() - 1] == v);
                            assert(before(topo_new@, u, t));
                        } else {
                            assert(before(topo_pre, u, t));
                            lemma_before_push(topo_pre, v, u, t);
                        }
                    }
                }
                // The working set still draws from the witness order.
                assert forall|b: int| 0 <= b < remaining@.len()
                    implies witness.contains(#[trigger] remaining@[b]) by {
                    lemma_remove_contains(rem_pre, iv, remaining@[b]);
                    let x = remaining@[b];
                    let b0 = choose|b0: int| 0 <= b0 < rem_pre.len() && rem_pre[b0] == x;
                }
            }
        }

        self.topological_order = topo_new;
        proof {
            assert(valid_topo(self.topo(), self.wire_list())) by {
                assert forall|k: int| 0 <= k < wires_g.len()
                    implies before(self.topo(), (#[trigger] wires_g[k]).from, wires_g[k].to) by {
                    assert(!remaining@.contains(wires_g[k].to));
                }
            }
            assert(endpoints_in(self.wire_list(), self.topo())) by {
                assert forall|k: int| 0 <= k < wires_g.len()
                    implies self.topo().contains((#[trigger] wires_g[k]).from)
                        && self.topo().contains(wires_g[k].to) by {
                    assert(orig.contains(wires_g[k].from));
                    assert(orig.contains(wires_g[k].to));
                }
            }
            assert(self.ids_bounded()) by {
                assert forall|i2: int| 0 <= i2 < self.topological_order@.len()
                    implies (#[trigger] self.topological_order@[i2]).0 < self.id_counter by {
                    let x = self.topological_order@[i2];
                    assert(self.topo().contains(x));
                    assert(orig.contains(x));
                    let j = choose|j: int| 0 <= j < orig.len() && orig[j] == x;
                    assert(old(self).topo()[j].0 < old(self).id_counter);
                }
            }
        }
    }

    /// Rebuild the transitive-closure cache from the (already valid)
    /// topological order: walk the order backward, give each vertex its
    /// trivial pair, and fold each vertex's finished reach set into every
    /// one of its direct parents, skipping pairs already listed.
    /// Afterward the cache lists exactly the pairs (u, x) with `u` live
    /// and `x` reachable from `u`, each pair once.
    fn recompute_transitive_closure(&mut self)
        requires
            valid_topo(old(self).topo(), old(self).wire_list()),
            endpoints_in(old(self).wire_list(), old(self).topo()),
        ensures
            final(self).topo() == old(self).topo(),
            final(self).wire_list() == old(self).wire_list(),
            final(self).next_id() == old(self).next_id(),
            final(self).closure_matches(),
            final(self).closure_pairs().no_duplicates(),
    {
        let ghost topo_g = self.topological_order@;
        let ghost wires_g = self.wires@;
        let n = self.topological_order.len();
        self.transitive_closure = Vec::new();
        let mut i: usize = n;
        while i > 0
            invariant
                0 <= i <= n,
                n == topo_g.len(),
                self.topological_order@ == topo_g,
                self.wires@ == wires_g,
                self.id_counter == old(self).id_counter,
                forall|j: int|
                    i <= j < n
                        ==> row_exact(self.transitive_closure@, wires_g, #[trigger] topo_g[j]),
                forall|j: int|
                    0 <= j < i
                        ==> row_partial(self.transitive_closure@, wires_g, topo_g, i as int,
                            #[trigger] topo_g[j]),
                forall|p: int|
                    0 <= p < self.transitive_closure@.len()
                        ==> topo_g.contains((#[trigger] self.transitive_closure@[p]).0),
                self.transitive_closure@.no_duplicates(),
            decreases i,
        {
            i -= 1;
            let v = self.topological_order[i];
            let ghost iv = i as int;
            let ghost cl0 = self.transitive_closure@;
            self.transitive_closure.push((v, v));
            proof {
                let cl1 = self.transitive_closure@;
                // The trivial pair was not listed yet: before this turn,
                // row v holds only what v's processed children reach, and
                // a child reaching back to v would close a cycle.
                assert(!cl0.contains((v, v))) by {
                    if cl0.contains((v, v)) {
                        assert(cl0.contains((topo_g[iv], v)));
                        assert(child_reach(wires_g, topo_g, iv + 1, v, v));
                        let (k, j) = choose|k: int, j: int|
                            #![trigger wires_g[k], topo_g[j]]
                            0 <= k < wires_g.len() && iv + 1 <= j < topo_g.len()
                                && wires_g[k].from == v && wires_g[k].to == topo_g[j]
                                && reaches(wires_g, topo_g[j], v);
                        lemma_valid_topo_acyclic(topo_g, wires_g);
                        assert(has_edge(wires_g, v, topo_g[j]));
                        assert(false);
                    }
                }
                lemma_push_no_dup(cl0, (v, v));
                // Rows other than v keep their membership; row v gains
                // its trivial pair and thereby becomes exact.
                assert forall|j: int| iv <= j < n
                    implies row_exact(cl1, wires_g, #[trigger] topo_g[j]) by {
                    assert forall|x: DeviceId|
                        #![trigger cl1.contains((topo_g[j], x))]
                        #![trigger reaches(wires_g, topo_g[j], x)]
                        cl1.contains((topo_g[j], x)) <==> reaches(wires_g, topo_g[j], x) by {
                        let u = topo_g[j];
                        lemma_push_contains(cl0, (v, v), (u, x));
                        if j == iv {
                            lemma_reach_decompose(wires_g, topo_g, iv, x);
                            assert(cl0.contains((u, x)) <==> child_reach(wires_g, topo_g,
                                iv + 1, u, x));
                        } else {
                            // j > iv, so u != v and the push changes nothing.
                            assert(u != v);
                            assert(cl1.contains((u, x)) <==> cl0.contains((u, x)));
                        }
                    }
                }
                assert forall|j: int| 0 <= j < iv
                    implies row_mid(cl1, wires_g, topo_g, iv + 1, 0, v, #[trigger] topo_g[j]) by {
                    assert forall|x: DeviceId|
                        #![trigger cl1.contains((topo_g[j], x))]
                        cl1.contains((topo_g[j], x)) <==> (child_reach(wires_g, topo_g, iv + 1,
                            topo_g[j], x) || (edge_upto(wires_g, 0, topo_g[j], v)
                            && reaches(wires_g, v, x))) by {
                        let u = topo_g[j];
                        lemma_push_contains(cl0, (v, v), (u, x));
                        assert(u != v);
                        assert(!edge_upto(wires_g, 0, u, v));
                    }
                }
            }
            let v_reach = collect_targets(&self.transitive_closure, v);
            proof {
                assert forall|x: DeviceId| #[trigger] v_reach@.contains(x)
                    <==> reaches(wires_g, v, x) by {
                    assert(row_exact(self.transitive_closure@, wires_g, topo_g[iv]));
                }
            }

            let m = self.wires.len();
            let mut k: usize = 0;
            while k < m
                invariant
                    0 <= k <= m,
                    0 <= iv < n,
                    m == wires_g.len(),
                    n == topo_g.len(),
                    v == topo_g[iv],
                    self.topological_order@ == topo_g,
                    self.wires@ == wires_g,
                    self.id_counter == old(self).id_counter,
                    topo_g.no_duplicates(),
                    respects_wires(topo_g, wires_g),
                    endpoints_in(wires_g, topo_g),
                    forall|x: DeviceId|
                        #[trigger] v_reach@.contains(x) <==> reaches(wires_g, v, x),
                    forall|j: int|
                        iv <= j < n
                            ==> row_exact(self.transitive_closure@, wires_g,
                                #[trigger] topo_g[j]),
                    forall|j: int|
                        0 <= j < iv
                            ==> row_mid(self.transitive_closure@, wires_g, topo_g, iv + 1,
                                k as int, v, #[trigger] topo_g[j]),
                    forall|p: int|
                        0 <= p < self.transitive_closure@.len()
                            ==> topo_g.contains((#[trigger] self.transitive_closure@[p]).0),
                    self.transitive_closure@.no_duplicates(),
                decreases m - k,
            {
                let w = self.wires[k];
                if w.to == v {
                    let p = w.from;
                    proof {
                        // The parent p sits strictly before v in the order.
                        assert(before(topo_g, p, v));
                        lemma_before_index(topo_g, p, v);
                        assert(topo_g.index_of(v) == iv);
                        assert(0 <= topo_g.index_of(p) < iv);
                    }
                    let ghost jp = topo_g.index_of(p);
                    let ghost clk = self.transitive_closure@;
                    let rlen = v_reach.len();
                    let mut t: usize = 0;
                    while t < rlen
                        invariant
                            0 <= t <= rlen,
                            rlen == v_reach@.len(),
                            self.topological_order@ == topo_g,
                            self.wires@ == wires_g,
                            self.id_counter == old(self).id_counter,
                            clk.len() <= self.transitive_closure@.len(),
                            forall|q: int|
                                0 <= q < clk.len()
                                    ==> #[trigger] self.transitive_closure@[q] == clk[q],
                            forall|q: int|
                                clk.len() <= q < self.transitive_closure@.len()
                                    ==> (#[trigger] self.transitive_closure@[q]).0 == p,
                            forall|u: DeviceId, x: DeviceId|
                                #![trigger self.transitive_closure@.contains((u, x))]
                                self.transitive_closure@.contains((u, x)) <==> (clk.contains(
                                    (u, x)) || (u == p && v_reach@.subrange(0,
                                    t as int).contains(x))),
                            self.transitive_closure@.no_duplicates(),
                        decreases rlen - t,
                    {
                        let ghost clt = self.transitive_closure@;
                        let x = v_reach[t];
                        // A pair already listed is not pushed again, so
                        // the cache stays a set.
                        let present = pair_present(&self.transitive_closure, p, x);
                        if !present {
                            self.transitive_closure.push((p, x));
                            proof {
                                lemma_push_no_dup(clt, (p, x));
                            }
                        }
                        proof {
                            lemma_subrange_push(v_reach@, t as int);
                            assert forall|u: DeviceId, y: DeviceId|
                                #![trigger self.transitive_closure@.contains((u, y))]
                                self.transitive_closure@.contains((u, y)) <==> (clk.contains(
                                    (u, y)) || (u == p && v_reach@.subrange(0,
                                    t as int + 1).contains(y))) by {
                                lemma_push_contains(v_reach@.subrange(0, t as int), x, y);
                                if !present {
                                    lemma_push_contains(clt, (p, x), (u, y));
                                } else {
                                    assert(clt.contains((p, x)));
                                }
                            }
                        }
                        t += 1;
                    }
                    proof {
                        let cl = self.transitive_closure@;
                        assert(v_reach@.subrange(0, rlen as int) =~= v_reach@);
                        // Rows at or after iv are untouched: their vertex
                        // differs from p.
                        assert forall|j: int| iv <= j < n
                            implies row_exact(cl, wires_g, #[trigger] topo_g[j]) by {
                            assert(topo_g[j] != p);
                            assert forall|x: DeviceId|
                                #![trigger cl.contains((topo_g[j], x))]
                                #![trigger reaches(wires_g, topo_g[j], x)]
                                cl.contains((topo_g[j], x)) <==> reaches(wires_g, topo_g[j],
                                    x) by {
                                assert(cl.contains((topo_g[j], x)) <==> clk.contains((
                                    topo_g[j], x)));
                                assert(row_exact(clk, wires_g, topo_g[j]));
                            }
                        }
                        // Unprocessed rows advance from k to k + 1.
                        assert forall|j: int| 0 <= j < iv
                            implies row_mid(cl, wires_g, topo_g, iv + 1, k as int + 1, v,
                                #[trigger] topo_g[j]) by {
                            let u = topo_g[j];
                            assert(row_mid(clk, wires_g, topo_g, iv + 1, k as int, v, u));
                            assert forall|x: DeviceId|
                                #![trigger cl.contains((u, x))]
                                cl.contains((u, x)) <==> (child_reach(wires_g, topo_g, iv + 1,
                                    u, x) || (edge_upto(wires_g, k as int + 1, u, v)
                                    && reaches(wires_g, v, x))) by {
                                if u == p {
                                    assert(wires_g[k as int].from == u
                                        && wires_g[k as int].to == v);
                                    assert(edge_upto(wires_g, k as int + 1, u, v));
                                } else {
                                    assert(cl.contains((u, x)) <==> clk.contains((u, x)));
                                    assert(edge_upto(wires_g, k as int + 1, u, v)
                                        <==> edge_upto(wires_g, k as int, u, v)) by {
                                        if edge_upto(wires_g, k as int + 1, u, v) {
                                            let k2 = choose|k2: int|
                                                0 <= k2 < k as int + 1
                                                    && (#[trigger] wires_g[k2]).from == u
                                                    && wires_g[k2].to == v;
                                            assert(k2 < k as int);
                                        }
                                    }
                                }
                            }
                        }
                        // Every new pair's source is the live vertex p.
                        assert forall|q: int| 0 <= q < cl.len()
                            implies topo_g.contains((#[trigger] cl[q]).0) by {
                            if q < clk.len() {
                                assert(cl[q] == clk[q]);
                            } else {
                                assert(cl[q].0 == p);
                                assert(topo_g[jp] == p);
                            }
                        }
                    }
                } else {
                    proof {
                        let cl = self.transitive_closure@;
                        assert forall|j: int| 0 <= j < iv
                            implies row_mid(cl, wires_g, topo_g, iv + 1, k as int + 1, v,
                                #[trigger] topo_g[j]) by {
                            let u = topo_g[j];
                            assert(row_mid(cl, wires_g, topo_g, iv + 1, k as int, v, u));
                            assert(edge_upto(wires_g, k as int + 1, u, v) <==> edge_upto(
                                wires_g, k as int, u, v)) by {
                                if edge_upto(wires_g, k as int + 1, u, v) {
                                    let k2 = choose|k2: int|
                                        0 <= k2 < k as int + 1
                                            && (#[trigger] wires_g[k2]).from == u
                                            && wires_g[k2].to == v;
                                    assert(k2 < k as int);
                                }
                            }
                        }
                    }
                }
                k += 1;
            }
            proof {
                // With every wire scanned, the mid-pass rows are exactly
                // the partial rows for bound i.
                let cl = self.transitive_closure@;
                assert forall|j: int| 0 <= j < iv
                    implies row_partial(cl, wires_g, topo_g, iv, #[trigger] topo_g[j]) by {
                    let u = topo_g[j];
                    assert(row_mid(cl, wires_g, topo_g, iv + 1, m as int, v, u));
                    assert forall|x: DeviceId|
                        #![trigger cl.contains((u, x))]
                        #![trigger child_reach(wires_g, topo_g, iv, u, x)]
                        cl.contains((u, x)) <==> child_reach(wires_g, topo_g, iv, u, x) by {
                        if child_reach(wires_g, topo_g, iv, u, x) {
                            let (k2, j2) = choose|k2: int, j2: int|
                                #![trigger wires_g[k2], topo_g[j2]]
                                0 <= k2 < wires_g.len() && iv <= j2 < topo_g.len()
                                    && wires_g[k2].from == u && wires_g[k2].to == topo_g[j2]
                                    && reaches(wires_g, topo_g[j2], x);
                            if j2 == iv {
                                assert(edge_upto(wires_g, m as int, u, v));
                            } else {
                                assert(child_reach(wires_g, topo_g, iv + 1, u, x));
                            }
                        }
                        if cl.contains((u, x)) {
                            if child_reach(wires_g, topo_g, iv + 1, u, x) {
                                let (k2, j2) = choose|k2: int, j2: int|
                                    #![trigger wires_g[k2], topo_g[j2]]
                                    0 <= k2 < wires_g.len() && iv + 1 <= j2 < topo_g.len()
                                        && wires_g[k2].from == u
                                        && wires_g[k2].to == topo_g[j2]
                                        && reaches(wires_g, topo_g[j2], x);
                                assert(child_reach(wires_g, topo_g, iv, u, x));
                            } else {
                                let k2 = choose|k2: int|
                                    0 <= k2 < m as int && (#[trigger] wires_g[k2]).from == u
                                        && wires_g[k2].to == v;
                                assert(child_reach(wires_g, topo_g, iv, u, x));
                            }
                        }
                    }
                }
            }
        }
        proof {
            // Every row is exact and every listed source is live, which is
            // exactly the closure-matches invariant.
            let cl = self.transitive_closure@;
            assert forall|u: DeviceId, x: DeviceId|
                #![trigger self.closure_has(u, x)]
                #![trigger self.reachable(u, x)]
                self.closure_has(u, x) <==> self.reachable(u, x) by {
                if topo_g.contains(u) {
                    let j = choose|j: int| 0 <= j < topo_g.len() && topo_g[j] == u;
                    assert(row_exact(cl, wires_g, topo_g[j]));
                    assert(cl.contains((u, x)) <==> reaches(wires_g, u, x));
                } else {
                    if self.closure_has(u, x) {
                        let q = choose|q: int| 0 <= q < cl.len() && cl[q] == (u, x);
                        assert(topo_g.contains(cl[q].0));
                    }
                }
            }
        }
    }

    /// Recompute both caches after a structural change. The ghost
    /// `witness` is any topological order of the current wires covering
    /// the current vertices; its existence is what makes the rebuild
    /// total.
    fn recompute_caches(&mut self, Ghost(witness): Ghost<Seq<DeviceId>>)
        requires
            old(self).topo().no_duplicates(),
            endpoints_in(old(self).wire_list(), old(self).topo()),
            old(self).ids_bounded(),
            valid_topo(witness, old(self).wire_list()),
            forall|i: int|
                0 <= i < old(self).topo().len()
                    ==> witness.contains(#[trigger] old(self).topo()[i]),
        ensures
            final(self).wf(),
            final(self).wire_list() == old(self).wire_list(),
            final(self).next_id() == old(self).next_id(),
            final(self).topo().len() == old(self).topo().len(),
            forall|x: DeviceId|
                #[trigger] final(self).contains_dev(x) <==> old(self).contains_dev(x),
    {
        self.recompute_topological_order(Ghost(witness));
        self.recompute_transitive_closure();
    }

    /// Insert a wire from `from` to `to`. A wire already present between
    /// the pair (of any polarity) is left alone and reported as success;
    /// a wire with a dead endpoint, or one that would close a directed
    /// cycle, is refused with `IllegalWireError` and the graph is left
    /// byte for byte as it was; otherwise the wire is inserted and both
    /// caches are recomputed.
    pub fn add_wire(&mut self, from: DeviceId, to: DeviceId, wire_type: WireType) -> (r: Result<
        (),
        IllegalWireError,
    >)
        requires
            old(self).wf(),
        ensures
            final(self).wf(),
            Dag::add_wire_post(*old(self), *final(self), r, from, to, wire_type),
    {
        let ghost pre = *self;
        if self.contains_wire(from, to) {
            Ok(())
        } else if self.is_reachable(to, from) {
            // The edge would close a cycle.
            Err(IllegalWireError)
        } else if self.contains_device(from) && self.contains_device(to) {
            let w = Wire { from, to, wire_type };
            self.wires.push(w);
            proof {
                lemma_insert_witness(pre.topo(), pre.wire_list(), w);
                assert(endpoints_in(self.wire_list(), self.topo())) by {
                    assert forall|k: int| 0 <= k < self.wire_list().len()
                        implies self.topo().contains((#[trigger] self.wire_list()[k]).from)
                            && self.topo().contains(self.wire_list()[k].to) by {
                        if k < pre.wire_list().len() {
                            assert(pre.wire_list()[k] == self.wire_list()[k]);
                        }
                    }
                }
            }
            let ghost wtn = insert_witness(pre.topo(), pre.wire_list(), w);
            self.recompute_caches(Ghost(wtn));
            proof {
                assert forall|x: DeviceId, y: DeviceId|
                    #![trigger self.has_wire(x, y)]
                    self.has_wire(x, y) <==> (pre.has_wire(x, y) || (x == from && y == to)) by {
                    if self.has_wire(x, y) {
                        let k = choose|k: int|
                            0 <= k < self.wire_list().len()
                                && (#[trigger] self.wire_list()[k]).from == x
                                && self.wire_list()[k].to == y;
                        if k < pre.wire_list().len() {
                            assert(pre.wire_list()[k] == self.wire_list()[k]);
                            assert(pre.has_wire(x, y));
                        }
                    }
                    if pre.has_wire(x, y) {
                        let k = choose|k: int|
                            0 <= k < pre.wire_list().len()
                                && (#[trigger] pre.wire_list()[k]).from == x
                                && pre.wire_list()[k].to == y;
                        assert(self.wire_list()[k] == pre.wire_list()[k]);
                    }
                    if x == from && y == to {
                        assert(self.wire_list()[self.wire_list().len() - 1] == w);
                    }
                }
            }
            Ok(())
        } else {
            // The edge names a vertex that does not exist.
            Err(IllegalWireError)
        }
    }

    /// Remove the wire from `from` to `to` if present, and recompute the
    /// caches; removing an absent wire is a no-op with no error. The
    /// vertex set is untouched.
    pub fn remove_wire(&mut self, from: DeviceId, to: DeviceId)
        requires
            old(self).wf(),
        ensures
            final(self).wf(),
            final(self).wire_list() == old(self).wire_list().filter(keeps_wire(from, to)),
            forall|a: DeviceId, b: DeviceId|
                #[trigger] final(self).has_wire(a, b)
                    <==> (old(self).has_wire(a, b) && !(a == from && b == to)),
            forall|x: DeviceId|
                #[trigger] final(self).contains_dev(x) <==> old(self).contains_dev(x),
            final(self).topo().len() == old(self).topo().len(),
            final(self).next_id() == old(self).next_id(),
    {
        let ghost pre = *self;
        let n = self.wires.len();
        let mut kept: Vec<Wire> = Vec::new();
        let mut i: usize = 0;
        while i < n
            invariant
                0 <= i <= n,
                n == pre.wire_list().len(),
                *self == pre,
                kept@ == pre.wire_list().subrange(0, i as int).filter(keeps_wire(from, to)),
            decreases n - i,
        {
            let w = self.wires[i];
            proof {
                lemma_filter_step(pre.wire_list(), keeps_wire(from, to), i as int);
            }
            if !(w.from == from && w.to == to) {
                kept.push(w);
            }
            i += 1;
        }
        proof {
            assert(pre.wire_list().subrange(0, n as int) =~= pre.wire_list());
        }
        self.wires = kept;
        proof {
            self.lemma_filtered_wires_fit(pre, keeps_wire(from, to));
        }
        self.recompute_caches(Ghost(pre.topo()));
        proof {
            Dag::lemma_filtered_has_wire(pre, *self, keeps_wire(from, to));
            assert forall|a: DeviceId, b: DeviceId|
                #![trigger self.has_wire(a, b)]
                self.has_wire(a, b) <==> (pre.has_wire(a, b) && !(a == from && b == to)) by {
                assert(self.has_wire(a, b) <==> (pre.has_wire(a, b) && keeps_wire(from, to)(
                    Wire { from: a, to: b, wire_type: WireType::Normal })));
            }
        }
    }

    /// Remove vertex `d` and every wire touching it, as source or target,
    /// and recompute the caches; removing an absent vertex is a no-op
    /// with no error.
    pub fn remove_device(&mut self, d: DeviceId)
        requires
            old(self).wf(),
        ensures
            final(self).wf(),
            !final(self).contains_dev(d),
            forall|x: DeviceId|
                #[trigger] final(self).contains_dev(x)
                    <==> (old(self).contains_dev(x) && x != d),
            forall|a: DeviceId, b: DeviceId|
                #[trigger] final(self).has_wire(a, b)
                    <==> (old(self).has_wire(a, b) && a != d && b != d),
            final(self).wire_list() == old(self).wire_list().filter(wire_avoids(d)),
            final(self).next_id() == old(self).next_id(),
    {
        let ghost pre = *self;
        let n = self.wires.len();
        let mut kept: Vec<Wire> = Vec::new();
        let mut i: usize = 0;
        while i < n
            invariant
                0 <= i <= n,
                n == pre.wire_list().len(),
                *self == pre,
                kept@ == pre.wire_list().subrange(0, i as int).filter(wire_avoids(d)),
            decreases n - i,
        {
            let w = self.wires[i];
            proof {
                lemma_filter_step(pre.wire_list(), wire_avoids(d), i as int);
            }
            if w.from != d && w.to != d {
                kept.push(w);
            }
            i += 1;
        }
        let m = self.topological_order.len();
        let mut verts: Vec<DeviceId> = Vec::new();
        let mut j: usize = 0;
        while j < m
            invariant
                0 <= j <= m,
                m == pre.topo().len(),
                *self == pre,
                verts@ == pre.topo().subrange(0, j as int).filter(other_vertex(d)),
            decreases m - j,
        {
            let x = self.topological_order[j];
            proof {
                lemma_filter_step(pre.topo(), other_vertex(d), j as int);
            }
            if x != d {
                verts.push(x);
            }
            j += 1;
        }
        proof {
            assert(pre.wire_list().subrange(0, n as int) =~= pre.wire_list());
            assert(pre.topo().subrange(0, m as int) =~= pre.topo());
        }
        self.wires = kept;
        proof {
            self.lemma_filtered_wires_fit(pre, wire_avoids(d));
        }
        self.topological_order = verts;
        proof {
            // The filtered vertex list is duplicate-free, covers the kept
            // wires' endpoints, and is itself a topological order of them.
            lemma_filter_no_dup(pre.topo(), other_vertex(d));
            assert(endpoints_in(self.wire_list(), self.topo())) by {
                assert forall|k: int| 0 <= k < self.wire_list().len()
                    implies self.topo().contains((#[trigger] self.wire_list()[k]).from)
                        && self.topo().contains(self.wire_list()[k].to) by {
                    let w = self.wire_list()[k];
                    pre.wire_list().lemma_filter_pred(wire_avoids(d), k);
                    assert(self.wire_list().contains(w));
                    pre.wire_list().lemma_filter_contains_rev(wire_avoids(d), w);
                    let k0 = choose|k0: int|
                        0 <= k0 < pre.wire_list().len() && pre.wire_list()[k0] == w;
                    assert(pre.topo().contains(w.from) && pre.topo().contains(w.to));
                    let a0 = choose|a0: int|
                        0 <= a0 < pre.topo().len() && pre.topo()[a0] == w.from;
                    let b0 = choose|b0: int|
                        0 <= b0 < pre.topo().len() && pre.topo()[b0] == w.to;
                    pre.topo().lemma_filter_contains(other_vertex(d), a0);
                    pre.topo().lemma_filter_contains(other_vertex(d), b0);
                }
            }
            assert(self.ids_bounded()) by {
                assert forall|i2: int| 0 <= i2 < self.topological_order@.len()
                    implies (#[trigger] self.topological_order@[i2]).0 < self.id_counter by {
                    let x = self.topological_order@[i2];
                    assert(self.topo().contains(x));
                    pre.topo().lemma_filter_contains_rev(other_vertex(d), x);
                    let j0 = choose|j0: int| 0 <= j0 < pre.topo().len() && pre.topo()[j0] == x;
                    assert(pre.topo()[j0].0 < pre.id_counter);
                }
            }
            assert(forall|k: int|
                0 <= k < self.wire_list().len()
                    ==> other_vertex(d)((#[trigger] self.wire_list()[k]).from) && other_vertex(
                    d)(self.wire_list()[k].to)) by {
                assert forall|k: int| 0 <= k < self.wire_list().len()
                    implies other_vertex(d)((#[trigger] self.wire_list()[k]).from)
                        && other_vertex(d)(self.wire_list()[k].to) by {
                    pre.wire_list().lemma_filter_pred(wire_avoids(d), k);
                }
            }
            lemma_filter_order_valid(pre.topo(), self.wire_list(), other_vertex(d));
        }
        let ghost wtn = pre.topo().filter(other_vertex(d));
        self.recompute_caches(Ghost(wtn));
        proof {
            Dag::lemma_filtered_has_wire(pre, *self, wire_avoids(d));
            assert forall|a: DeviceId, b: DeviceId|
                #![trigger self.has_wire(a, b)]
                self.has_wire(a, b) <==> (pre.has_wire(a, b) && a != d && b != d) by {
                assert(self.has_wire(a, b) <==> (pre.has_wire(a, b) && wire_avoids(d)(
                    Wire { from: a, to: b, wire_type: WireType::Normal })));
            }
            assert forall|x: DeviceId|
                #![trigger self.contains_dev(x)]
                self.contains_dev(x) <==> (pre.contains_dev(x) && x != d) by {
                if pre.topo().contains(x) && x != d {
                    let j0 = choose|j0: int| 0 <= j0 < pre.topo().len() && pre.topo()[j0] == x;
                    pre.topo().lemma_filter_contains(other_vertex(d), j0);
                }
                if wtn.contains(x) {
                    pre.topo().lemma_filter_contains_rev(other_vertex(d), x);
                    let j1 = choose|j1: int| 0 <= j1 < wtn.len() && wtn[j1] == x;
                    pre.topo().lemma_filter_pred(other_vertex(d), j1);
                }
            }
        }
    }

    /// All wires ending at `child`: the parents-of view the evaluator
    /// resolves inputs from, in wire-list order.
    pub fn incoming(&self, child: DeviceId) -> (r: Vec<Wire>)
        ensures
            r@ == self.wire_list().filter(wire_into(child)),
            forall|i: int|
                0 <= i < r@.len()
                    ==> (#[trigger] r@[i]).to == child && self.wire_list().contains(r@[i]),
            forall|k: int|
                0 <= k < self.wire_list().len() && (#[trigger] self.wire_list()[k]).to == child
                    ==> r@.contains(self.wire_list()[k]),
    {
        let n = self.wires.len();
        let mut r: Vec<Wire> = Vec::new();
        let mut i: usize = 0;
        while i < n
            invariant
                0 <= i <= n,
                r@ == self.wire_list().subrange(0, i as int).filter(wire_into(child)),
            decreases n - i,
        {
            let w = self.wires[i];
            proof {
                lemma_filter_step(self.wire_list(), wire_into(child), i as int);
            }
            if w.to == child {
                r.push(w);
            }
            i += 1;
        }
        proof {
            assert(self.wire_list().subrange(0, n as int) =~= self.wire_list());
            assert forall|i2: int| 0 <= i2 < r@.len()
                implies (#[trigger] r@[i2]).to == child && self.wire_list().contains(r@[i2]) by {
                self.wire_list().lemma_filter_pred(wire_into(child), i2);
                assert(r@.contains(r@[i2]));
                self.wire_list().lemma_filter_contains_rev(wire_into(child), r@[i2]);
            }
            assert forall|k: int|
                0 <= k < self.wire_list().len()
                    && (#[trigger] self.wire_list()[k]).to == child
                implies r@.contains(self.wire_list()[k]) by {
                self.wire_list().lemma_filter_contains(wire_into(child), k);
            }
        }
        r
    }

    /// The kept wires of a filtered wire list still fit the old order and
    /// vertex list.
    proof fn lemma_filtered_wires_fit(self, pre: Dag, keep: spec_fn(Wire) -> bool)
        requires
            pre.wf(),
            self.wire_list() == pre.wire_list().filter(keep),
            self.topo() == pre.topo(),
            self.next_id() == pre.next_id(),
        ensures
            self.topo().no_duplicates(),
            endpoints_in(self.wire_list(), self.topo()),
            self.ids_bounded(),
            valid_topo(pre.topo(), self.wire_list()),
    {
        assert forall|k: int| 0 <= k < self.wire_list().len()
            implies pre.wire_list().contains(#[trigger] self.wire_list()[k]) by {
            assert(self.wire_list().contains(self.wire_list()[k]));
            pre.wire_list().lemma_filter_contains_rev(keep, self.wire_list()[k]);
        }
        lemma_subset_wires_valid(pre.topo(), pre.wire_list(), self.wire_list());
        assert forall|k: int| 0 <= k < self.wire_list().len()
            implies self.topo().contains((#[trigger] self.wire_list()[k]).from)
                && self.topo().contains(self.wire_list()[k].to) by {
            let w = self.wire_list()[k];
            let k0 = choose|k0: int| 0 <= k0 < pre.wire_list().len() && pre.wire_list()[k0] == w;
            assert(pre.topo().contains(w.from) && pre.topo().contains(w.to));
        }
        assert(self.ids_bounded()) by {
            assert(valid_topo(pre.topo(), pre.wire_list()));
        }
    }

    /// Edge membership in a filtered wire list, for filters that decide
    /// on the endpoint pair alone.
    proof fn lemma_filtered_has_wire(pre: Dag, post: Dag, keep: spec_fn(Wire) -> bool)
        requires
            post.wire_list() == pre.wire_list().filter(keep),
            forall|w1: Wire, w2: Wire|
                w1.from == w2.from && w1.to == w2.to ==> #[trigger] keep(w1) == #[trigger] keep(
                    w2,
                ),
        ensures
            forall|a: DeviceId, b: DeviceId|
                #[trigger] post.has_wire(a, b)
                    <==> (pre.has_wire(a, b) && keep(
                    Wire { from: a, to: b, wire_type: WireType::Normal },
                )),
    {
        assert forall|a: DeviceId, b: DeviceId|
            #![trigger post.has_wire(a, b)]
            post.has_wire(a, b) <==> (pre.has_wire(a, b) && keep(
                Wire { from: a, to: b, wire_type: WireType::Normal })) by {
            let probe = Wire { from: a, to: b, wire_type: WireType::Normal };
            if post.has_wire(a, b) {
                let k = choose|k: int|
                    0 <= k < post.wire_list().len()
                        && (#[trigger] post.wire_list()[k]).from == a
                        && post.wire_list()[k].to == b;
                let w = post.wire_list()[k];
                pre.wire_list().lemma_filter_pred(keep, k);
                assert(post.wire_list().contains(w));
                pre.wire_list().lemma_filter_contains_rev(keep, w);
                let k0 = choose|k0: int|
                    0 <= k0 < pre.wire_list().len() && pre.wire_list()[k0] == w;
                assert(pre.has_wire(a, b));
                assert(keep(probe) == keep(w));
            }
            if pre.has_wire(a, b) && keep(probe) {
                let k = choose|k: int|
                    0 <= k < pre.wire_list().len()
                        && (#[trigger] pre.wire_list()[k]).from == a
                        && pre.wire_list()[k].to == b;
                assert(keep(pre.wire_list()[k]) == keep(probe));
                pre.wire_list().lemma_filter_contains(keep, k);
                let w = pre.wire_list()[k];
                let k1 = choose|k1: int|
                    0 <= k1 < post.wire_list().len() && post.wire_list()[k1] == w;
                assert(post.has_wire(a, b));
            }
        }
    }
}

/// Acyclicity: in a well-formed graph, no two distinct vertices reach
/// each other, whatever sequence of successful mutations built it.
pub proof fn lemma_acyclicity(g: Dag, u: DeviceId, v: DeviceId)
    requires
        g.wf(),
        u != v,
    ensures
        !(g.reachable(u, v) && g.reachable(v, u)),
{
    if g.reachable(u, v) && g.reachable(v, u) {
        lemma_reaches_before(g.topo(), g.wire_list(), u, v);
        lemma_reaches_before(g.topo(), g.wire_list(), v, u);
        lemma_before_asym(g.topo(), u, v);
    }
}

/// Topological consistency: every wire's source sits at a strictly
/// smaller index of the cached order than its target.
pub proof fn lemma_topological_consistency(g: Dag, k: int)
    requires
        g.wf(),
        0 <= k < g.wire_list().len(),
    ensures
        before(g.topo(), g.wire_list()[k].from, g.wire_list()[k].to),
        g.topo().index_of(g.wire_list()[k].from) < g.topo().index_of(g.wire_list()[k].to),
{
    assert(before(g.topo(), g.wire_list()[k].from, g.wire_list()[k].to));
    lemma_before_index(g.topo(), g.wire_list()[k].from, g.wire_list()[k].to);
}

/// A well-formed graph's wire set has no directed cycle at all.
pub proof fn lemma_wf_acyclic(g: Dag)
    requires
        g.wf(),
    ensures
        acyclic(g.wire_list()),
{
    lemma_valid_topo_acyclic(g.topo(), g.wire_list());
}

/// Handles are never reused: every handle live in a well-formed graph is
/// numbered strictly below the counter. Since `add_device` returns the
/// handle numbered by the counter and advances it, and no operation ever
/// lowers the counter, a handle live in — or returned during — any
/// earlier state differs from every handle issued later, removals
/// in between included.
pub proof fn lemma_handle_below_counter(g: Dag, d: DeviceId)
    requires
        g.wf(),
        g.contains_dev(d),
    ensures
        d.num() < g.next_id(),
{
    let i = choose|i: int| 0 <= i < g.topo().len() && g.topo()[i] == d;
    assert(g.topological_order@[i].0 < g.id_counter);
}

/// Idempotence of `add_wire`: running the same call twice in a row ends
/// in exactly the state the first call produced, with the same result.
pub proof fn lemma_add_wire_idempotent(
    s0: Dag,
    s1: Dag,
    s2: Dag,
    r1: Result<(), IllegalWireError>,
    r2: Result<(), IllegalWireError>,
    from: DeviceId,
    to: DeviceId,
    wt: WireType,
)
    requires
        s0.wf(),
        Dag::add_wire_post(s0, s1, r1, from, to, wt),
        Dag::add_wire_post(s1, s2, r2, from, to, wt),
    ensures
        s2.same_state(s1),
        r2 is Ok <==> r1 is Ok,
{
    if s0.has_wire(from, to) {
        assert(s1.has_wire(from, to));
    } else if s0.wire_ok(from, to) {
        // The first call inserted the wire, so the second finds it.
        let w = Wire { from, to, wire_type: wt };
        assert(s1.wire_list()[s1.wire_list().len() - 1] == w);
        assert(s1.has_wire(from, to));
    } else {
        // The first call failed and changed nothing, so the second fails
        // the same way.
        assert(!s1.has_wire(from, to));
        assert(!s1.wire_ok(from, to));
    }
}

} // verus!
