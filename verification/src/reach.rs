//! The mathematical model of the circuit graph: directed edges over device
//! handles, paths and reachability, and what it means for a sequence of
//! handles to be a topological order of a wire set.
use vstd::prelude::*;

use crate::dag::{DeviceId, Wire};

verus! {

/// Some wire in `wires` runs from `from` to `to`.
pub open spec fn has_edge(wires: Seq<Wire>, from: DeviceId, to: DeviceId) -> bool {
    exists|k: int| 0 <= k < wires.len() && (#[trigger] wires[k]).from == from && wires[k].to == to
}

/// A directed path of length at most `n` runs from `from` to `to`.
pub open spec fn reaches_within(wires: Seq<Wire>, from: DeviceId, to: DeviceId, n: nat) -> bool
    decreases n,
{
    from == to || (n > 0 && exists|mid: DeviceId|
        #[trigger] has_edge(wires, from, mid) && reaches_within(wires, mid, to, (n - 1) as nat))
}

/// A directed path (possibly empty) runs from `from` to `to`.
pub open spec fn reaches(wires: Seq<Wire>, from: DeviceId, to: DeviceId) -> bool {
    exists|n: nat| reaches_within(wires, from, to, n)
}

/// `u` appears strictly before `v` in `order`.
pub open spec fn before(order: Seq<DeviceId>, u: DeviceId, v: DeviceId) -> bool {
    exists|i: int, j: int| 0 <= i < j < order.len() && order[i] == u && order[j] == v
}

/// Every wire runs forward along `order`.
pub open spec fn respects_wires(order: Seq<DeviceId>, wires: Seq<Wire>) -> bool {
    forall|k: int| 0 <= k < wires.len()
        ==> before(order, (#[trigger] wires[k]).from, wires[k].to)
}

/// `order` is a topological order for `wires`: duplicate-free and consistent
/// with every wire's direction.
pub open spec fn valid_topo(order: Seq<DeviceId>, wires: Seq<Wire>) -> bool {
    order.no_duplicates() && respects_wires(order, wires)
}

/// Both endpoints of every wire occur in `verts`.
pub open spec fn endpoints_in(wires: Seq<Wire>, verts: Seq<DeviceId>) -> bool {
    forall|k: int| 0 <= k < wires.len()
        ==> verts.contains((#[trigger] wires[k]).from) && verts.contains(wires[k].to)
}

/// Some wire in `wires` ends at `v` and starts at a vertex of `set`.
pub open spec fn parent_in(wires: Seq<Wire>, set: Seq<DeviceId>, v: DeviceId) -> bool {
    exists|k: int|
        0 <= k < wires.len() && (#[trigger] wires[k]).to == v && set.contains(wires[k].from)
}

/// The wire set has no directed cycle: no wire closes a path back to its
/// own source.
pub open spec fn acyclic(wires: Seq<Wire>) -> bool {
    forall|u: DeviceId, v: DeviceId|
        #[trigger] has_edge(wires, u, v) ==> !reaches(wires, v, u)
}

pub proof fn lemma_reaches_refl(wires: Seq<Wire>, u: DeviceId)
    ensures
        reaches(wires, u, u),
{
    assert(reaches_within(wires, u, u, 0));
}

pub proof fn lemma_reaches_step(wires: Seq<Wire>, u: DeviceId, mid: DeviceId, v: DeviceId)
    requires
        has_edge(wires, u, mid),
        reaches(wires, mid, v),
    ensures
        reaches(wires, u, v),
{
    let n = choose|n: nat| reaches_within(wires, mid, v, n);
    assert(reaches_within(wires, u, v, n + 1));
}

pub proof fn lemma_reaches_unfold(wires: Seq<Wire>, u: DeviceId, v: DeviceId) -> (mid: DeviceId)
    requires
        reaches(wires, u, v),
        u != v,
    ensures
        has_edge(wires, u, mid),
        reaches(wires, mid, v),
{
    let n = choose|n: nat| reaches_within(wires, u, v, n);
    let mid = choose|mid: DeviceId|
        #[trigger] has_edge(wires, u, mid) && reaches_within(wires, mid, v, (n - 1) as nat);
    assert(reaches(wires, mid, v));
    mid
}

pub proof fn lemma_before_push(order: Seq<DeviceId>, x: DeviceId, u: DeviceId, v: DeviceId)
    requires
        before(order, u, v),
    ensures
        before(order.push(x), u, v),
{
    let (i, j) = choose|i: int, j: int|
        0 <= i < j < order.len() && order[i] == u && order[j] == v;
    assert(order.push(x)[i] == u && order.push(x)[j] == v);
}

pub proof fn lemma_push_contains<A>(s: Seq<A>, x: A, y: A)
    ensures
        s.push(x).contains(y) <==> s.contains(y) || y == x,
{
    if s.contains(y) {
        let i = choose|i: int| 0 <= i < s.len() && s[i] == y;
        assert(s.push(x)[i] == y);
    }
    if y == x {
        assert(s.push(x)[s.len() as int] == y);
    }
    if s.push(x).contains(y) {
        let i = choose|i: int| 0 <= i < s.push(x).len() && s.push(x)[i] == y;
        if i < s.len() {
            assert(s[i] == y);
        }
    }
}

/// Appending an element that is not yet present keeps a sequence
/// duplicate-free.
pub proof fn lemma_push_no_dup<A>(s: Seq<A>, x: A)
    requires
        s.no_duplicates(),
        !s.contains(x),
    ensures
        s.push(x).no_duplicates(),
{
    assert forall|i: int, j: int| 0 <= i < j < s.push(x).len() implies s.push(x)[i]
        != s.push(x)[j] by {
        if j == s.len() && s.push(x)[i] == s.push(x)[j] {
            assert(s[i] == x);
        }
    };
}

/// Extending a prefix by one element, as `push`.
pub proof fn lemma_subrange_push<A>(s: Seq<A>, i: int)
    requires
        0 <= i < s.len(),
    ensures
        s.subrange(0, i + 1) == s.subrange(0, i).push(s[i]),
{
    assert(s.subrange(0, i + 1) =~= s.subrange(0, i).push(s[i]));
}

/// How a filtered prefix grows when the prefix grows by one element.
pub proof fn lemma_filter_step<A>(s: Seq<A>, pred: spec_fn(A) -> bool, i: int)
    requires
        0 <= i < s.len(),
    ensures
        s.subrange(0, i + 1).filter(pred) == (if pred(s[i]) {
            s.subrange(0, i).filter(pred).push(s[i])
        } else {
            s.subrange(0, i).filter(pred)
        }),
{
    reveal(Seq::filter);
    lemma_subrange_push(s, i);
    let s1 = s.subrange(0, i + 1);
    assert(s1.drop_last() =~= s.subrange(0, i));
    assert(s1.last() == s[i]);
}

pub proof fn lemma_remove_no_dup(s: Seq<DeviceId>, i: int)
    requires
        s.no_duplicates(),
        0 <= i < s.len(),
    ensures
        s.remove(i).no_duplicates(),
{
    s.remove_ensures(i);
    assert forall|a: int, b: int| 0 <= a < b < s.remove(i).len() implies s.remove(i)[a]
        != s.remove(i)[b] by {
        let a0: int = if a < i { a } else { a + 1 };
        let b0: int = if b < i { b } else { b + 1 };
        assert(s.remove(i)[a] == s[a0]);
        assert(s.remove(i)[b] == s[b0]);
    };
}

/// In a duplicate-free sequence, removing index `i` removes exactly the
/// element at `i` from the membership relation.
pub proof fn lemma_remove_contains(s: Seq<DeviceId>, i: int, x: DeviceId)
    requires
        s.no_duplicates(),
        0 <= i < s.len(),
    ensures
        s.remove(i).contains(x) <==> s.contains(x) && x != s[i],
{
    s.remove_ensures(i);
    if s.remove(i).contains(x) {
        let a = choose|a: int| 0 <= a < s.remove(i).len() && s.remove(i)[a] == x;
        let a0: int = if a < i { a } else { a + 1 };
        assert(s[a0] == x);
    }
    if s.contains(x) && x != s[i] {
        let a0 = choose|a0: int| 0 <= a0 < s.len() && s[a0] == x;
        if a0 < i {
            assert(s.remove(i)[a0] == x);
        } else {
            assert(s.remove(i)[a0 - 1] == x);
        }
    }
}

pub proof fn lemma_before_trans(order: Seq<DeviceId>, u: DeviceId, m: DeviceId, v: DeviceId)
    requires
        order.no_duplicates(),
        before(order, u, m),
        before(order, m, v),
    ensures
        before(order, u, v),
{
    let (i1, j1) = choose|i: int, j: int|
        0 <= i < j < order.len() && order[i] == u && order[j] == m;
    let (i2, j2) = choose|i: int, j: int|
        0 <= i < j < order.len() && order[i] == m && order[j] == v;
    assert(j1 == i2);
    assert(0 <= i1 < j2 < order.len() && order[i1] == u && order[j2] == v);
}

pub proof fn lemma_before_asym(order: Seq<DeviceId>, u: DeviceId, v: DeviceId)
    requires
        order.no_duplicates(),
        before(order, u, v),
    ensures
        !before(order, v, u),
{
    if before(order, v, u) {
        let (i1, j1) = choose|i: int, j: int|
            0 <= i < j < order.len() && order[i] == u && order[j] == v;
        let (i2, j2) = choose|i: int, j: int|
            0 <= i < j < order.len() && order[i] == v && order[j] == u;
        assert(j1 == i2);
        assert(j2 == i1);
    }
}

/// In a duplicate-free order, `before` pins the relative positions of the
/// (unique) occurrences of `u` and `v`.
pub proof fn lemma_before_index(order: Seq<DeviceId>, u: DeviceId, v: DeviceId)
    requires
        order.no_duplicates(),
        before(order, u, v),
    ensures
        order.contains(u),
        order.contains(v),
        order.index_of(u) < order.index_of(v),
{
    let (i, j) = choose|i: int, j: int|
        0 <= i < j < order.len() && order[i] == u && order[j] == v;
    assert(order.contains(u));
    assert(order.contains(v));
    assert(order.index_of(u) == i);
    assert(order.index_of(v) == j);
}

proof fn lemma_reaches_within_before(
    order: Seq<DeviceId>,
    wires: Seq<Wire>,
    u: DeviceId,
    v: DeviceId,
    n: nat,
)
    requires
        valid_topo(order, wires),
        reaches_within(wires, u, v, n),
        u != v,
    ensures
        before(order, u, v),
    decreases n,
{
    let mid = choose|mid: DeviceId|
        #[trigger] has_edge(wires, u, mid) && reaches_within(wires, mid, v, (n - 1) as nat);
    let k = choose|k: int|
        0 <= k < wires.len() && (#[trigger] wires[k]).from == u && wires[k].to == mid;
    assert(before(order, u, mid));
    if mid != v {
        lemma_reaches_within_before(order, wires, mid, v, (n - 1) as nat);
        lemma_before_trans(order, u, mid, v);
    }
}

/// In a graph with a topological order, every nontrivial path runs
/// forward along that order.
pub proof fn lemma_reaches_before(
    order: Seq<DeviceId>,
    wires: Seq<Wire>,
    u: DeviceId,
    v: DeviceId,
)
    requires
        valid_topo(order, wires),
        reaches(wires, u, v),
        u != v,
    ensures
        before(order, u, v),
{
    let n = choose|n: nat| reaches_within(wires, u, v, n);
    lemma_reaches_within_before(order, wires, u, v, n);
}

/// A wire set with a topological order has no directed cycle.
pub proof fn lemma_valid_topo_acyclic(order: Seq<DeviceId>, wires: Seq<Wire>)
    requires
        valid_topo(order, wires),
    ensures
        acyclic(wires),
{
    assert forall|u: DeviceId, v: DeviceId| #[trigger] has_edge(wires, u, v)
        implies !reaches(wires, v, u) by {
        if reaches(wires, v, u) {
            let k = choose|k: int|
                0 <= k < wires.len() && (#[trigger] wires[k]).from == u && wires[k].to == v;
            assert(before(order, u, v));
            if u == v {
                lemma_before_asym(order, u, v);
            } else {
                lemma_reaches_before(order, wires, v, u);
                lemma_before_asym(order, u, v);
            }
        }
    };
}

proof fn lemma_min_pos_upto(
    witness: Seq<DeviceId>,
    remaining: Seq<DeviceId>,
    n: int,
) -> (idx: int)
    requires
        witness.no_duplicates(),
        1 <= n <= remaining.len(),
        forall|i: int| 0 <= i < remaining.len() ==> witness.contains(#[trigger] remaining[i]),
    ensures
        0 <= idx < n,
        forall|i: int|
            0 <= i < n
                ==> witness.index_of(remaining[idx]) <= witness.index_of(#[trigger] remaining[i]),
    decreases n,
{
    if n == 1 {
        0
    } else {
        let rec = lemma_min_pos_upto(witness, remaining, n - 1);
        if witness.index_of(remaining[n - 1]) < witness.index_of(remaining[rec]) {
            n - 1
        } else {
            rec
        }
    }
}

/// In a nonempty working set of vertices drawn from a topologically
/// ordered graph, some vertex has no incoming wire from inside the set:
/// the one whose (unique) position in the order is least.
pub proof fn lemma_find_source(
    wires: Seq<Wire>,
    witness: Seq<DeviceId>,
    remaining: Seq<DeviceId>,
) -> (idx: int)
    requires
        valid_topo(witness, wires),
        remaining.len() > 0,
        forall|i: int| 0 <= i < remaining.len() ==> witness.contains(#[trigger] remaining[i]),
    ensures
        0 <= idx < remaining.len(),
        !parent_in(wires, remaining, remaining[idx]),
{
    let idx = lemma_min_pos_upto(witness, remaining, remaining.len() as int);
    if parent_in(wires, remaining, remaining[idx]) {
        let k = choose|k: int|
            0 <= k < wires.len() && (#[trigger] wires[k]).to == remaining[idx]
                && remaining.contains(wires[k].from);
        let i = choose|i: int| 0 <= i < remaining.len() && remaining[i] == wires[k].from;
        assert(before(witness, wires[k].from, wires[k].to));
        lemma_before_index(witness, wires[k].from, wires[k].to);
        assert(witness.index_of(remaining[idx]) <= witness.index_of(remaining[i]));
    }
    idx
}

/// Some wire leaves `u` for a vertex sitting at position `lo` or later in
/// `topo`, from which `x` is reachable.
pub open spec fn child_reach(
    wires: Seq<Wire>,
    topo: Seq<DeviceId>,
    lo: int,
    u: DeviceId,
    x: DeviceId,
) -> bool {
    exists|k: int, j: int|
        #![trigger wires[k], topo[j]]
        0 <= k < wires.len() && lo <= j < topo.len() && wires[k].from == u
            && wires[k].to == topo[j] && reaches(wires, topo[j], x)
}

/// What a vertex reaches decomposes into itself plus whatever its direct
/// children reach; in a topological order, all children of `topo[i]` sit
/// strictly after position `i`.
pub proof fn lemma_reach_decompose(
    wires: Seq<Wire>,
    topo: Seq<DeviceId>,
    i: int,
    x: DeviceId,
)
    requires
        valid_topo(topo, wires),
        endpoints_in(wires, topo),
        0 <= i < topo.len(),
    ensures
        reaches(wires, topo[i], x)
            <==> (x == topo[i] || child_reach(wires, topo, i + 1, topo[i], x)),
{
    let v = topo[i];
    if reaches(wires, v, x) && x != v {
        let mid = lemma_reaches_unfold(wires, v, x);
        let k = choose|k: int|
            0 <= k < wires.len() && (#[trigger] wires[k]).from == v && wires[k].to == mid;
        assert(before(topo, v, mid));
        lemma_before_index(topo, v, mid);
        let j = topo.index_of(mid);
        assert(topo.index_of(v) == i);
        assert(i < j < topo.len() && topo[j] == mid);
        assert(child_reach(wires, topo, i + 1, v, x));
    }
    if x == v {
        lemma_reaches_refl(wires, v);
    }
    if child_reach(wires, topo, i + 1, v, x) {
        let (k, j) = choose|k: int, j: int|
            #![trigger wires[k], topo[j]]
            0 <= k < wires.len() && i + 1 <= j < topo.len() && wires[k].from == v
                && wires[k].to == topo[j] && reaches(wires, topo[j], x);
        assert(has_edge(wires, v, topo[j]));
        lemma_reaches_step(wires, v, topo[j], x);
    }
}

/// Filtering a duplicate-free sequence leaves it duplicate-free.
pub proof fn lemma_filter_no_dup(s: Seq<DeviceId>, pred: spec_fn(DeviceId) -> bool)
    requires
        s.no_duplicates(),
    ensures
        s.filter(pred).no_duplicates(),
    decreases s.len(),
{
    reveal(Seq::filter);
    if s.len() > 0 {
        let rest = s.drop_last();
        lemma_filter_no_dup(rest, pred);
        if pred(s.last()) {
            if rest.filter(pred).contains(s.last()) {
                rest.lemma_filter_contains_rev(pred, s.last());
                let i = choose|i: int| 0 <= i < rest.len() && rest[i] == s.last();
                assert(s[i] == s[s.len() - 1]);
            }
        }
    }
}

/// Filtering preserves the relative order of the kept elements.
pub proof fn lemma_filter_before(
    s: Seq<DeviceId>,
    pred: spec_fn(DeviceId) -> bool,
    u: DeviceId,
    v: DeviceId,
)
    requires
        before(s, u, v),
        pred(u),
        pred(v),
    ensures
        before(s.filter(pred), u, v),
    decreases s.len(),
{
    reveal(Seq::filter);
    let rest = s.drop_last();
    let (i, j) = choose|i: int, j: int| 0 <= i < j < s.len() && s[i] == u && s[j] == v;
    if j < s.len() - 1 {
        assert(rest[i] == u && rest[j] == v);
        assert(before(rest, u, v));
        lemma_filter_before(rest, pred, u, v);
        let (fi, fj) = choose|fi: int, fj: int|
            0 <= fi < fj < rest.filter(pred).len()
                && rest.filter(pred)[fi] == u && rest.filter(pred)[fj] == v;
        if pred(s.last()) {
            assert(s.filter(pred)[fi] == u && s.filter(pred)[fj] == v);
        }
        assert(before(s.filter(pred), u, v));
    } else {
        // v is the last element; u sits somewhere in the prefix.
        assert(rest[i] == u);
        rest.lemma_filter_contains(pred, i);
        let fi = choose|fi: int|
            0 <= fi < rest.filter(pred).len() && rest.filter(pred)[fi] == u;
        let fs = s.filter(pred);
        assert(fs == rest.filter(pred).push(s.last()));
        assert(fs[fi] == u);
        assert(fs[fs.len() - 1] == v);
        assert(before(fs, u, v));
    }
}

/// A duplicate-free order that tops every wire of a set also tops every
/// subset of those wires.
pub proof fn lemma_subset_wires_valid(order: Seq<DeviceId>, wires: Seq<Wire>, sub: Seq<Wire>)
    requires
        valid_topo(order, wires),
        forall|k: int| 0 <= k < sub.len() ==> wires.contains(#[trigger] sub[k]),
    ensures
        valid_topo(order, sub),
{
    assert forall|k: int| 0 <= k < sub.len()
        implies before(order, (#[trigger] sub[k]).from, sub[k].to) by {
        let k0 = choose|k0: int| 0 <= k0 < wires.len() && wires[k0] == sub[k];
        assert(before(order, wires[k0].from, wires[k0].to));
    };
}

/// Restricting the order to a vertex predicate that covers every wire
/// endpoint keeps it a topological order.
pub proof fn lemma_filter_order_valid(
    order: Seq<DeviceId>,
    wires: Seq<Wire>,
    keep_v: spec_fn(DeviceId) -> bool,
)
    requires
        valid_topo(order, wires),
        forall|k: int|
            0 <= k < wires.len()
                ==> keep_v((#[trigger] wires[k]).from) && keep_v(wires[k].to),
    ensures
        valid_topo(order.filter(keep_v), wires),
{
    lemma_filter_no_dup(order, keep_v);
    assert forall|k: int| 0 <= k < wires.len()
        implies before(order.filter(keep_v), (#[trigger] wires[k]).from, wires[k].to) by {
        lemma_filter_before(order, keep_v, wires[k].from, wires[k].to);
    };
}

/// The vertices that reach `target`, as a predicate.
pub open spec fn reaches_into(wires: Seq<Wire>, target: DeviceId) -> spec_fn(DeviceId) -> bool {
    |x: DeviceId| reaches(wires, x, target)
}

/// The vertices that do not reach `target`, as a predicate.
pub open spec fn misses(wires: Seq<Wire>, target: DeviceId) -> spec_fn(DeviceId) -> bool {
    |x: DeviceId| !reaches(wires, x, target)
}

/// A reordering of `order` that is topological even after `nw` joins the
/// wires: the vertices that reach `nw.from` keep their relative order in
/// front, the rest follow behind.
pub open spec fn insert_witness(order: Seq<DeviceId>, wires: Seq<Wire>, nw: Wire) -> Seq<
    DeviceId,
> {
    order.filter(reaches_into(wires, nw.from)) + order.filter(misses(wires, nw.from))
}

/// `insert_witness` is what it claims: a topological order of
/// `wires.push(nw)` over exactly the vertices of `order`, provided the
/// new wire has live endpoints and closes no cycle.
pub proof fn lemma_insert_witness(order: Seq<DeviceId>, wires: Seq<Wire>, nw: Wire)
    requires
        valid_topo(order, wires),
        order.contains(nw.from),
        order.contains(nw.to),
        !reaches(wires, nw.to, nw.from),
    ensures
        valid_topo(insert_witness(order, wires, nw), wires.push(nw)),
        forall|x: DeviceId|
            #[trigger] insert_witness(order, wires, nw).contains(x) <==> order.contains(x),
{
    let pred = reaches_into(wires, nw.from);
    let npred = misses(wires, nw.from);
    let a = order.filter(pred);
    let b = order.filter(npred);
    let w = a + b;
    assert(w == insert_witness(order, wires, nw));

    lemma_filter_no_dup(order, pred);
    lemma_filter_no_dup(order, npred);

    // Elements of the two halves satisfy their predicates and come from `order`.
    assert forall|i: int| 0 <= i < a.len() implies pred(#[trigger] a[i]) && order.contains(a[i]) by {
        order.lemma_filter_pred(pred, i);
        order.lemma_filter_contains_rev(pred, a[i]);
    };
    assert forall|i: int| 0 <= i < b.len() implies npred(#[trigger] b[i]) && order.contains(b[i]) by {
        order.lemma_filter_pred(npred, i);
        order.lemma_filter_contains_rev(npred, b[i]);
    };

    // Membership is exactly membership in `order`.
    assert forall|x: DeviceId| #[trigger] w.contains(x) <==> order.contains(x) by {
        if order.contains(x) {
            let i = choose|i: int| 0 <= i < order.len() && order[i] == x;
            if pred(x) {
                order.lemma_filter_contains(pred, i);
                let fi = choose|fi: int| 0 <= fi < a.len() && a[fi] == x;
                assert(w[fi] == x);
            } else {
                order.lemma_filter_contains(npred, i);
                let fi = choose|fi: int| 0 <= fi < b.len() && b[fi] == x;
                assert(w[a.len() + fi] == x);
            }
            assert(w.contains(x));
        }
        if w.contains(x) {
            let i = choose|i: int| 0 <= i < w.len() && w[i] == x;
            if i < a.len() {
                assert(a[i] == x);
            } else {
                assert(b[i - a.len()] == x);
            }
        }
    };

    // No duplicates: the halves are separately duplicate-free and disjoint.
    assert forall|i: int, j: int| 0 <= i < j < w.len() implies w[i] != w[j] by {
        if i < a.len() && j >= a.len() {
            assert(w[i] == a[i]);
            assert(w[j] == b[j - a.len()]);
            assert(pred(a[i]) && npred(b[j - a.len()]));
        }
    };

    // Every wire of the extended set runs forward along `w`.
    let nwires = wires.push(nw);
    assert forall|k: int| 0 <= k < nwires.len()
        implies before(w, (#[trigger] nwires[k]).from, nwires[k].to) by {
        let u = nwires[k].from;
        let v = nwires[k].to;
        if k < wires.len() {
            assert(before(order, u, v));
            let (i, j) = choose|i: int, j: int|
                0 <= i < j < order.len() && order[i] == u && order[j] == v;
            if pred(u) && pred(v) {
                lemma_filter_before(order, pred, u, v);
                let (fi, fj) = choose|fi: int, fj: int|
                    0 <= fi < fj < a.len() && a[fi] == u && a[fj] == v;
                assert(w[fi] == u && w[fj] == v);
                assert(before(w, u, v));
            } else if npred(u) && npred(v) {
                lemma_filter_before(order, npred, u, v);
                let (fi, fj) = choose|fi: int, fj: int|
                    0 <= fi < fj < b.len() && b[fi] == u && b[fj] == v;
                assert(w[a.len() + fi] == u && w[a.len() + fj] == v);
                assert(before(w, u, v));
            } else if npred(u) && pred(v) {
                // Impossible: a wire u -> v with v reaching nw.from would
                // carry u there as well.
                assert(has_edge(wires, u, v)) by {
                    assert(wires[k].from == u && wires[k].to == v);
                }
                lemma_reaches_step(wires, u, v, nw.from);
            } else {
                // u in the front half, v in the back half.
                order.lemma_filter_contains(pred, i);
                order.lemma_filter_contains(npred, j);
                let fi = choose|fi: int| 0 <= fi < a.len() && a[fi] == u;
                let fj = choose|fj: int| 0 <= fj < b.len() && b[fj] == v;
                assert(w[fi] == u && w[a.len() + fj] == v);
                assert(before(w, u, v));
            }
        } else {
            // The new wire itself: its source reaches nw.from trivially,
            // its target does not reach nw.from at all.
            assert(u == nw.from && v == nw.to);
            lemma_reaches_refl(wires, nw.from);
            let i = choose|i: int| 0 <= i < order.len() && order[i] == nw.from;
            let j = choose|j: int| 0 <= j < order.len() && order[j] == nw.to;
            order.lemma_filter_contains(pred, i);
            order.lemma_filter_contains(npred, j);
            let fi = choose|fi: int| 0 <= fi < a.len() && a[fi] == u;
            let fj = choose|fj: int| 0 <= fj < b.len() && b[fj] == v;
            assert(w[fi] == u && w[a.len() + fj] == v);
            assert(before(w, u, v));
        }
    };
}

} // verus!
