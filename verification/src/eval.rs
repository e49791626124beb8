//! The tick evaluator: one synchronous propagation pass over the circuit
//! in cached topological order. Device update functions are opaque to the
//! core, so the pass is a stepper: the caller asks for the next device and
//! its resolved inputs, runs the device's own update however it likes, and
//! hands the optional boolean output back. The pass owns the tick-scoped
//! mapping from device to produced value and discards it at tick end.
use vstd::prelude::*;

use crate::dag::{Dag, DeviceId, Wire, WireType};
use crate::reach::{lemma_subrange_push, valid_topo};

verus! {

/// What a wire delivers given its source's output this tick.
pub open spec fn wire_signal(wt: WireType, v: bool) -> bool {
    match wt {
        WireType::Normal => v,
        WireType::Negated => !v,
    }
}

/// The input vector device `v` sees: for every wire into `v` whose source
/// has produced a value this tick, that value through the wire's
/// polarity, in wire-list order. A wire whose source produced nothing
/// contributes no element.
pub open spec fn inputs_of(wires: Seq<Wire>, outs: Map<DeviceId, bool>, v: DeviceId) -> Seq<
    bool,
>
    decreases wires.len(),
{
    if wires.len() == 0 {
        Seq::empty()
    } else {
        let rest = inputs_of(wires.drop_last(), outs, v);
        let w = wires.last();
        if w.to == v && outs.dom().contains(w.from) {
            rest.push(wire_signal(w.wire_type, outs[w.from]))
        } else {
            rest
        }
    }
}

/// One device's submission folded into the tick mapping: a produced value
/// is recorded under the device's handle, no value leaves it untouched.
pub open spec fn step_map(outs: Map<DeviceId, bool>, v: DeviceId, out: Option<bool>) -> Map<
    DeviceId,
    bool,
> {
    match out {
        Some(b) => outs.insert(v, b),
        None => outs,
    }
}

/// The tick mapping after the first `p` devices of `order` have submitted
/// the outputs `subs`.
pub open spec fn pass_map(order: Seq<DeviceId>, subs: Seq<Option<bool>>, p: int) -> Map<
    DeviceId,
    bool,
>
    decreases p,
{
    if p <= 0 {
        Map::empty()
    } else {
        step_map(pass_map(order, subs, p - 1), order[p - 1], subs[p - 1])
    }
}

/// The association list read as a map; a later pair for the same handle
/// wins, though the evaluator never records a handle twice.
pub open spec fn assoc_map(s: Seq<(DeviceId, bool)>) -> Map<DeviceId, bool>
    decreases s.len(),
{
    if s.len() == 0 {
        Map::empty()
    } else {
        assoc_map(s.drop_last()).insert(s.last().0, s.last().1)
    }
}

/// The value the tick mapping holds for `d`, if any.
pub open spec fn map_at(m: Map<DeviceId, bool>, d: DeviceId) -> Option<bool> {
    if m.dom().contains(d) {
        Some(m[d])
    } else {
        None
    }
}

/// Every submission is what the fixed per-device function `f` returns on
/// the inputs that device saw at its turn.
pub open spec fn driven_by(
    order: Seq<DeviceId>,
    wires: Seq<Wire>,
    subs: Seq<Option<bool>>,
    f: spec_fn(DeviceId, Seq<bool>) -> Option<bool>,
) -> bool {
    forall|j: int|
        0 <= j < subs.len() ==> #[trigger] subs[j] == f(
            order[j],
            inputs_of(wires, pass_map(order, subs, j), order[j]),
        )
}

/// A prefix of the pass reads only the submissions it has seen.
proof fn lemma_pass_map_prefix(
    order: Seq<DeviceId>,
    subs: Seq<Option<bool>>,
    ext: Seq<Option<bool>>,
    p: int,
)
    requires
        0 <= p <= subs.len(),
        subs.len() <= ext.len(),
        forall|j: int| 0 <= j < subs.len() ==> subs[j] == ext[j],
    ensures
        pass_map(order, ext, p) == pass_map(order, subs, p),
    decreases p,
{
    if p > 0 {
        lemma_pass_map_prefix(order, subs, ext, p - 1);
    }
}

/// Evaluator determinism: over one snapshot of the circuit, two passes
/// whose devices each compute a fixed function of their inputs submit the
/// same outputs and end in identical tick mappings.
pub proof fn lemma_tick_deterministic(
    order: Seq<DeviceId>,
    wires: Seq<Wire>,
    subs1: Seq<Option<bool>>,
    subs2: Seq<Option<bool>>,
    f: spec_fn(DeviceId, Seq<bool>) -> Option<bool>,
    p: int,
)
    requires
        subs1.len() == subs2.len(),
        driven_by(order, wires, subs1, f),
        driven_by(order, wires, subs2, f),
        0 <= p <= subs1.len(),
    ensures
        pass_map(order, subs1, p) == pass_map(order, subs2, p),
        p > 0 ==> subs1[p - 1] == subs2[p - 1],
    decreases p,
{
    if p > 0 {
        lemma_tick_deterministic(order, wires, subs1, subs2, f, p - 1);
        assert(subs1[p - 1] == f(
            order[p - 1],
            inputs_of(wires, pass_map(order, subs1, p - 1), order[p - 1]),
        ));
        assert(subs2[p - 1] == f(
            order[p - 1],
            inputs_of(wires, pass_map(order, subs2, p - 1), order[p - 1]),
        ));
    }
}

/// The ordering guarantee the evaluator rests on: when a device's turn
/// comes, each of its parents had its turn strictly earlier in the same
/// pass, so their outputs are already in the tick mapping.
pub proof fn lemma_parents_run_first(t: TickPass, k: int)
    requires
        t.wf(),
        0 <= k < t.wires_view().len(),
    ensures
        crate::reach::before(t.order_view(), t.wires_view()[k].from, t.wires_view()[k].to),
{
}

/// Copy a vector of plain values.
fn copy_vec<T: Copy>(v: &Vec<T>) -> (r: Vec<T>)
    ensures
        r@ == v@,
{
    let n = v.len();
    let mut r: Vec<T> = Vec::new();
    let mut i: usize = 0;
    while i < n
        invariant
            0 <= i <= n,
            r@ == v@.subrange(0, i as int),
        decreases n - i,
    {
        r.push(v[i]);
        i += 1;
    }
    proof {
        assert(v@.subrange(0, n as int) =~= v@);
    }
    r
}

/// Look `d` up in the association list.
fn lookup(outs: &Vec<(DeviceId, bool)>, d: DeviceId) -> (r: Option<bool>)
    ensures
        r == map_at(assoc_map(outs@), d),
{
    let mut i: usize = outs.len();
    proof {
        assert(outs@.subrange(0, outs@.len() as int) =~= outs@);
    }
    while i > 0
        invariant
            0 <= i <= outs@.len(),
            map_at(assoc_map(outs@), d) == map_at(assoc_map(outs@.subrange(0, i as int)), d),
        decreases i,
    {
        i -= 1;
        let p = outs[i];
        proof {
            lemma_subrange_push(outs@, i as int);
            assert(outs@.subrange(0, i as int + 1).drop_last() =~= outs@.subrange(0, i as int));
        }
        if p.0 == d {
            return Some(p.1);
        }
    }
    proof {
        assert(outs@.subrange(0, 0) =~= Seq::<(DeviceId, bool)>::empty());
    }
    None
}

/// One tick's propagation pass over a snapshot of the circuit. Walk it to
/// the end: while `done` is false, read `current` and `current_inputs`,
/// run that device's update function outside the core, and `submit` the
/// optional boolean it returned.
pub struct TickPass {
    order: Vec<DeviceId>,
    wires: Vec<Wire>,
    outputs: Vec<(DeviceId, bool)>,
    pos: usize,
    subs: Ghost<Seq<Option<bool>>>,
}

impl TickPass {
    /// The snapshot of the topological order being walked.
    pub closed spec fn order_view(self) -> Seq<DeviceId> {
        self.order@
    }

    /// The snapshot of the wire set.
    pub closed spec fn wires_view(self) -> Seq<Wire> {
        self.wires@
    }

    /// How many devices have submitted.
    pub closed spec fn pos(self) -> int {
        self.pos as int
    }

    /// The outputs submitted so far, in order.
    pub closed spec fn subs(self) -> Seq<Option<bool>> {
        self.subs@
    }

    /// The tick-scoped mapping from device to the value it produced.
    pub closed spec fn recorded(self) -> Map<DeviceId, bool> {
        assoc_map(self.outputs@)
    }

    /// The pass invariant: the position counts the submissions, the
    /// snapshot is a topological order of its wires, and the mapping is
    /// exactly the fold of the submissions so far.
    pub open spec fn wf(self) -> bool {
        &&& self.pos() == self.subs().len()
        &&& self.pos() <= self.order_view().len()
        &&& valid_topo(self.order_view(), self.wires_view())
        &&& self.recorded() == pass_map(self.order_view(), self.subs(), self.pos())
    }

    /// Start a pass over the current graph: snapshot its order and wires,
    /// with an empty tick mapping.
    pub fn new(dag: &Dag) -> (t: TickPass)
        requires
            dag.wf(),
        ensures
            t.wf(),
            t.order_view() == dag.topo(),
            t.wires_view() == dag.wire_list(),
            t.pos() == 0,
            t.recorded() == Map::<DeviceId, bool>::empty(),
    {
        let t = TickPass {
            order: copy_vec(dag.devices()),
            wires: copy_vec(dag.wires()),
            outputs: Vec::new(),
            pos: 0,
            subs: Ghost(Seq::empty()),
        };
        t
    }

    /// Whether every device of the snapshot has submitted.
    pub fn done(&self) -> (r: bool)
        ensures
            r == (self.pos() == self.order_view().len()),
    {
        self.pos == self.order.len()
    }

    /// The device whose turn it is.
    pub fn current(&self) -> (d: DeviceId)
        requires
            self.pos() < self.order_view().len(),
        ensures
            d == self.order_view()[self.pos()],
    {
        self.order[self.pos]
    }

    /// The input vector of the device whose turn it is, resolved from the
    /// values its parents produced earlier this tick, through each wire's
    /// polarity.
    pub fn current_inputs(&self) -> (r: Vec<bool>)
        requires
            self.pos() < self.order_view().len(),
        ensures
            r@ == inputs_of(self.wires_view(), self.recorded(), self.order_view()[self.pos()]),
    {
        let v = self.order[self.pos];
        let n = self.wires.len();
        let mut r: Vec<bool> = Vec::new();
        let mut i: usize = 0;
        while i < n
            invariant
                0 <= i <= n,
                r@ == inputs_of(self.wires_view().subrange(0, i as int), self.recorded(), v),
            decreases n - i,
        {
            let w = self.wires[i];
            proof {
                lemma_subrange_push(self.wires_view(), i as int);
                assert(self.wires_view().subrange(0, i as int + 1).drop_last()
                    =~= self.wires_view().subrange(0, i as int));
            }
            if w.to == v {
                match lookup(&self.outputs, w.from) {
                    Some(b) => {
                        let val = if w.wire_type == WireType::Negated {
                            !b
                        } else {
                            b
                        };
                        r.push(val);
                    },
                    None => {},
                }
            }
            i += 1;
        }
        proof {
            assert(self.wires_view().subrange(0, n as int) =~= self.wires_view());
        }
        r
    }

    /// Record the current device's output and move to the next device. A
    /// produced value becomes visible to this tick's later devices; no
    /// value leaves the mapping untouched.
    pub fn submit(&mut self, out: Option<bool>)
        requires
            old(self).wf(),
            old(self).pos() < old(self).order_view().len(),
        ensures
            final(self).wf(),
            final(self).order_view() == old(self).order_view(),
            final(self).wires_view() == old(self).wires_view(),
            final(self).pos() == old(self).pos() + 1,
            final(self).subs() == old(self).subs().push(out),
            final(self).recorded() == step_map(
                old(self).recorded(),
                old(self).order_view()[old(self).pos()],
                out,
            ),
    {
        let ghost pre = *self;
        let order_len = self.order.len();
        let v = self.order[self.pos];
        proof {
            assert(self.pos < order_len);
        }
        match out {
            Some(b) => {
                let ghost o0 = self.outputs@;
                self.outputs.push((v, b));
                proof {
                    assert(self.outputs@.drop_last() =~= o0);
                }
            },
            None => {},
        }
        self.pos = self.pos + 1;
        self.subs = Ghost(self.subs@.push(out));
        proof {
            lemma_pass_map_prefix(pre.order_view(), pre.subs(), self.subs@, pre.pos());
            assert(self.recorded() == step_map(pre.recorded(), v, out));
        }
    }

    /// The value `d` produced this tick, if any.
    pub fn output_of(&self, d: DeviceId) -> (r: Option<bool>)
        ensures
            r == map_at(self.recorded(), d),
    {
        lookup(&self.outputs, d)
    }
}

/// Determinism at the pass level: two completed passes over the same
/// snapshot, each driven by the same fixed per-device function, recorded
/// identical tick mappings.
pub proof fn lemma_pass_deterministic(
    t1: TickPass,
    t2: TickPass,
    f: spec_fn(DeviceId, Seq<bool>) -> Option<bool>,
)
    requires
        t1.wf(),
        t2.wf(),
        t1.order_view() == t2.order_view(),
        t1.wires_view() == t2.wires_view(),
        t1.pos() == t1.order_view().len(),
        t2.pos() == t2.order_view().len(),
        driven_by(t1.order_view(), t1.wires_view(), t1.subs(), f),
        driven_by(t2.order_view(), t2.wires_view(), t2.subs(), f),
    ensures
        t1.recorded() == t2.recorded(),
{
    lemma_tick_deterministic(
        t1.order_view(),
        t1.wires_view(),
        t1.subs(),
        t2.subs(),
        f,
        t1.pos(),
    );
}

} // verus!
