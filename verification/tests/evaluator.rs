use graf::dag::{Dag, DeviceId, WireType};
use graf::device::{BooleanOperation, Gate, Latch};
use graf::eval::TickPass;

/// Run one tick where every device applies `f` to its resolved inputs,
/// and return each device's recorded output in topological order.
fn run_tick(
    g: &Dag,
    f: &dyn Fn(DeviceId, &[bool]) -> Option<bool>,
) -> Vec<(DeviceId, Option<bool>)> {
    let mut pass = TickPass::new(g);
    while !pass.done() {
        let d = pass.current();
        let inputs = pass.current_inputs();
        pass.submit(f(d, &inputs));
    }
    g.devices().iter().map(|&d| (d, pass.output_of(d))).collect()
}

#[test]
fn scenario_chain_with_negated_wire() {
    // A -> B (normal), B -> C (negated). A emits true, B passes its
    // input through; C must see [false].
    let mut g = Dag::new();
    let a = g.add_device();
    let b = g.add_device();
    let c = g.add_device();
    assert!(g.add_wire(a, b, WireType::Normal).is_ok());
    assert!(g.add_wire(b, c, WireType::Negated).is_ok());
    assert_eq!(g.devices().clone(), vec![a, b, c]);

    let mut pass = TickPass::new(&g);
    assert!(!pass.done());
    assert_eq!(pass.current(), a);
    assert_eq!(pass.current_inputs(), Vec::<bool>::new());
    pass.submit(Some(true));

    assert_eq!(pass.current(), b);
    assert_eq!(pass.current_inputs(), vec![true]);
    pass.submit(Some(true));

    assert_eq!(pass.current(), c);
    assert_eq!(pass.current_inputs(), vec![false]);
    pass.submit(None);
    assert!(pass.done());

    assert_eq!(pass.output_of(a), Some(true));
    assert_eq!(pass.output_of(b), Some(true));
    assert_eq!(pass.output_of(c), None);
}

#[test]
fn silent_parent_contributes_no_input() {
    // A sink that produced nothing this tick leaves its outgoing wire
    // without a contribution downstream.
    let mut g = Dag::new();
    let a = g.add_device();
    let b = g.add_device();
    let c = g.add_device();
    assert!(g.add_wire(a, c, WireType::Normal).is_ok());
    assert!(g.add_wire(b, c, WireType::Normal).is_ok());

    let mut pass = TickPass::new(&g);
    // a and b run first in some order; a emits, b stays silent.
    while !pass.done() {
        let d = pass.current();
        let inputs = pass.current_inputs();
        if d == a {
            pass.submit(Some(true));
        } else if d == b {
            pass.submit(None);
        } else {
            assert_eq!(d, c);
            assert_eq!(inputs, vec![true]);
            pass.submit(Some(false));
        }
    }
    assert_eq!(pass.output_of(b), None);
    assert_eq!(pass.output_of(c), Some(false));
}

#[test]
fn two_ticks_are_identical() {
    // Determinism: with fixed per-device functions and a fixed graph,
    // two consecutive passes record identical output mappings.
    let mut g = Dag::new();
    let a = g.add_device();
    let b = g.add_device();
    let c = g.add_device();
    let d = g.add_device();
    assert!(g.add_wire(a, b, WireType::Normal).is_ok());
    assert!(g.add_wire(a, c, WireType::Negated).is_ok());
    assert!(g.add_wire(b, d, WireType::Normal).is_ok());
    assert!(g.add_wire(c, d, WireType::Normal).is_ok());

    let f = |dev: DeviceId, inputs: &[bool]| -> Option<bool> {
        if dev == a {
            Some(true)
        } else {
            Some(inputs.iter().fold(false, |acc, &x| acc || x))
        }
    };
    let first = run_tick(&g, &f);
    let second = run_tick(&g, &f);
    assert_eq!(first, second);
}

#[test]
fn gates_and_latch_through_a_pass() {
    // A source feeding an XOR device and a latch on normal wires; the
    // latch toggles on each rising edge of the source.
    let mut g = Dag::new();
    let src = g.add_device();
    let xor = g.add_device();
    let lat = g.add_device();
    assert!(g.add_wire(src, xor, WireType::Normal).is_ok());
    assert!(g.add_wire(src, lat, WireType::Normal).is_ok());

    let mut gate = Gate::new();
    gate.operation = BooleanOperation::XOR;
    let mut latch = Latch::new();

    let mut last_latch = None;
    for tick in 0..4 {
        let source_value = tick % 2 == 0;
        let mut pass = TickPass::new(&g);
        while !pass.done() {
            let d = pass.current();
            let inputs = pass.current_inputs();
            if d == src {
                pass.submit(Some(source_value));
            } else if d == xor {
                pass.submit(gate.update(&inputs));
            } else {
                let out = latch.update(&inputs);
                last_latch = out;
                pass.submit(out);
            }
        }
        assert_eq!(pass.output_of(xor), Some(source_value));
    }
    // Rising edges at ticks 0 and 2: the latch toggled twice, back to off.
    assert_eq!(last_latch, Some(false));
}

#[test]
fn pass_walks_in_topological_order() {
    let mut g = Dag::new();
    let mut ids = Vec::new();
    for _ in 0..5 {
        ids.push(g.add_device());
    }
    assert!(g.add_wire(ids[3], ids[1], WireType::Normal).is_ok());
    assert!(g.add_wire(ids[1], ids[0], WireType::Normal).is_ok());
    assert!(g.add_wire(ids[4], ids[0], WireType::Normal).is_ok());

    let mut pass = TickPass::new(&g);
    let mut seen: Vec<DeviceId> = Vec::new();
    while !pass.done() {
        let d = pass.current();
        // Every parent of d has already had its turn.
        for w in g.wires().iter() {
            if w.to == d {
                assert!(seen.contains(&w.from));
            }
        }
        seen.push(d);
        pass.submit(Some(true));
    }
    assert_eq!(&seen, g.devices());
}
