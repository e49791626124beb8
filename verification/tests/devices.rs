use graf::dag::{Dag, WireType};
use graf::device::{can_connect, Arity, BooleanOperation, Gate, Latch, Note, PitchClass};

fn gate(op: BooleanOperation, inputs: &[bool]) -> bool {
    let mut g = Gate::new();
    g.operation = op;
    g.update(&inputs.to_vec()).unwrap()
}

#[test]
fn gate_and() {
    assert_eq!(gate(BooleanOperation::AND, &[]), true);
    assert_eq!(gate(BooleanOperation::AND, &[true, true]), true);
    assert_eq!(gate(BooleanOperation::AND, &[true, false]), false);
}

#[test]
fn gate_or() {
    assert_eq!(gate(BooleanOperation::OR, &[]), false);
    assert_eq!(gate(BooleanOperation::OR, &[false, false]), false);
    assert_eq!(gate(BooleanOperation::OR, &[false, true]), true);
}

#[test]
fn gate_xor() {
    assert_eq!(gate(BooleanOperation::XOR, &[]), false);
    assert_eq!(gate(BooleanOperation::XOR, &[true]), true);
    assert_eq!(gate(BooleanOperation::XOR, &[true, true]), false);
    assert_eq!(gate(BooleanOperation::XOR, &[true, true, true]), true);
}

#[test]
fn gate_nand_nor() {
    assert_eq!(gate(BooleanOperation::NAND, &[]), false);
    assert_eq!(gate(BooleanOperation::NAND, &[true, true]), false);
    assert_eq!(gate(BooleanOperation::NAND, &[true, false]), true);
    assert_eq!(gate(BooleanOperation::NOR, &[]), true);
    assert_eq!(gate(BooleanOperation::NOR, &[false, false]), true);
    assert_eq!(gate(BooleanOperation::NOR, &[true, false]), false);
}

#[test]
fn gate_xnor() {
    // An equivalence fold seeded with false: each input complements the
    // running parity once, so the result is the complement of XOR on an
    // odd number of inputs and the parity itself on an even number,
    // the empty vector included.
    assert_eq!(gate(BooleanOperation::XNOR, &[]), false);
    assert_eq!(gate(BooleanOperation::XNOR, &[true]), false);
    assert_eq!(gate(BooleanOperation::XNOR, &[false]), true);
    assert_eq!(gate(BooleanOperation::XNOR, &[true, true]), false);
    assert_eq!(gate(BooleanOperation::XNOR, &[false, false]), false);
    assert_eq!(gate(BooleanOperation::XNOR, &[true, false]), true);
    assert_eq!(gate(BooleanOperation::XNOR, &[true, true, true]), false);
    assert_eq!(gate(BooleanOperation::XNOR, &[true, true, false]), true);
}

#[test]
fn gate_defaults_and_interface() {
    let g = Gate::new();
    assert_eq!(g.operation, BooleanOperation::AND);
    assert_eq!(g.input_arity(), Arity::NAry);
    assert!(g.has_output());
}

#[test]
fn latch_toggles_on_rising_edge() {
    let mut l = Latch::new();
    assert_eq!(l.update(&vec![false]), Some(false));
    assert_eq!(l.update(&vec![true]), Some(true)); // rising edge: toggles on
    assert_eq!(l.update(&vec![true]), Some(true)); // held high: no change
    assert_eq!(l.update(&vec![false]), Some(true)); // falling edge: no change
    assert_eq!(l.update(&vec![true]), Some(false)); // rising edge: toggles off
    assert_eq!(l.input_arity(), Arity::Unary);
    assert!(l.has_output());
}

#[test]
fn latch_reset_turns_off_but_keeps_edge_memory() {
    let mut l = Latch::new();
    assert_eq!(l.update(&vec![true]), Some(true));
    l.reset();
    // The input is still held high from before the reset, so the next
    // high tick is not a fresh rising edge.
    assert_eq!(l.update(&vec![true]), Some(false));
    assert_eq!(l.update(&vec![false]), Some(false));
    assert_eq!(l.update(&vec![true]), Some(true));
}

#[test]
fn latch_reads_missing_input_as_off() {
    let mut l = Latch::new();
    assert_eq!(l.update(&Vec::new()), Some(false));
    assert_eq!(l.update(&vec![true]), Some(true));
    assert_eq!(l.update(&Vec::new()), Some(true));
    assert_eq!(l.update(&vec![true]), Some(false));
}

#[test]
fn note_default_key_is_c4() {
    let n = Note::new();
    assert_eq!(n.midi_key(), 48);
    assert!(!n.has_output());
    assert_eq!(n.input_arity(), Arity::Unary);
}

#[test]
fn note_emits_on_and_off_once() {
    let mut n = Note::new();
    // Off input: already silent, nothing to emit.
    let (out, ev) = n.update(false, &vec![false]);
    assert_eq!(out, None);
    assert_eq!(ev, None);
    // On input: one note-on.
    let (_, ev) = n.update(false, &vec![true]);
    let ev = ev.unwrap();
    assert!(ev.on);
    assert_eq!(ev.key, 48);
    assert_eq!(ev.channel, 0);
    assert_eq!(ev.velocity, 100);
    // Still on: no repeat.
    let (_, ev) = n.update(false, &vec![true]);
    assert_eq!(ev, None);
    // Pause silences it with one note-off.
    let (_, ev) = n.update(true, &vec![true]);
    let ev = ev.unwrap();
    assert!(!ev.on);
    assert_eq!(ev.key, 48);
}

#[test]
fn note_missing_input_silences() {
    let mut n = Note::new();
    let (_, ev) = n.update(false, &vec![true]);
    assert!(ev.unwrap().on);
    let (_, ev) = n.update(false, &Vec::new());
    assert!(!ev.unwrap().on);
}

#[test]
fn note_pitch_change_releases_old_key() {
    let mut n = Note::new();
    let (_, _) = n.update(false, &vec![true]);
    let ev = n.set_pitch(5, PitchClass::A).unwrap();
    assert!(!ev.on);
    assert_eq!(ev.key, 48);
    assert_eq!(n.midi_key(), 9 + 5 * 12);
    n.set_velocity(64);
    n.set_channel(3);
    let (_, ev) = n.update(false, &vec![true]);
    let ev = ev.unwrap();
    assert!(ev.on);
    assert_eq!(ev.key, 69);
    assert_eq!(ev.velocity, 64);
    assert_eq!(ev.channel, 3);
}

#[test]
fn pitch_class_names() {
    assert_eq!(PitchClass::C.to_string(), "C");
    assert_eq!(PitchClass::Cs.to_string(), "C#");
    assert_eq!(PitchClass::Fs.to_string(), "F#");
    assert_eq!(PitchClass::B.to_string(), "B");
}

#[test]
fn arity_policy() {
    assert!(!Arity::Nullary.allows_incoming(0));
    assert!(Arity::Unary.allows_incoming(0));
    assert!(!Arity::Unary.allows_incoming(1));
    assert!(Arity::NAry.allows_incoming(7));
}

#[test]
fn can_connect_applies_arity_and_cycle_policy() {
    let mut g = Dag::new();
    let a = g.add_device();
    let b = g.add_device();
    let c = g.add_device();
    assert!(g.add_wire(a, b, WireType::Normal).is_ok());

    // Arity policy lives here, above the engine.
    assert!(!can_connect(&g, Arity::Nullary, a, c));
    assert!(can_connect(&g, Arity::Unary, a, c));
    assert!(!can_connect(&g, Arity::Unary, c, b)); // b already has a parent
    assert!(can_connect(&g, Arity::NAry, c, b));
    // Cycle policy holds for every arity.
    assert!(!can_connect(&g, Arity::NAry, b, a));
}

#[test]
fn engine_accepts_wire_into_nullary_device() {
    // The graph engine itself knows nothing of arity: a wire into a
    // device whose arity the calling layer would refuse is still
    // accepted when its endpoints are live and no cycle forms.
    let mut g = Dag::new();
    let clock_like = g.add_device(); // a device the shell treats as nullary
    let other = g.add_device();
    assert!(!can_connect(&g, Arity::Nullary, other, clock_like));
    assert!(g.add_wire(other, clock_like, WireType::Normal).is_ok());
    assert!(g.contains_wire(other, clock_like));
}
