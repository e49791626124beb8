//! The plain-value core of the device layer: input arities and the
//! calling layer's connection-legality check, the boolean gate functions,
//! and the state machines of the latch and the note emitter, stripped of
//! their screen positions, clocks and MIDI transport. What only the
//! shell can do — draw, read the clock, send an event down a port — is
//! driven from outside through the values these methods return.
use vstd::prelude::*;
use vstd::string::StringExecFns;

use crate::dag::{Dag, DeviceId};

verus! {

/// How many incoming wires a device accepts: none, at most one, or any
/// number. Policy over this lives in the calling layer, not in the graph
/// engine.
#[derive(PartialEq, Eq, Structural, Clone, Copy, Debug)]
pub enum Arity {
    Nullary,
    Unary,
    NAry,
}

impl Arity {
    /// Whether a device of this arity accepts one more incoming wire,
    /// given how many it already has.
    pub fn allows_incoming(&self, current: usize) -> (r: bool)
        ensures
            r == match *self {
                Arity::Nullary => false,
                Arity::Unary => current == 0,
                Arity::NAry => true,
            },
    {
        match self {
            Arity::Nullary => false,
            Arity::Unary => current == 0,
            Arity::NAry => true,
        }
    }
}

/// The calling layer's connection-legality check: the target's arity
/// must admit one more incoming wire, and the new wire must not close a
/// cycle. The graph engine itself never applies the arity half of this
/// policy; it lives here, above the engine.
pub fn can_connect(circuit: &Dag, to_arity: Arity, from: DeviceId, to: DeviceId) -> (r: bool)
    requires
        circuit.wf(),
    ensures
        r == ((match to_arity {
            Arity::Nullary => false,
            Arity::Unary => !circuit.has_incoming(to),
            Arity::NAry => true,
        }) && !circuit.reachable(to, from)),
{
    let arity_fits = match to_arity {
        Arity::Nullary => false,
        Arity::Unary => {
            let into = circuit.incoming(to);
            proof {
                if into@.len() > 0 {
                    assert(circuit.wire_list().contains(into@[0]));
                    let k = choose|k: int|
                        0 <= k < circuit.wire_list().len() && circuit.wire_list()[k] == into@[0];
                    assert(circuit.has_incoming(to));
                }
                if circuit.has_incoming(to) {
                    let k = choose|k: int|
                        0 <= k < circuit.wire_list().len()
                            && (#[trigger] circuit.wire_list()[k]).to == to;
                    assert(into@.contains(circuit.wire_list()[k]));
                }
            }
            into.len() == 0
        },
        Arity::NAry => true,
    };
    if arity_fits {
        !circuit.is_reachable(to, from)
    } else {
        false
    }
}

/// The boolean function of a gate device.
#[derive(PartialEq, Eq, Structural, Clone, Copy, Debug)]
pub enum BooleanOperation {
    AND,
    OR,
    XOR,
    NAND,
    NOR,
    XNOR,
}

/// Every input is on; vacuously true of no inputs.
pub open spec fn all_on(s: Seq<bool>) -> bool {
    forall|i: int| 0 <= i < s.len() ==> s[i]
}

/// Some input is on.
pub open spec fn any_on(s: Seq<bool>) -> bool {
    exists|i: int| 0 <= i < s.len() && s[i]
}

/// An odd number of inputs is on.
pub open spec fn parity(s: Seq<bool>) -> bool
    decreases s.len(),
{
    if s.len() == 0 {
        false
    } else {
        parity(s.drop_last()) != s.last()
    }
}

/// What each gate computes. XNOR mirrors the fold it is computed with:
/// an equivalence chain seeded with `false`, which complements the
/// parity once per input — so it is the complement of XOR only on
/// odd-length input vectors, and the parity itself on even-length ones,
/// the empty vector included.
pub open spec fn gate_eval(op: BooleanOperation, s: Seq<bool>) -> bool {
    match op {
        BooleanOperation::AND => all_on(s),
        BooleanOperation::OR => any_on(s),
        BooleanOperation::XOR => parity(s),
        BooleanOperation::NAND => !all_on(s),
        BooleanOperation::NOR => !any_on(s),
        BooleanOperation::XNOR => if s.len() % 2 == 1 {
            !parity(s)
        } else {
            parity(s)
        },
    }
}

proof fn lemma_all_on_push(s: Seq<bool>, x: bool)
    ensures
        all_on(s.push(x)) == (all_on(s) && x),
{
    if all_on(s) && x {
        assert forall|i: int| 0 <= i < s.push(x).len() implies s.push(x)[i] by {
            if i < s.len() {
                assert(s[i]);
            }
        }
    }
    if all_on(s.push(x)) {
        assert forall|i: int| 0 <= i < s.len() implies s[i] by {
            assert(s.push(x)[i]);
        }
        assert(s.push(x)[s.len() as int]);
    }
}

proof fn lemma_any_on_push(s: Seq<bool>, x: bool)
    ensures
        any_on(s.push(x)) == (any_on(s) || x),
{
    if any_on(s) {
        let i = choose|i: int| 0 <= i < s.len() && s[i];
        assert(s.push(x)[i]);
    }
    if x {
        assert(s.push(x)[s.len() as int]);
    }
    if any_on(s.push(x)) {
        let i = choose|i: int| 0 <= i < s.push(x).len() && s.push(x)[i];
        if i < s.len() {
            assert(s[i]);
        }
    }
}

proof fn lemma_parity_push(s: Seq<bool>, x: bool)
    ensures
        parity(s.push(x)) == (parity(s) != x),
{
    assert(s.push(x).drop_last() =~= s);
}

/// A boolean gate: stateless but for its chosen operation.
#[derive(PartialEq, Eq, Structural, Clone, Copy, Debug)]
pub struct Gate {
    pub operation: BooleanOperation,
}

impl Gate {
    /// A fresh gate computes AND.
    pub fn new() -> (g: Gate)
        ensures
            g.operation == BooleanOperation::AND,
    {
        Gate { operation: BooleanOperation::AND }
    }

    /// One tick of this device: fold the chosen operation along the
    /// inputs. There is always a value; an empty input vector gives each
    /// operation's fold seed.
    pub fn update(&mut self, inputs: &Vec<bool>) -> (r: Option<bool>)
        ensures
            *final(self) == *old(self),
            r == Some(gate_eval(old(self).operation, inputs@)),
    {
        let n = inputs.len();
        let mut all: bool = true;
        let mut any: bool = false;
        let mut par: bool = false;
        let mut i: usize = 0;
        while i < n
            invariant
                0 <= i <= n,
                all == all_on(inputs@.subrange(0, i as int)),
                any == any_on(inputs@.subrange(0, i as int)),
                par == parity(inputs@.subrange(0, i as int)),
            decreases n - i,
        {
            let x = inputs[i];
            proof {
                crate::reach::lemma_subrange_push(inputs@, i as int);
                lemma_all_on_push(inputs@.subrange(0, i as int), inputs@[i as int]);
                lemma_any_on_push(inputs@.subrange(0, i as int), inputs@[i as int]);
                lemma_parity_push(inputs@.subrange(0, i as int), inputs@[i as int]);
            }
            all = all && x;
            any = any || x;
            par = par != x;
            i += 1;
        }
        proof {
            assert(inputs@.subrange(0, n as int) =~= inputs@);
        }
        match self.operation {
            BooleanOperation::AND => Some(all),
            BooleanOperation::OR => Some(any),
            BooleanOperation::XOR => Some(par),
            BooleanOperation::NAND => Some(!all),
            BooleanOperation::NOR => Some(!any),
            BooleanOperation::XNOR => Some(if n % 2 == 1 {
                !par
            } else {
                par
            }),
        }
    }

    /// A gate accepts any number of incoming wires.
    pub fn input_arity(&self) -> (r: Arity)
        ensures
            r == Arity::NAry,
    {
        Arity::NAry
    }

    /// A gate emits a boolean.
    pub fn has_output(&self) -> (r: bool)
        ensures
            r,
    {
        true
    }
}

/// A toggle latch: flips its stored state on each rising edge of its
/// first input.
#[derive(PartialEq, Eq, Structural, Clone, Copy, Debug)]
pub struct Latch {
    is_on: bool,
    prev_input: bool,
}

impl Latch {
    /// The stored state.
    pub closed spec fn on(self) -> bool {
        self.is_on
    }

    /// The input level seen last tick, for edge detection.
    pub closed spec fn prev(self) -> bool {
        self.prev_input
    }

    /// A fresh latch is off and saw no input.
    pub fn new() -> (l: Latch)
        ensures
            !l.on(),
            !l.prev(),
    {
        Latch { is_on: false, prev_input: false }
    }

    /// One tick of the latch: an absent first input reads as off; a
    /// rising edge toggles the state; the state is always emitted.
    pub fn update(&mut self, inputs: &Vec<bool>) -> (r: Option<bool>)
        ensures
            ({
                let input_on = if inputs@.len() > 0 {
                    inputs@[0]
                } else {
                    false
                };
                &&& final(self).on() == (if input_on && !old(self).prev() {
                    !old(self).on()
                } else {
                    old(self).on()
                })
                &&& final(self).prev() == input_on
                &&& r == Some(final(self).on())
            }),
    {
        let input_on = if inputs.len() > 0 {
            inputs[0]
        } else {
            false
        };
        if input_on && !self.prev_input {
            self.is_on = !self.is_on;
        }
        self.prev_input = input_on;
        Some(self.is_on)
    }

    /// Reset to the off state. The remembered input level stays, so a
    /// held-high input does not read as a fresh rising edge.
    pub fn reset(&mut self)
        ensures
            !final(self).on(),
            final(self).prev() == old(self).prev(),
    {
        self.is_on = false;
    }

    /// A latch accepts at most one incoming wire.
    pub fn input_arity(&self) -> (r: Arity)
        ensures
            r == Arity::Unary,
    {
        Arity::Unary
    }

    /// A latch emits a boolean.
    pub fn has_output(&self) -> (r: bool)
        ensures
            r,
    {
        true
    }
}

/// A pitch class of the twelve-tone octave.
#[derive(PartialEq, Eq, Structural, Clone, Copy, Debug)]
pub enum PitchClass {
    C,
    Cs,
    D,
    Ds,
    E,
    F,
    Fs,
    G,
    Gs,
    A,
    As,
    B,
}

impl PitchClass {
    /// The semitone index within the octave, C = 0 up to B = 11.
    pub open spec fn semitone_spec(self) -> int {
        match self {
            PitchClass::C => 0,
            PitchClass::Cs => 1,
            PitchClass::D => 2,
            PitchClass::Ds => 3,
            PitchClass::E => 4,
            PitchClass::F => 5,
            PitchClass::Fs => 6,
            PitchClass::G => 7,
            PitchClass::Gs => 8,
            PitchClass::A => 9,
            PitchClass::As => 10,
            PitchClass::B => 11,
        }
    }

    /// The semitone index as a machine integer.
    pub fn semitone(&self) -> (r: u8)
        ensures
            r as int == self.semitone_spec(),
            r < 12,
    {
        match self {
            PitchClass::C => 0,
            PitchClass::Cs => 1,
            PitchClass::D => 2,
            PitchClass::Ds => 3,
            PitchClass::E => 4,
            PitchClass::F => 5,
            PitchClass::Fs => 6,
            PitchClass::G => 7,
            PitchClass::Gs => 8,
            PitchClass::A => 9,
            PitchClass::As => 10,
            PitchClass::B => 11,
        }
    }

    /// The note name, sharps written with `#`.
    pub open spec fn name_spec(self) -> Seq<char> {
        match self {
            PitchClass::C => seq!['C'],
            PitchClass::Cs => seq!['C', '#'],
            PitchClass::D => seq!['D'],
            PitchClass::Ds => seq!['D', '#'],
            PitchClass::E => seq!['E'],
            PitchClass::F => seq!['F'],
            PitchClass::Fs => seq!['F', '#'],
            PitchClass::G => seq!['G'],
            PitchClass::Gs => seq!['G', '#'],
            PitchClass::A => seq!['A'],
            PitchClass::As => seq!['A', '#'],
            PitchClass::B => seq!['B'],
        }
    }

    /// The note name as an owned string.
    pub fn to_string(&self) -> (r: String)
        ensures
            r@ == self.name_spec(),
    {
        match self {
            PitchClass::C => {
                proof {
                    reveal_strlit("C");
                }
                String::from_str("C")
            },
            PitchClass::Cs => {
                proof {
                    reveal_strlit("C#");
                }
                String::from_str("C#")
            },
            PitchClass::D => {
                proof {
                    reveal_strlit("D");
                }
                String::from_str("D")
            },
            PitchClass::Ds => {
                proof {
                    reveal_strlit("D#");
                }
                String::from_str("D#")
            },
            PitchClass::E => {
                proof {
                    reveal_strlit("E");
                }
                String::from_str("E")
            },
            PitchClass::F => {
                proof {
                    reveal_strlit("F");
                }
                String::from_str("F")
            },
            PitchClass::Fs => {
                proof {
                    reveal_strlit("F#");
                }
                String::from_str("F#")
            },
            PitchClass::G => {
                proof {
                    reveal_strlit("G");
                }
                String::from_str("G")
            },
            PitchClass::Gs => {
                proof {
                    reveal_strlit("G#");
                }
                String::from_str("G#")
            },
            PitchClass::A => {
                proof {
                    reveal_strlit("A");
                }
                String::from_str("A")
            },
            PitchClass::As => {
                proof {
                    reveal_strlit("A#");
                }
                String::from_str("A#")
            },
            PitchClass::B => {
                proof {
                    reveal_strlit("B");
                }
                String::from_str("B")
            },
        }
    }
}

/// A note-on or note-off command for the shell to put on the MIDI port.
#[derive(PartialEq, Eq, Structural, Clone, Copy, Debug)]
pub struct NoteEvent {
    pub channel: u8,
    pub key: u8,
    pub velocity: u8,
    pub on: bool,
}

/// A fraction of a whole note, the unit clocks and triggers sync to.
#[derive(PartialEq, Eq, Structural, Clone, Copy, Debug)]
pub struct BeatFraction {
    pub numerator: u16,
    pub denominator: u16,
}

/// The note emitter's core: pitch, velocity and channel settings, and
/// whether its note currently sounds. It decides which MIDI command to
/// emit; the shell owns the port and performs the send.
#[derive(PartialEq, Eq, Structural, Clone, Copy, Debug)]
pub struct Note {
    midi_channel: u8,
    octave: u8,
    pitch_class: PitchClass,
    velocity: u8,
    is_on: bool,
}

impl Note {
    pub closed spec fn channel(self) -> u8 {
        self.midi_channel
    }

    pub closed spec fn octave_of(self) -> u8 {
        self.octave
    }

    pub closed spec fn pitch(self) -> PitchClass {
        self.pitch_class
    }

    pub closed spec fn velocity_of(self) -> u8 {
        self.velocity
    }

    /// Whether the note currently sounds.
    pub closed spec fn on(self) -> bool {
        self.is_on
    }

    /// The MIDI key number: the semitone within the octave plus twelve
    /// per octave.
    pub open spec fn key_spec(self) -> int {
        self.pitch().semitone_spec() + 12 * (self.octave_of() as int)
    }

    /// The octave is small enough for the key number to fit a byte.
    pub open spec fn wf(self) -> bool {
        self.octave_of() <= 20
    }

    /// The settings of the two notes agree; only the sounding state may
    /// differ.
    pub open spec fn config_eq(self, other: Note) -> bool {
        &&& self.channel() == other.channel()
        &&& self.octave_of() == other.octave_of()
        &&& self.pitch() == other.pitch()
        &&& self.velocity_of() == other.velocity_of()
    }

    /// The note-on command this note would emit.
    pub open spec fn on_event(self) -> NoteEvent {
        NoteEvent {
            channel: self.channel(),
            key: self.key_spec() as u8,
            velocity: self.velocity_of(),
            on: true,
        }
    }

    /// The note-off command this note would emit.
    pub open spec fn off_event(self) -> NoteEvent {
        NoteEvent {
            channel: self.channel(),
            key: self.key_spec() as u8,
            velocity: self.velocity_of(),
            on: false,
        }
    }

    /// A fresh note: middle C on channel 0, velocity 100, silent.
    pub fn new() -> (n: Note)
        ensures
            n.wf(),
            n.channel() == 0,
            n.octave_of() == 4,
            n.pitch() == PitchClass::C,
            n.velocity_of() == 100,
            !n.on(),
    {
        Note { midi_channel: 0, octave: 4, pitch_class: PitchClass::C, velocity: 100, is_on: false }
    }

    /// The MIDI key number of the configured pitch.
    pub fn midi_key(&self) -> (r: u8)
        requires
            self.wf(),
        ensures
            r as int == self.key_spec(),
    {
        self.pitch_class.semitone() + self.octave * 12
    }

    /// Start sounding: emits a note-on command unless already sounding.
    pub fn turn_on(&mut self) -> (ev: Option<NoteEvent>)
        requires
            old(self).wf(),
        ensures
            final(self).wf(),
            final(self).config_eq(*old(self)),
            final(self).on(),
            old(self).on() ==> ev is None,
            !old(self).on() ==> ev == Some(old(self).on_event()),
    {
        if self.is_on {
            return None;
        }
        let ev = NoteEvent {
            channel: self.midi_channel,
            key: self.midi_key(),
            velocity: self.velocity,
            on: true,
        };
        self.is_on = true;
        Some(ev)
    }

    /// Stop sounding: emits a note-off command unless already silent.
    pub fn turn_off(&mut self) -> (ev: Option<NoteEvent>)
        requires
            old(self).wf(),
        ensures
            final(self).wf(),
            final(self).config_eq(*old(self)),
            !final(self).on(),
            !old(self).on() ==> ev is None,
            old(self).on() ==> ev == Some(old(self).off_event()),
    {
        if !self.is_on {
            return None;
        }
        let ev = NoteEvent {
            channel: self.midi_channel,
            key: self.midi_key(),
            velocity: self.velocity,
            on: false,
        };
        self.is_on = false;
        Some(ev)
    }

    /// One tick of the note emitter: while paused, or with an absent or
    /// off first input, the note is silenced; an on first input sounds
    /// it. It never contributes a boolean downstream.
    pub fn update(&mut self, is_paused: bool, inputs: &Vec<bool>) -> (r: (
        Option<bool>,
        Option<NoteEvent>,
    ))
        requires
            old(self).wf(),
        ensures
            final(self).wf(),
            r.0 is None,
            ({
                let want_on = !is_paused && inputs@.len() > 0 && inputs@[0];
                &&& final(self).on() == want_on
                &&& final(self).config_eq(*old(self))
                &&& r.1 == (if want_on && !old(self).on() {
                    Some(old(self).on_event())
                } else if !want_on && old(self).on() {
                    Some(old(self).off_event())
                } else {
                    None
                })
            }),
    {
        if is_paused {
            let ev = self.turn_off();
            return (None, ev);
        }
        if inputs.len() > 0 && inputs[0] {
            let ev = self.turn_on();
            (None, ev)
        } else {
            let ev = self.turn_off();
            (None, ev)
        }
    }

    /// Change pitch, silencing the note first as the editor does: the
    /// note-off for the old pitch, if one sounds, is emitted.
    pub fn set_pitch(&mut self, octave: u8, pitch_class: PitchClass) -> (ev: Option<NoteEvent>)
        requires
            old(self).wf(),
            octave <= 20,
        ensures
            final(self).wf(),
            final(self).octave_of() == octave,
            final(self).pitch() == pitch_class,
            !final(self).on(),
            final(self).channel() == old(self).channel(),
            final(self).velocity_of() == old(self).velocity_of(),
            ev == (if old(self).on() {
                Some(old(self).off_event())
            } else {
                None::<NoteEvent>
            }),
    {
        let ev = self.turn_off();
        self.octave = octave;
        self.pitch_class = pitch_class;
        ev
    }

    /// Change the velocity of future note-on commands.
    pub fn set_velocity(&mut self, velocity: u8)
        ensures
            final(self).velocity_of() == velocity,
            final(self).channel() == old(self).channel(),
            final(self).octave_of() == old(self).octave_of(),
            final(self).pitch() == old(self).pitch(),
            final(self).on() == old(self).on(),
    {
        self.velocity = velocity;
    }

    /// Change the MIDI channel of future commands.
    pub fn set_channel(&mut self, channel: u8)
        ensures
            final(self).channel() == channel,
            final(self).velocity_of() == old(self).velocity_of(),
            final(self).octave_of() == old(self).octave_of(),
            final(self).pitch() == old(self).pitch(),
            final(self).on() == old(self).on(),
    {
        self.midi_channel = channel;
    }

    /// A note accepts at most one incoming wire.
    pub fn input_arity(&self) -> (r: Arity)
        ensures
            r == Arity::Unary,
    {
        Arity::Unary
    }

    /// A note is a sink: it emits no boolean.
    pub fn has_output(&self) -> (r: bool)
        ensures
            !r,
    {
        false
    }
}

} // verus!
