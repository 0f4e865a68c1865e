use vstd::prelude::*;

use vstd::string::StringExecFns;

use crate::enums::movement::Movement;
use crate::machine::state::State;
use crate::text::decimal_of;
use crate::text::decimal_string;

verus! {

/// One transition rule: in `current_state`, reading `read_bit`, write
/// `write_bit`, move the head by `movement`, and continue in `next_state`.
#[derive(Debug, Clone, Copy, PartialEq, Eq, Structural)]
pub struct Instruction {
    pub current_state: State,
    pub read_bit: bool,
    pub write_bit: bool,
    pub movement: Movement,
    pub next_state: State,
}

/// The textbook rendering of one rule.
pub open spec fn formal_string_of(i: Instruction) -> Seq<char> {
    "(q="@ + decimal_of(i.current_state.value() as nat) + ", \u{3c3}="@ + decimal_of(
        if i.read_bit {
            1nat
        } else {
            0nat
        },
    ) + ") => (q'="@ + decimal_of(i.next_state.value() as nat) + ", \u{3c3}'="@ + decimal_of(
        if i.write_bit {
            1nat
        } else {
            0nat
        },
    ) + ", D="@ + (match i.movement {
        Movement::Stay => "S"@,
        Movement::Left => "L"@,
        Movement::Right => "R"@,
    }) + ")"@
}

/// The rule that, in `current` reading `read_bit`, writes `write_bit`,
/// moves by `movement` and continues in `next`.
pub open spec fn rule(
    current: State,
    read_bit: bool,
    write_bit: bool,
    movement: Movement,
    next: State,
) -> Instruction {
    Instruction { current_state: current, read_bit, write_bit, movement, next_state: next }
}

impl Instruction {
    /// A rule that stays put and loops back to `current_state`; movement and
    /// next state are filled in by the `with_` builders.
    pub fn new(current_state: State, read_bit: bool, write_bit: bool) -> (r: Self)
        ensures
            r == (Instruction {
                current_state,
                read_bit,
                write_bit,
                movement: Movement::Stay,
                next_state: current_state,
            }),
    {
        Self { current_state, read_bit, write_bit, movement: Movement::default(), next_state: current_state }
    }

    pub fn with_movement(self, movement: Movement) -> (r: Self)
        ensures
            r == (Instruction { movement, ..self }),
    {
        let mut updated = self;
        updated.movement = movement;
        updated
    }

    pub fn with_next_state(self, next_state: State) -> (r: Self)
        ensures
            r == (Instruction { next_state, ..self }),
    {
        let mut updated = self;
        updated.next_state = next_state;
        updated
    }

    pub fn get_read_bit_number(&self) -> (r: usize)
        ensures
            r == if self.read_bit { 1usize } else { 0usize },
    {
        if self.read_bit {
            1
        } else {
            0
        }
    }

    pub fn get_write_bit_number(&self) -> (r: usize)
        ensures
            r == if self.write_bit { 1usize } else { 0usize },
    {
        if self.write_bit {
            1
        } else {
            0
        }
    }

    /// Render the rule the way a textbook writes a transition.
    pub fn get_formal_string(&self) -> (r: String)
        ensures
            r@ == formal_string_of(*self),
    {
        let mut rendered = String::new();
        rendered.append("(q=");
        let current_part = decimal_string(self.current_state.get());
        rendered.append(current_part.as_str());
        rendered.append(", \u{3c3}=");
        let read_part = decimal_string(self.get_read_bit_number());
        rendered.append(read_part.as_str());
        rendered.append(") => (q'=");
        let next_part = decimal_string(self.next_state.get());
        rendered.append(next_part.as_str());
        rendered.append(", \u{3c3}'=");
        let write_part = decimal_string(self.get_write_bit_number());
        rendered.append(write_part.as_str());
        rendered.append(", D=");
        rendered.append(self.movement.get_code_string());
        rendered.append(")");
        proof {
            assert(rendered@ =~= formal_string_of(*self));
        }
        rendered
    }
}

} // verus!
