use vstd::prelude::*;

use crate::compiler::turing_compiler::TuringCompiler;
use crate::compiler::turing_compiler::alloc_count;
use crate::compiler::turing_compiler::resolved;
use crate::enums::movement::Movement;
use crate::machine::instruction::Instruction;
use crate::machine::instruction::rule;
use crate::machine::state::State;

verus! {

impl TuringCompiler {
    /// The shared shape of every unconditional primitive: one block state
    /// whose two rules write a fixed bit per value read, move the same way,
    /// and continue in one common successor.
    pub(crate) fn emit_block(
        &mut self,
        current_state: Option<State>,
        next_state: Option<State>,
        write_on_zero: bool,
        write_on_one: bool,
        movement: Movement,
    ) -> (r: (State, State))
        requires
            old(self).counter() + alloc_count(current_state) + alloc_count(next_state)
                <= usize::MAX,
        ensures
            r.0 == resolved(current_state, old(self).counter()),
            r.1 == resolved(
                next_state,
                (old(self).counter() + alloc_count(current_state)) as usize,
            ),
            final(self).counter() == old(self).counter() + alloc_count(current_state)
                + alloc_count(next_state),
            final(self).table() == old(self).table().insert(
                (r.0, false),
                rule(r.0, false, write_on_zero, movement, r.1),
            ).insert((r.0, true), rule(r.0, true, write_on_one, movement, r.1)),
    {
        let current = self.resolve_or_allocate(current_state);
        let next = self.resolve_or_allocate(next_state);
        let instruction_0 = Instruction::new(current, false, write_on_zero).with_next_state(
            next,
        ).with_movement(movement);
        let instruction_1 = Instruction::new(current, true, write_on_one).with_next_state(
            next,
        ).with_movement(movement);
        self.add_instruction(instruction_0);
        self.add_instruction(instruction_1);
        (current, next)
    }

    /// The given state moves the head left, bit unchanged, then continues in
    /// the next state.
    pub fn move_left(&mut self, current_state: Option<State>, next_state: Option<State>) -> (r: (
        State,
        State,
    ))
        requires
            old(self).counter() + alloc_count(current_state) + alloc_count(next_state)
                <= usize::MAX,
        ensures
            r.0 == resolved(current_state, old(self).counter()),
            r.1 == resolved(
                next_state,
                (old(self).counter() + alloc_count(current_state)) as usize,
            ),
            final(self).counter() == old(self).counter() + alloc_count(current_state)
                + alloc_count(next_state),
            final(self).table() == old(self).table().insert(
                (r.0, false),
                rule(r.0, false, false, Movement::Left, r.1),
            ).insert((r.0, true), rule(r.0, true, true, Movement::Left, r.1)),
    {
        self.emit_block(current_state, next_state, false, true, Movement::Left)
    }

    /// The given state moves the head right, bit unchanged, then continues in
    /// the next state.
    pub fn move_right(&mut self, current_state: Option<State>, next_state: Option<State>) -> (r: (
        State,
        State,
    ))
        requires
            old(self).counter() + alloc_count(current_state) + alloc_count(next_state)
                <= usize::MAX,
        ensures
            r.0 == resolved(current_state, old(self).counter()),
            r.1 == resolved(
                next_state,
                (old(self).counter() + alloc_count(current_state)) as usize,
            ),
            final(self).counter() == old(self).counter() + alloc_count(current_state)
                + alloc_count(next_state),
            final(self).table() == old(self).table().insert(
                (r.0, false),
                rule(r.0, false, false, Movement::Right, r.1),
            ).insert((r.0, true), rule(r.0, true, true, Movement::Right, r.1)),
    {
        self.emit_block(current_state, next_state, false, true, Movement::Right)
    }

    /// The given state keeps head and bit as they are and continues in the
    /// next state.
    pub fn idle(&mut self, current_state: Option<State>, next_state: Option<State>) -> (r: (
        State,
        State,
    ))
        requires
            old(self).counter() + alloc_count(current_state) + alloc_count(next_state)
                <= usize::MAX,
        ensures
            r.0 == resolved(current_state, old(self).counter()),
            r.1 == resolved(
                next_state,
                (old(self).counter() + alloc_count(current_state)) as usize,
            ),
            final(self).counter() == old(self).counter() + alloc_count(current_state)
                + alloc_count(next_state),
            final(self).table() == old(self).table().insert(
                (r.0, false),
                rule(r.0, false, false, Movement::Stay, r.1),
            ).insert((r.0, true), rule(r.0, true, true, Movement::Stay, r.1)),
    {
        self.emit_block(current_state, next_state, false, true, Movement::Stay)
    }

    /// The sole conditional primitive: on a one the given state continues in
    /// `state_marked` moving `movement_marked`, on a zero in `state_unmarked`
    /// moving `movement_unmarked`; the bit is left as it was.
    pub fn branch(
        &mut self,
        current_state: Option<State>,
        state_marked: Option<State>,
        state_unmarked: Option<State>,
        movement_marked: Movement,
        movement_unmarked: Movement,
    ) -> (r: (State, State, State))
        requires
            old(self).counter() + alloc_count(current_state) + alloc_count(state_marked)
                + alloc_count(state_unmarked) <= usize::MAX,
        ensures
            r.0 == resolved(current_state, old(self).counter()),
            r.1 == resolved(
                state_marked,
                (old(self).counter() + alloc_count(current_state)) as usize,
            ),
            r.2 == resolved(
                state_unmarked,
                (old(self).counter() + alloc_count(current_state) + alloc_count(
                    state_marked,
                )) as usize,
            ),
            final(self).counter() == old(self).counter() + alloc_count(current_state)
                + alloc_count(state_marked) + alloc_count(state_unmarked),
            final(self).table() == old(self).table().insert(
                (r.0, false),
                rule(r.0, false, false, movement_unmarked, r.2),
            ).insert((r.0, true), rule(r.0, true, true, movement_marked, r.1)),
    {
        let branch_state = self.resolve_or_allocate(current_state);
        let marked = self.resolve_or_allocate(state_marked);
        let unmarked = self.resolve_or_allocate(state_unmarked);
        let instruction_0 = Instruction::new(branch_state, false, false).with_next_state(
            unmarked,
        ).with_movement(movement_unmarked);
        let instruction_1 = Instruction::new(branch_state, true, true).with_next_state(
            marked,
        ).with_movement(movement_marked);
        self.add_instruction(instruction_0);
        self.add_instruction(instruction_1);
        (branch_state, marked, unmarked)
    }

    /// The given state writes a one, stays put, and continues in the next
    /// state.
    pub fn mark(&mut self, current_state: Option<State>, next_state: Option<State>) -> (r: (
        State,
        State,
    ))
        requires
            old(self).counter() + alloc_count(current_state) + alloc_count(next_state)
                <= usize::MAX,
        ensures
            r.0 == resolved(current_state, old(self).counter()),
            r.1 == resolved(
                next_state,
                (old(self).counter() + alloc_count(current_state)) as usize,
            ),
            final(self).counter() == old(self).counter() + alloc_count(current_state)
                + alloc_count(next_state),
            final(self).table() == old(self).table().insert(
                (r.0, false),
                rule(r.0, false, true, Movement::Stay, r.1),
            ).insert((r.0, true), rule(r.0, true, true, Movement::Stay, r.1)),
    {
        self.emit_block(current_state, next_state, true, true, Movement::Stay)
    }

    /// The given state writes a zero, stays put, and continues in the next
    /// state.
    pub fn unmark(&mut self, current_state: Option<State>, next_state: Option<State>) -> (r: (
        State,
        State,
    ))
        requires
            old(self).counter() + alloc_count(current_state) + alloc_count(next_state)
                <= usize::MAX,
        ensures
            r.0 == resolved(current_state, old(self).counter()),
            r.1 == resolved(
                next_state,
                (old(self).counter() + alloc_count(current_state)) as usize,
            ),
            final(self).counter() == old(self).counter() + alloc_count(current_state)
                + alloc_count(next_state),
            final(self).table() == old(self).table().insert(
                (r.0, false),
                rule(r.0, false, false, Movement::Stay, r.1),
            ).insert((r.0, true), rule(r.0, true, false, Movement::Stay, r.1)),
    {
        self.emit_block(current_state, next_state, false, false, Movement::Stay)
    }

    /// The given state transitions to the halt sentinel for either bit, tape
    /// and head untouched.
    pub fn halt(&mut self, current_state: Option<State>) -> (r: State)
        requires
            old(self).counter() + alloc_count(current_state) <= usize::MAX,
        ensures
            r == resolved(current_state, old(self).counter()),
            final(self).counter() == old(self).counter() + alloc_count(current_state),
            final(self).table() == old(self).table().insert(
                (r, false),
                rule(r, false, false, Movement::Stay, State(usize::MAX)),
            ).insert((r, true), rule(r, true, true, Movement::Stay, State(usize::MAX))),
    {
        let halt_state = self.get_halt_state();
        let (current, _) = self.emit_block(current_state, Some(halt_state), false, true, Movement::Stay);
        current
    }

    /// Write a one, move right, continue in the next state.
    pub fn mark_and_move_right(
        &mut self,
        current_state: Option<State>,
        next_state: Option<State>,
    ) -> (r: (State, State))
        requires
            old(self).counter() + alloc_count(current_state) + alloc_count(next_state)
                <= usize::MAX,
        ensures
            r.0 == resolved(current_state, old(self).counter()),
            r.1 == resolved(
                next_state,
                (old(self).counter() + alloc_count(current_state)) as usize,
            ),
            final(self).counter() == old(self).counter() + alloc_count(current_state)
                + alloc_count(next_state),
            final(self).table() == old(self).table().insert(
                (r.0, false),
                rule(r.0, false, true, Movement::Right, r.1),
            ).insert((r.0, true), rule(r.0, true, true, Movement::Right, r.1)),
    {
        self.emit_block(current_state, next_state, true, true, Movement::Right)
    }

    /// Write a one, move left, continue in the next state.
    pub fn mark_and_move_left(
        &mut self,
        current_state: Option<State>,
        next_state: Option<State>,
    ) -> (r: (State, State))
        requires
            old(self).counter() + alloc_count(current_state) + alloc_count(next_state)
                <= usize::MAX,
        ensures
            r.0 == resolved(current_state, old(self).counter()),
            r.1 == resolved(
                next_state,
                (old(self).counter() + alloc_count(current_state)) as usize,
            ),
            final(self).counter() == old(self).counter() + alloc_count(current_state)
                + alloc_count(next_state),
            final(self).table() == old(self).table().insert(
                (r.0, false),
                rule(r.0, false, true, Movement::Left, r.1),
            ).insert((r.0, true), rule(r.0, true, true, Movement::Left, r.1)),
    {
        self.emit_block(current_state, next_state, true, true, Movement::Left)
    }

    /// Write a zero, move right, continue in the next state.
    pub fn unmark_and_move_right(
        &mut self,
        current_state: Option<State>,
        next_state: Option<State>,
    ) -> (r: (State, State))
        requires
            old(self).counter() + alloc_count(current_state) + alloc_count(next_state)
                <= usize::MAX,
        ensures
            r.0 == resolved(current_state, old(self).counter()),
            r.1 == resolved(
                next_state,
                (old(self).counter() + alloc_count(current_state)) as usize,
            ),
            final(self).counter() == old(self).counter() + alloc_count(current_state)
                + alloc_count(next_state),
            final(self).table() == old(self).table().insert(
                (r.0, false),
                rule(r.0, false, false, Movement::Right, r.1),
            ).insert((r.0, true), rule(r.0, true, false, Movement::Right, r.1)),
    {
        self.emit_block(current_state, next_state, false, false, Movement::Right)
    }

    /// Write a zero, move left, continue in the next state.
    pub fn unmark_and_move_left(
        &mut self,
        current_state: Option<State>,
        next_state: Option<State>,
    ) -> (r: (State, State))
        requires
            old(self).counter() + alloc_count(current_state) + alloc_count(next_state)
                <= usize::MAX,
        ensures
            r.0 == resolved(current_state, old(self).counter()),
            r.1 == resolved(
                next_state,
                (old(self).counter() + alloc_count(current_state)) as usize,
            ),
            final(self).counter() == old(self).counter() + alloc_count(current_state)
                + alloc_count(next_state),
            final(self).table() == old(self).table().insert(
                (r.0, false),
                rule(r.0, false, false, Movement::Left, r.1),
            ).insert((r.0, true), rule(r.0, true, false, Movement::Left, r.1)),
    {
        self.emit_block(current_state, next_state, false, false, Movement::Left)
    }
}

} // verus!
