use vstd::prelude::*;

use crate::machine::instruction::Instruction;
use crate::machine::state::State;
use crate::machine::turing_program::TuringProgram;

verus! {

/// The state a caller asked for, or the one the allocator hands out next.
pub open spec fn resolved(given: Option<State>, fallback: usize) -> State {
    match given {
        Some(state) => state,
        None => State(fallback),
    }
}

/// How many fresh states resolving `given` consumes.
pub open spec fn alloc_count(given: Option<State>) -> usize {
    match given {
        Some(_) => 0usize,
        None => 1usize,
    }
}

/// The key `(s, b)` maps the same way in `before` and `after`.
pub open spec fn same_entry(
    before: Map<(State, bool), Instruction>,
    after: Map<(State, bool), Instruction>,
    s: State,
    b: bool,
) -> bool {
    after.contains_key((s, b)) == before.contains_key((s, b)) && (before.contains_key((s, b))
        ==> after[(s, b)] == before[(s, b)])
}

/// Every key whose state lies outside `touched` maps the same way in
/// `before` and `after`.
pub open spec fn untouched_outside(
    before: Map<(State, bool), Instruction>,
    after: Map<(State, bool), Instruction>,
    touched: Set<State>,
) -> bool {
    forall|s: State, b: bool| !touched.contains(s) ==> #[trigger] same_entry(before, after, s, b)
}

/// The concrete builder: a monotonic state-id allocator plus the program
/// being accumulated. Each instance numbers its states independently.
#[derive(Debug)]
pub struct TuringCompiler {
    current_state: usize,
    program: TuringProgram,
}

impl TuringCompiler {
    /// The identifier the allocator hands out next.
    pub closed spec fn counter(self) -> usize {
        self.current_state
    }

    /// The transition table accumulated so far.
    pub closed spec fn table(self) -> Map<(State, bool), Instruction> {
        self.program@
    }

    /// A snapshot of the program built so far; later compiler calls never
    /// affect a snapshot already taken.
    pub fn get_program(&self) -> (r: TuringProgram)
        ensures
            r@ == self.table(),
    {
        self.program.clone()
    }

    /// A fresh, never-reused state, always distinct from the halt sentinel.
    pub fn allocate_state(&mut self) -> (r: State)
        requires
            old(self).counter() < usize::MAX,
        ensures
            r == State(old(self).counter()),
            !r.is_halt(),
            final(self).counter() == old(self).counter() + 1,
            final(self).table() == old(self).table(),
    {
        let new_state = self.current_state;
        self.current_state = self.current_state + 1;
        State::new(new_state)
    }

    /// The reserved halt sentinel; the allocator never returns it.
    pub fn get_halt_state(&self) -> (r: State)
        ensures
            r == State(usize::MAX),
            r.is_halt(),
    {
        State::new(usize::MAX)
    }

    /// The rule currently recorded for `(state, read_bit)`, if any.
    pub fn get_instruction(&self, state: State, read_bit: bool) -> (r: Option<&Instruction>)
        ensures
            match r {
                Some(instruction) => self.table().contains_key((state, read_bit)) && *instruction
                    == self.table()[(state, read_bit)],
                None => !self.table().contains_key((state, read_bit)),
            },
    {
        self.program.get(state, read_bit)
    }

    /// Record a rule, replacing any rule already keyed the same way.
    pub fn add_instruction(&mut self, instruction: Instruction)
        ensures
            final(self).counter() == old(self).counter(),
            final(self).table() == old(self).table().insert(
                (instruction.current_state, instruction.read_bit),
                instruction,
            ),
    {
        self.program.add_instruction(instruction);
    }

    /// The single helper behind every optional boundary state: hand back the
    /// caller's state, or allocate a fresh one when none was given.
    pub fn resolve_or_allocate(&mut self, given: Option<State>) -> (r: State)
        requires
            given is None ==> old(self).counter() < usize::MAX,
        ensures
            r == resolved(given, old(self).counter()),
            final(self).counter() == old(self).counter() + alloc_count(given),
            final(self).table() == old(self).table(),
    {
        match given {
            Some(state) => state,
            None => self.allocate_state(),
        }
    }
}

impl Default for TuringCompiler {
    fn default() -> (r: Self)
        ensures
            r.counter() == 0,
            r.table() == Map::<(State, bool), Instruction>::empty(),
    {
        TuringCompiler { current_state: 0, program: TuringProgram::default() }
    }
}

} // verus!
