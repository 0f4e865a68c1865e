use vstd::prelude::*;

use crate::compiler::turing_compiler::TuringCompiler;
use crate::machine::instruction::Instruction;
use crate::machine::state::State;

verus! {

impl TuringCompiler {
    /// Allocate `count` fresh states at once, numbered consecutively.
    pub fn allocate_states(&mut self, count: usize) -> (r: Vec<State>)
        requires
            old(self).counter() + count <= usize::MAX,
        ensures
            r@.len() == count,
            forall|j: int|
                0 <= j < count ==> r@[j] == State((old(self).counter() + j) as usize),
            final(self).counter() == old(self).counter() + count,
            final(self).table() == old(self).table(),
    {
        let mut allocated: Vec<State> = Vec::new();
        let mut added: usize = 0;
        while added < count
            invariant
                added <= count,
                old(self).counter() + count <= usize::MAX,
                self.counter() == old(self).counter() + added,
                self.table() == old(self).table(),
                allocated@.len() == added,
                forall|j: int|
                    0 <= j < added ==> allocated@[j] == State((old(self).counter() + j) as usize),
            decreases count - added,
        {
            let state = self.allocate_state();
            allocated.push(state);
            added = added + 1;
        }
        allocated
    }

    /// Record a batch of rules in order; later rules win on key collisions.
    pub fn add_instructions(&mut self, instructions: &[Instruction])
        ensures
            final(self).counter() == old(self).counter(),
            final(self).table() == instructions@.fold_left(
                old(self).table(),
                |acc: Map<(State, bool), Instruction>, instruction: Instruction|
                    acc.insert((instruction.current_state, instruction.read_bit), instruction),
            ),
    {
        let mut added: usize = 0;
        while added < instructions.len()
            invariant
                added <= instructions@.len(),
                self.counter() == old(self).counter(),
                self.table() == instructions@.take(added as int).fold_left(
                    old(self).table(),
                    |acc: Map<(State, bool), Instruction>, instruction: Instruction|
                        acc.insert((instruction.current_state, instruction.read_bit), instruction),
                ),
            decreases instructions@.len() - added,
        {
            let instruction = instructions[added];
            self.add_instruction(instruction);
            added = added + 1;
            proof {
                assert(instructions@.take(added as int).drop_last() =~= instructions@.take(
                    added - 1,
                ));
            }
        }
        proof {
            assert(instructions@.take(instructions@.len() as int) =~= instructions@);
        }
    }
}

} // verus!
