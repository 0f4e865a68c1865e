use vstd::prelude::*;

use crate::machine::instruction::Instruction;
use crate::machine::state::State;

verus! {

/// The sparse transition table of one program, mapping (state, bit read) to a
/// rule. Later additions under the same key overwrite earlier ones, so the
/// table is modelled as the map built left to right from the entry list.
#[derive(Debug)]
pub struct TuringProgram {
    pub instructions: Vec<Instruction>,
}

/// The map that a list of rules denotes: entries further right win.
pub open spec fn table_of(entries: Seq<Instruction>) -> Map<(State, bool), Instruction>
    decreases entries.len(),
{
    if entries.len() == 0 {
        Map::empty()
    } else {
        table_of(entries.drop_last()).insert(
            (entries.last().current_state, entries.last().read_bit),
            entries.last(),
        )
    }
}

impl TuringProgram {
    /// The transition table this program denotes.
    pub closed spec fn view(self) -> Map<(State, bool), Instruction> {
        table_of(self.instructions@)
    }

    /// The rule for `state` reading `read_bit`, if the table has one.
    pub fn get(&self, state: State, read_bit: bool) -> (r: Option<&Instruction>)
        ensures
            match r {
                Some(instruction) => self@.contains_key((state, read_bit))
                    && *instruction == self@[(state, read_bit)],
                None => !self@.contains_key((state, read_bit)),
            },
    {
        let mut i: usize = self.instructions.len();
        proof {
            assert(self.instructions@.take(i as int) =~= self.instructions@);
        }
        while i > 0
            invariant
                i <= self.instructions@.len(),
                table_of(self.instructions@.take(i as int)).contains_key((state, read_bit))
                    <==> self@.contains_key((state, read_bit)),
                table_of(self.instructions@.take(i as int)).contains_key((state, read_bit))
                    ==> table_of(self.instructions@.take(i as int))[(state, read_bit)]
                        == self@[(state, read_bit)],
            decreases i,
        {
            i = i - 1;
            let entry = &self.instructions[i];
            proof {
                assert(self.instructions@.take(i + 1).drop_last() =~= self.instructions@.take(i as int));
                assert(self.instructions@.take(i + 1).last() == self.instructions@[i as int]);
                assert(table_of(self.instructions@.take(i + 1)) == table_of(
                    self.instructions@.take(i as int),
                ).insert(
                    (self.instructions@[i as int].current_state, self.instructions@[i as int].read_bit),
                    self.instructions@[i as int],
                ));
            }
            if entry.current_state == state && entry.read_bit == read_bit {
                return Some(&self.instructions[i]);
            }
        }
        proof {
            assert(self.instructions@.take(0) =~= Seq::<Instruction>::empty());
        }
        None
    }

    /// Add a rule; a rule already present for the same (state, bit) is replaced.
    pub fn add_instruction(&mut self, instruction: Instruction)
        ensures
            final(self)@ == old(self)@.insert(
                (instruction.current_state, instruction.read_bit),
                instruction,
            ),
    {
        self.instructions.push(instruction);
        proof {
            assert(self.instructions@.drop_last() =~= old(self).instructions@);
        }
    }
}

impl Clone for TuringProgram {
    /// A snapshot denoting the same table as the program it copies.
    fn clone(&self) -> (r: Self)
        ensures
            r@ == self@,
    {
        let mut entries: Vec<Instruction> = Vec::new();
        let mut i: usize = 0;
        while i < self.instructions.len()
            invariant
                i <= self.instructions@.len(),
                entries@ == self.instructions@.take(i as int),
            decreases self.instructions@.len() - i,
        {
            entries.push(self.instructions[i]);
            i = i + 1;
            proof {
                assert(entries@ =~= self.instructions@.take(i as int));
            }
        }
        proof {
            assert(self.instructions@.take(self.instructions@.len() as int) =~= self.instructions@);
        }
        TuringProgram { instructions: entries }
    }
}

impl Default for TuringProgram {
    fn default() -> (r: Self)
        ensures
            r@ == Map::<(State, bool), Instruction>::empty(),
    {
        TuringProgram { instructions: Vec::new() }
    }
}

} // verus!
