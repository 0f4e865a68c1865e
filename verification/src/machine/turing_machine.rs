use vstd::prelude::*;

use crate::enums::display_style::DisplayStyle;
use crate::enums::movement::Movement;
use crate::machine::instruction::Instruction;
use crate::machine::state::State;
use crate::machine::turing_program::TuringProgram;
use crate::machine::turing_tape::TuringTape;
use crate::machine::turing_tape::grown;

verus! {

/// Relies on core::time::Duration::from_millis to build the delay an observer
/// may ask for between steps; nothing about the value is assumed.
pub assume_specification[ core::time::Duration::from_millis ](millis: u64) -> core::time::Duration;

/// Relies on the derived Clone of core::time::Duration, a Copy type whose
/// clone returns the value itself.
pub assume_specification[ <core::time::Duration as Clone>::clone ](d: &core::time::Duration) -> (r:
    core::time::Duration)
    ensures
        r == *d,
;

/// Why a run aborted instead of halting cleanly.
#[derive(Debug, Clone, Copy, PartialEq, Eq, Structural)]
pub enum MachineError {
    /// The machine reached (state, bit) with no rule while the state is not
    /// the halt sentinel: the program is incomplete.
    DanglingState { state: State, read_bit: bool },
    /// The consecutive-no-progress counter reached its configured bound, or
    /// the head could not move further right.
    NonTermination,
}

/// A machine configuration as the step relation sees it: the allocated tape
/// cells, the head position, and the control state.
pub struct Config {
    pub tape: Seq<bool>,
    pub head: nat,
    pub state: State,
}

/// What one lookup-and-apply does to a configuration.
pub enum StepResult {
    /// A rule matched; this is the configuration after applying it.
    Next(Config),
    /// No rule matched and the state is the halt sentinel.
    CleanHalt,
    /// No rule matched and the state is not the halt sentinel.
    Dangling,
}

/// Applying `instruction` to `c` once the tape covers the head: write the
/// bit, then move, growing the tape at whichever end the head runs past.
pub open spec fn apply_instruction(c: Config, instruction: Instruction) -> Config {
    let written = c.tape.update(c.head as int, instruction.write_bit);
    match instruction.movement {
        Movement::Stay => Config { tape: written, head: c.head, state: instruction.next_state },
        Movement::Right => Config {
            tape: grown(written, c.head as int + 1),
            head: (c.head + 1) as nat,
            state: instruction.next_state,
        },
        Movement::Left => if c.head == 0 {
            Config {
                tape: Seq::new(8, |_i: int| false) + written,
                head: 7nat,
                state: instruction.next_state,
            }
        } else {
            Config { tape: written, head: (c.head - 1) as nat, state: instruction.next_state }
        },
    }
}

/// One step of the interpreter on configuration `c` under transition table
/// `p`: grow the tape to cover the head, read, look the rule up, apply it.
pub open spec fn spec_step(p: Map<(State, bool), Instruction>, c: Config) -> StepResult {
    let covered = grown(c.tape, c.head as int);
    let bit = covered[c.head as int];
    if p.contains_key((c.state, bit)) {
        StepResult::Next(
            apply_instruction(Config { tape: covered, head: c.head, state: c.state }, p[(c.state, bit)]),
        )
    } else if c.state.is_halt() {
        StepResult::CleanHalt
    } else {
        StepResult::Dangling
    }
}

/// `c2` is reached from `c1` in exactly `n` applied steps of `p`.
pub open spec fn steps_to(
    p: Map<(State, bool), Instruction>,
    c1: Config,
    c2: Config,
    n: nat,
) -> bool
    decreases n,
{
    if n == 0 {
        c1 == c2
    } else {
        spec_step(p, c1) matches StepResult::Next(c) && steps_to(p, c, c2, (n - 1) as nat)
    }
}

/// Chaining step chains.
pub proof fn lemma_steps_to_trans(
    p: Map<(State, bool), Instruction>,
    c1: Config,
    c2: Config,
    c3: Config,
    n1: nat,
    n2: nat,
)
    requires
        steps_to(p, c1, c2, n1),
        steps_to(p, c2, c3, n2),
    ensures
        steps_to(p, c1, c3, n1 + n2),
    decreases n1,
{
    if n1 == 0 {
    } else {
        let c = spec_step(p, c1)->Next_0;
        lemma_steps_to_trans(p, c, c2, c3, (n1 - 1) as nat, n2);
    }
}


/// What one whole run leaves behind: the result handed back, the
/// configuration the machine rests in, and its no-progress counter.
pub struct RunOutcome {
    pub result: Result<(), MachineError>,
    pub config: Config,
    pub no_progress_steps: nat,
}

/// The outcome of running `p` from configuration `c` with the no-progress
/// counter at `counter` against bound `bound`, allowed at most `fuel`
/// applied steps. This replays `program_step`'s case analysis: the failsafe
/// is consulted before each step, a spent fuel budget is reported as the
/// tripped failsafe, and a head that cannot move further right trips it
/// too.
pub open spec fn run_outcome(
    p: Map<(State, bool), Instruction>,
    c: Config,
    counter: nat,
    bound: nat,
    fuel: nat,
) -> RunOutcome
    decreases fuel,
{
    if fuel == 0 {
        RunOutcome { result: Err(MachineError::NonTermination), config: c, no_progress_steps: bound }
    } else if counter >= bound {
        RunOutcome { result: Err(MachineError::NonTermination), config: c, no_progress_steps: counter }
    } else {
        let covered = Config { tape: grown(c.tape, c.head as int), ..c };
        let bit = covered.tape[c.head as int];
        match spec_step(p, c) {
            StepResult::CleanHalt => RunOutcome {
                result: Ok(()),
                config: covered,
                no_progress_steps: counter,
            },
            StepResult::Dangling => RunOutcome {
                result: Err(MachineError::DanglingState { state: c.state, read_bit: bit }),
                config: covered,
                no_progress_steps: counter,
            },
            StepResult::Next(next) => if p[(c.state, bit)].movement == Movement::Right && c.head
                == usize::MAX {
                RunOutcome {
                    result: Err(MachineError::NonTermination),
                    config: covered,
                    no_progress_steps: counter,
                }
            } else {
                run_outcome(
                    p,
                    next,
                    if next.state == c.state {
                        counter + 1
                    } else {
                        0
                    },
                    bound,
                    (fuel - 1) as nat,
                )
            },
        }
    }
}

/// `cf` is a configuration the step relation reaches from `c0`, itself or
/// padded by the growth that one more read would add.
pub open spec fn reaches(p: Map<(State, bool), Instruction>, c0: Config, cf: Config) -> bool {
    exists|n: nat, c: Config|
        #[trigger] steps_to(p, c0, c, n) && (cf == c || cf == Config {
            tape: grown(c.tape, c.head as int),
            ..c
        })
}

/// The default bound on consecutive steps that leave the control state
/// unchanged before a run is declared non-terminating.
pub const DEFAULT_MAX_NO_PROGRESS_STEPS: usize = 1000000;

/// The interpreter: replays a program's rules against a tape until no rule
/// matches, watching a no-progress counter as its only failsafe against
/// programs that spin in place.
#[derive(Debug, Clone)]
pub struct TuringMachine {
    pub tape: TuringTape,
    pub head: usize,
    pub state: State,
    pub program: TuringProgram,
    pub no_progress_steps: usize,
    pub max_no_progress_steps: usize,
    pub delay: core::time::Duration,
    pub debug_mode: bool,
    pub display_style: DisplayStyle,
}

impl TuringMachine {
    /// The configuration this machine is in.
    pub open spec fn config(self) -> Config {
        Config { tape: self.tape@, head: self.head as nat, state: self.state }
    }

    /// The fields a step never touches.
    pub open spec fn same_settings(self, other: TuringMachine) -> bool {
        self.program == other.program && self.max_no_progress_steps == other.max_no_progress_steps
            && self.delay == other.delay && self.debug_mode == other.debug_mode
            && self.display_style == other.display_style
    }

    pub fn with_tape(self, tape: TuringTape) -> (r: Self)
        ensures
            r == (TuringMachine { tape, ..self }),
    {
        let mut updated = self;
        updated.tape = tape;
        updated
    }

    pub fn with_program(self, program: TuringProgram) -> (r: Self)
        ensures
            r == (TuringMachine { program, ..self }),
    {
        let mut updated = self;
        updated.program = program;
        updated
    }

    pub fn with_debug_mode(self, display_style: DisplayStyle, delay: core::time::Duration) -> (r:
        Self)
        ensures
            r == (TuringMachine { display_style, delay, debug_mode: true, ..self }),
    {
        let mut updated = self;
        updated.display_style = display_style;
        updated.delay = delay;
        updated.debug_mode = true;
        updated
    }

    /// Forget tape, control state, head and counter alike.
    pub fn reset_state_information(&mut self)
        ensures
            *final(self) == (TuringMachine {
                tape: final(self).tape,
                state: State(0usize),
                head: 0usize,
                no_progress_steps: 0usize,
                ..*old(self)
            }),
            final(self).tape@ == Seq::<bool>::empty(),
    {
        self.tape = TuringTape::default();
        self.state = State::default();
        self.head = 0;
        self.no_progress_steps = 0;
    }

    /// Start over on the same tape: control state, head and counter are
    /// reinitialized so another program can be replayed over the tape.
    pub fn reset_state_but_persist_tape(&mut self)
        ensures
            *final(self) == (TuringMachine {
                state: State(0usize),
                head: 0usize,
                no_progress_steps: 0usize,
                ..*old(self)
            }),
    {
        self.state = State::default();
        self.head = 0;
        self.no_progress_steps = 0;
    }

    pub fn set_program(&mut self, program: TuringProgram)
        ensures
            *final(self) == (TuringMachine { program, ..*old(self) }),
    {
        self.program = program;
    }

    pub fn set_tape(&mut self, tape: TuringTape)
        ensures
            *final(self) == (TuringMachine { tape, ..*old(self) }),
    {
        self.tape = tape;
    }

    pub fn set_head(&mut self, head: usize)
        ensures
            *final(self) == (TuringMachine { head, ..*old(self) }),
    {
        self.head = head;
    }

    /// The bit under the head; reading grows the tape over the head first.
    pub fn read(&mut self) -> (r: bool)
        ensures
            *final(self) == (TuringMachine { tape: final(self).tape, ..*old(self) }),
            final(self).tape@ == grown(old(self).tape@, old(self).head as int),
            r == final(self).tape@[old(self).head as int],
    {
        self.tape.read(self.head)
    }

    /// Write one under the head.
    pub fn set(&mut self)
        ensures
            *final(self) == (TuringMachine { tape: final(self).tape, ..*old(self) }),
            final(self).tape@ == grown(old(self).tape@, old(self).head as int).update(
                old(self).head as int,
                true,
            ),
    {
        self.tape.set(self.head)
    }

    /// Write zero under the head.
    pub fn unset(&mut self)
        ensures
            *final(self) == (TuringMachine { tape: final(self).tape, ..*old(self) }),
            final(self).tape@ == grown(old(self).tape@, old(self).head as int).update(
                old(self).head as int,
                false,
            ),
    {
        self.tape.unset(self.head)
    }

    /// Move the head one cell right, growing the tape over it.
    pub fn move_right(&mut self)
        requires
            old(self).head < usize::MAX,
        ensures
            *final(self) == (TuringMachine {
                tape: final(self).tape,
                head: (old(self).head + 1) as usize,
                ..*old(self)
            }),
            final(self).tape@ == grown(old(self).tape@, old(self).head as int + 1),
    {
        self.head = self.head + 1;
        self.tape.allocate_till_bit_index(self.head);
    }

    /// Move the head one cell left; at the low edge the tape grows by one
    /// byte and every cell, the head's target included, shifts up by eight.
    pub fn move_left(&mut self)
        ensures
            old(self).head == 0 ==> *final(self) == (TuringMachine {
                tape: final(self).tape,
                head: 7usize,
                ..*old(self)
            }) && final(self).tape@ == Seq::new(8, |_i: int| false) + old(self).tape@,
            old(self).head > 0 ==> *final(self) == (TuringMachine {
                head: (old(self).head - 1) as usize,
                ..*old(self)
            }),
    {
        if self.head == 0 {
            self.head = 7;
            self.tape.allocate_left(1);
        } else {
            self.head = self.head - 1;
        }
    }

    /// Write the instruction's bit, move its way, and hand back the state the
    /// machine should continue in; the control state itself is not touched.
    pub fn process_instruction(&mut self, instruction: Instruction) -> (r: State)
        requires
            instruction.movement == Movement::Right ==> old(self).head < usize::MAX,
        ensures
            r == instruction.next_state,
            *final(self) == (TuringMachine {
                tape: final(self).tape,
                head: final(self).head,
                ..*old(self)
            }),
            ({
                let applied = apply_instruction(
                    Config {
                        tape: grown(old(self).tape@, old(self).head as int),
                        head: old(self).head as nat,
                        state: old(self).state,
                    },
                    instruction,
                );
                final(self).tape@ == applied.tape && final(self).head as nat == applied.head
            }),
    {
        if instruction.write_bit {
            self.set();
        } else {
            self.unset();
        }
        match instruction.movement {
            Movement::Left => self.move_left(),
            Movement::Right => self.move_right(),
            _ => {},
        }
        instruction.next_state
    }

    /// Look up the rule for the current state and bit and apply it.
    ///
    /// `Ok(true)` means a rule was applied; `Ok(false)` that the machine
    /// halted cleanly on the sentinel; the errors are the two faults. Before
    /// anything else the no-progress failsafe is checked; it also trips when
    /// the head cannot move further right.
    pub fn program_step(&mut self) -> (r: Result<bool, MachineError>)
        ensures
            old(self).same_settings(*final(self)),
            ({
                let before = *old(self);
                let after = *final(self);
                let covered = grown(before.tape@, before.head as int);
                let bit = covered[before.head as int];
                let step = spec_step(before.program@, before.config());
                if before.no_progress_steps >= before.max_no_progress_steps {
                    r == Err::<bool, MachineError>(MachineError::NonTermination) && after == before
                } else if step is CleanHalt || step is Dangling {
                    &&& after.tape@ == covered
                    &&& after.head == before.head
                    &&& after.state == before.state
                    &&& after.no_progress_steps == before.no_progress_steps
                    &&& if step is CleanHalt {
                        r == Ok::<bool, MachineError>(false)
                    } else {
                        r == Err::<bool, MachineError>(
                            MachineError::DanglingState { state: before.state, read_bit: bit },
                        )
                    }
                } else if before.program@[(before.state, bit)].movement == Movement::Right
                    && before.head == usize::MAX {
                    &&& r == Err::<bool, MachineError>(MachineError::NonTermination)
                    &&& after.tape@ == covered
                    &&& after.head == before.head
                    &&& after.state == before.state
                    &&& after.no_progress_steps == before.no_progress_steps
                } else {
                    &&& r == Ok::<bool, MachineError>(true)
                    &&& after.config() == step->Next_0
                    &&& after.no_progress_steps == if after.state == before.state {
                        before.no_progress_steps + 1
                    } else {
                        0
                    }
                }
            }),
    {
        if self.no_progress_steps >= self.max_no_progress_steps {
            return Err(MachineError::NonTermination);
        }
        let current_bit = self.read();
        let instruction = match self.program.get(self.state, current_bit) {
            None => {
                if self.state.get() == usize::MAX {
                    return Ok(false);
                } else {
                    return Err(
                        MachineError::DanglingState { state: self.state, read_bit: current_bit },
                    );
                }
            },
            Some(matched) => *matched,
        };
        let moves_right = match instruction.movement {
            Movement::Right => true,
            _ => false,
        };
        if moves_right && self.head == usize::MAX {
            return Err(MachineError::NonTermination);
        }
        let previous_state = self.state;
        let next = self.process_instruction(instruction);
        self.state = next;
        if self.state == previous_state {
            self.no_progress_steps = self.no_progress_steps + 1;
        } else {
            self.no_progress_steps = 0;
        }
        Ok(true)
    }

    /// Step until no rule matches or a fault is detected.
    ///
    /// `Ok` is the clean termination on the halt sentinel; the errors report
    /// an incomplete program or the tripped non-termination failsafe. The
    /// whole run is pinned by `run_outcome`: result, final configuration and
    /// final counter are exactly what replaying the step rules yields.
    pub fn run_program(&mut self) -> (r: Result<(), MachineError>)
        ensures
            old(self).same_settings(*final(self)),
            ({
                let outcome = run_outcome(
                    old(self).program@,
                    old(self).config(),
                    old(self).no_progress_steps as nat,
                    old(self).max_no_progress_steps as nat,
                    usize::MAX as nat,
                );
                &&& r == outcome.result
                &&& final(self).config() == outcome.config
                &&& final(self).no_progress_steps as nat == outcome.no_progress_steps
            }),
            reaches(old(self).program@, old(self).config(), final(self).config()),
            ({
                let before = *old(self);
                let after = *final(self);
                match r {
                    Ok(()) => after.state.is_halt() && spec_step(
                        before.program@,
                        after.config(),
                    ) is CleanHalt,
                    Err(MachineError::DanglingState { state, read_bit }) => {
                        &&& !after.state.is_halt()
                        &&& state == after.state
                        &&& spec_step(before.program@, after.config()) is Dangling
                        &&& read_bit == grown(after.tape@, after.head as int)[after.head as int]
                    },
                    Err(MachineError::NonTermination) => after.no_progress_steps
                        >= after.max_no_progress_steps || after.head == usize::MAX,
                }
            }),
    {
        // The budget only makes termination provable: a run that neither
        // halts nor trips the failsafe would need more steps than the
        // machine can count. `run_outcome` reports a spent budget the same
        // way.
        let mut budget: usize = usize::MAX;
        proof {
            assert(steps_to(old(self).program@, old(self).config(), self.config(), 0));
        }
        while budget > 0
            invariant
                old(self).same_settings(*self),
                exists|n: nat|
                    #[trigger] steps_to(old(self).program@, old(self).config(), self.config(), n),
                run_outcome(
                    old(self).program@,
                    old(self).config(),
                    old(self).no_progress_steps as nat,
                    old(self).max_no_progress_steps as nat,
                    usize::MAX as nat,
                ) == run_outcome(
                    old(self).program@,
                    self.config(),
                    self.no_progress_steps as nat,
                    old(self).max_no_progress_steps as nat,
                    budget as nat,
                ),
            decreases budget,
        {
            budget = budget - 1;
            let ghost reached = self.config();
            let ghost reached_counter = self.no_progress_steps as nat;
            let ghost bound = old(self).max_no_progress_steps as nat;
            let stepped = self.program_step();
            proof {
                let n = choose|n: nat|
                    steps_to(old(self).program@, old(self).config(), reached, n);
                if stepped == Ok::<bool, MachineError>(true) {
                    let next = spec_step(old(self).program@, reached)->Next_0;
                    assert(steps_to(old(self).program@, next, self.config(), 0));
                    assert(steps_to(old(self).program@, reached, self.config(), 1));
                    lemma_steps_to_trans(
                        old(self).program@,
                        old(self).config(),
                        reached,
                        self.config(),
                        n,
                        1,
                    );
                    assert(run_outcome(
                        old(self).program@,
                        reached,
                        reached_counter,
                        bound,
                        budget as nat + 1,
                    ) == run_outcome(
                        old(self).program@,
                        self.config(),
                        self.no_progress_steps as nat,
                        bound,
                        budget as nat,
                    ));
                }
            }
            match stepped {
                Ok(true) => {},
                Ok(false) => {
                    proof {
                        assert(run_outcome(
                            old(self).program@,
                            reached,
                            reached_counter,
                            bound,
                            budget as nat + 1,
                        ).result == Ok::<(), MachineError>(()));
                    }
                    return Ok(());
                },
                Err(error) => {
                    return Err(error);
                },
            }
        }
        self.no_progress_steps = self.max_no_progress_steps;
        Err(MachineError::NonTermination)
    }
}

impl Default for TuringMachine {
    fn default() -> (r: Self)
        ensures
            r.tape@ == Seq::<bool>::empty(),
            r.head == 0,
            r.state == State(0usize),
            r.program@ == Map::<(State, bool), Instruction>::empty(),
            r.no_progress_steps == 0,
            r.max_no_progress_steps == DEFAULT_MAX_NO_PROGRESS_STEPS,
            !r.debug_mode,
            r.display_style == DisplayStyle::Silent,
    {
        TuringMachine {
            tape: TuringTape::default(),
            head: 0,
            state: State::default(),
            program: TuringProgram::default(),
            no_progress_steps: 0,
            max_no_progress_steps: DEFAULT_MAX_NO_PROGRESS_STEPS,
            delay: core::time::Duration::from_millis(0),
            debug_mode: false,
            display_style: DisplayStyle::Silent,
        }
    }
}

} // verus!
