//! The interpreter: a machine that walks a program tree one instruction at
//! a time.
//!
//! The interpreter never waits and never touches a device. It runs for as
//! many steps as it is given, and stops early when the program has ended or
//! when a read finds the input buffer empty while more input may come. Its
//! driver feeds input, drains output and calls it again.

use vstd::prelude::*;
use crate::execution::state::{Fetch, State};
use crate::semantics::{Machine, Outcome};
use crate::syntax::{lemma_models_index, models, Instr, Instruction};

verus! {

/// A place in a sequence of instructions.
pub struct Position {
    pub nodes: Seq<Instr>,
    pub index: nat,
}

/// What a driver has to do next.
#[derive(Clone, Copy, Debug, PartialEq, Eq, Structural)]
pub enum Progress {
    /// The run has ended.
    Finished(Outcome),
    /// The next instruction is a read, no byte is buffered, and the input
    /// has not been closed.
    NeedsInput,
    /// The program has more to do.
    Running,
}

/// The interpreter as a mathematical value. The last frame is the sequence
/// being walked; each frame below it stands at the loop whose body the frame
/// above it walks.
pub struct Config {
    pub frames: Seq<Position>,
    pub machine: Machine,
    pub input_closed: bool,
    pub outcome: Option<Outcome>,
}

impl Config {
    /// The machine is well-formed and every frame stands inside its sequence
    /// or at its end.
    pub open spec fn wf(self) -> bool {
        &&& self.machine.wf()
        &&& forall|i: int|
            0 <= i < self.frames.len() ==> (#[trigger] self.frames[i]).index
                <= self.frames[i].nodes.len()
    }

    /// The interpreter before the first step of a program.
    pub open spec fn start(program: Seq<Instr>, machine: Machine, input_closed: bool) -> Config {
        Config {
            frames: seq![Position { nodes: program, index: 0 }],
            machine,
            input_closed,
            outcome: None,
        }
    }

    /// The instruction that the next step executes, if there is one.
    pub open spec fn next(self) -> Option<Instr> {
        if self.outcome is None && self.frames.len() > 0 && self.frames.last().index
            < self.frames.last().nodes.len() {
            Some(self.frames.last().nodes[self.frames.last().index as int])
        } else {
            None
        }
    }

    /// Whether the run waits for input: the next instruction is a read, no
    /// byte is buffered, and the input has not been closed.
    pub open spec fn starved(self) -> bool {
        self.next() == Some(Instr::Read) && self.machine.input.len() == 0 && !self.input_closed
    }

    /// What a driver has to do next.
    pub open spec fn progress(self) -> Progress {
        match self.outcome {
            Some(outcome) => Progress::Finished(outcome),
            None => if self.starved() {
                Progress::NeedsInput
            } else {
                Progress::Running
            },
        }
    }

    /// The frames with the last one moved past its instruction.
    pub open spec fn past(self) -> Seq<Position> {
        self.frames.update(
            self.frames.len() - 1,
            Position { index: self.frames.last().index + 1, ..self.frames.last() },
        )
    }

    /// One step. A run that has ended, or waits for input, stays as it is.
    /// At the end of a loop body the step goes back to the loop, which the
    /// step after it tests again. At the end of the program the step ends
    /// the run.
    pub open spec fn advance(self) -> Config {
        if self.outcome is Some {
            self
        } else if self.frames.len() == 0 {
            Config { outcome: Some(Outcome::Completed), ..self }
        } else if self.frames.last().index >= self.frames.last().nodes.len() {
            if self.frames.len() == 1 {
                Config { outcome: Some(Outcome::Completed), ..self }
            } else {
                Config { frames: self.frames.drop_last(), ..self }
            }
        } else {
            match self.frames.last().nodes[self.frames.last().index as int] {
                Instr::Loop(body) => if self.machine.cell() != 0 {
                    Config { frames: self.frames.push(Position { nodes: body, index: 0 }), ..self }
                } else {
                    Config { frames: self.past(), ..self }
                },
                Instr::Read => if self.starved() {
                    self
                } else {
                    Config {
                        frames: self.past(),
                        machine: self.machine.step(Instr::Read).machine,
                        ..self
                    }
                },
                Instr::MovePointer(delta) => if self.machine.can_move(delta) {
                    Config {
                        frames: self.past(),
                        machine: self.machine.step(Instr::MovePointer(delta)).machine,
                        ..self
                    }
                } else {
                    Config { outcome: Some(Outcome::PointerOutOfRange), ..self }
                },
                other => Config {
                    frames: self.past(),
                    machine: self.machine.step(other).machine,
                    ..self
                },
            }
        }
    }

    /// As many steps as the budget allows, stopping early where the run has
    /// ended or waits for input.
    pub open spec fn advance_by(self, budget: nat) -> Config
        decreases budget,
    {
        if budget == 0 || self.progress() != Progress::Running {
            self
        } else {
            self.advance().advance_by((budget - 1) as nat)
        }
    }
}

/// A place in a borrowed program.
struct Frame<'a> {
    nodes: &'a Vec<Instruction>,
    index: usize,
}

/// The model of a stack of frames.
spec fn positions(frames: Seq<Frame>) -> Seq<Position> {
    Seq::new(
        frames.len(),
        |i: int| Position { nodes: models(frames[i].nodes@), index: frames[i].index as nat },
    )
}

/// An interpreter at some point of a run of a borrowed program.
pub struct Interpreter<'a> {
    state: State,
    frames: Vec<Frame<'a>>,
    outcome: Option<Outcome>,
}

impl<'a> View for Interpreter<'a> {
    type V = Config;

    closed spec fn view(&self) -> Config {
        Config {
            frames: positions(self.frames@),
            machine: self.state@,
            input_closed: self.state.input_closed(),
            outcome: self.outcome,
        }
    }
}

impl<'a> Interpreter<'a> {
    /// The state is well-formed and every frame stands inside its sequence
    /// or at its end.
    pub closed spec fn wf(&self) -> bool {
        &&& self.state.wf()
        &&& forall|i: int|
            0 <= i < self.frames@.len() ==> (#[trigger] self.frames@[i]).index
                <= self.frames@[i].nodes@.len()
    }

    /// How many of the bytes written have been drained.
    pub closed spec fn drained(&self) -> nat {
        self.state.drained()
    }

    /// The bytes written and not drained yet.
    pub open spec fn pending_output(&self) -> Seq<u8> {
        self@.machine.output.skip(self.drained() as int)
    }

    /// A well-formed interpreter stands for a well-formed configuration, and
    /// has drained no more than was written.
    pub proof fn lemma_wf(&self)
        requires
            self.wf(),
        ensures
            self@.wf(),
            self.drained() <= self@.machine.output.len(),
    {
        self.state.lemma_wf();
        assert forall|i: int| 0 <= i < self@.frames.len() implies (#[trigger] self@.frames[i]).index
            <= self@.frames[i].nodes.len() by {
            crate::syntax::lemma_models_len(self.frames@[i].nodes@);
            assert(self.frames@[i].index <= self.frames@[i].nodes@.len());
        }
    }

    /// An interpreter that is about to run `nodes` against `state`.
    pub fn new(state: State, nodes: &'a Vec<Instruction>) -> (interpreter: Interpreter<'a>)
        requires
            state.wf(),
        ensures
            interpreter.wf(),
            interpreter@ == Config::start(models(nodes@), state@, state.input_closed()),
            interpreter.drained() == state.drained(),
    {
        let mut frames: Vec<Frame<'a>> = Vec::new();
        frames.push(Frame { nodes, index: 0 });
        let interpreter = Interpreter { state, frames, outcome: None };
        assert(interpreter@.frames =~= seq![Position { nodes: models(nodes@), index: 0 }]);
        interpreter
    }

    /// The state that the program runs against.
    pub fn state(&self) -> (state: &State)
        requires
            self.wf(),
        ensures
            state.wf(),
            state@ == self@.machine,
            state.input_closed() == self@.input_closed,
            state.drained() == self.drained(),
    {
        &self.state
    }

    /// Gives up the interpreter for its state.
    pub fn into_state(self) -> (state: State)
        requires
            self.wf(),
        ensures
            state.wf(),
            state@ == self@.machine,
            state.input_closed() == self@.input_closed,
            state.drained() == self.drained(),
    {
        self.state
    }

    /// What a driver has to do next.
    pub fn progress(&self) -> (progress: Progress)
        requires
            self.wf(),
        ensures
            progress == self@.progress(),
    {
        match self.outcome {
            Some(outcome) => Progress::Finished(outcome),
            None => {
                let depth = self.frames.len();
                if depth == 0 {
                    return Progress::Running;
                }
                let nodes: &'a Vec<Instruction> = self.frames[depth - 1].nodes;
                let index = self.frames[depth - 1].index;
                proof {
                    crate::syntax::lemma_models_len(nodes@);
                }
                if index >= nodes.len() {
                    return Progress::Running;
                }
                proof {
                    lemma_models_index(nodes@, index as int);
                }
                match &nodes[index] {
                    Instruction::Read => {
                        if !self.state.has_input() && !self.state.is_input_closed() {
                            Progress::NeedsInput
                        } else {
                            Progress::Running
                        }
                    },
                    _ => Progress::Running,
                }
            },
        }
    }

    /// Moves the last frame past its instruction.
    fn pass(&mut self)
        requires
            old(self).wf(),
            old(self).frames@.len() > 0,
            old(self).frames@.last().index < old(self).frames@.last().nodes@.len(),
        ensures
            final(self).wf(),
            final(self).state == old(self).state,
            final(self).outcome == old(self).outcome,
            positions(final(self).frames@) == old(self)@.past(),
    {
        let depth = self.frames.len();
        let nodes: &'a Vec<Instruction> = self.frames[depth - 1].nodes;
        let index = self.frames[depth - 1].index;
        assert(index < nodes.len());
        self.frames.set(depth - 1, Frame { nodes, index: index + 1 });
        assert(positions(self.frames@) =~= old(self)@.past());
    }

    /// Executes one instruction, or takes one step of bookkeeping, and says
    /// what a driver has to do next.
    pub fn step(&mut self) -> (progress: Progress)
        requires
            old(self).wf(),
        ensures
            final(self).wf(),
            final(self)@ == old(self)@.advance(),
            progress == final(self)@.progress(),
            final(self).drained() == old(self).drained(),
    {
        proof {
            self.state.lemma_wf();
        }
        if self.outcome.is_some() {
            return self.progress();
        }
        let depth = self.frames.len();
        if depth == 0 {
            self.outcome = Some(Outcome::Completed);
            return Progress::Finished(Outcome::Completed);
        }
        let nodes: &'a Vec<Instruction> = self.frames[depth - 1].nodes;
        let index = self.frames[depth - 1].index;
        proof {
            crate::syntax::lemma_models_len(nodes@);
        }
        if index >= nodes.len() {
            if depth == 1 {
                self.outcome = Some(Outcome::Completed);
            } else {
                self.frames.pop();
                assert(positions(self.frames@) =~= old(self)@.frames.drop_last());
            }
        } else {
            proof {
                lemma_models_index(nodes@, index as int);
            }
            match &nodes[index] {
                Instruction::MovePointer(delta) => {
                    if self.state.move_pointer(*delta) {
                        self.pass();
                    } else {
                        self.outcome = Some(Outcome::PointerOutOfRange);
                    }
                },
                Instruction::AddToCell(delta) => {
                    self.state.add_to_cell(*delta);
                    self.pass();
                },
                Instruction::SetCell(value) => {
                    self.state.set_cell(*value);
                    self.pass();
                },
                Instruction::Read => {
                    match self.state.read() {
                        Fetch::Starved => {},
                        _ => {
                            self.pass();
                        },
                    }
                },
                Instruction::Write => {
                    self.state.write();
                    self.pass();
                },
                Instruction::Loop { body } => {
                    if self.state.cell() != 0 {
                        self.frames.push(Frame { nodes: body, index: 0 });
                        assert(positions(self.frames@) =~= old(self)@.frames.push(
                            Position { nodes: models(body@), index: 0 },
                        ));
                    } else {
                        self.pass();
                    }
                },
            }
        }
        self.progress()
    }

    /// Runs for at most `budget` steps, stopping early where the run has
    /// ended or waits for input, and says what a driver has to do next.
    pub fn interpret(&mut self, budget: u64) -> (progress: Progress)
        requires
            old(self).wf(),
        ensures
            final(self).wf(),
            final(self)@ == old(self)@.advance_by(budget as nat),
            progress == final(self)@.progress(),
            final(self).drained() == old(self).drained(),
    {
        let mut left = budget;
        let mut progress = self.progress();
        while left > 0 && progress == Progress::Running
            invariant
                self.wf(),
                self.drained() == old(self).drained(),
                progress == self@.progress(),
                self@.advance_by(left as nat) == old(self)@.advance_by(budget as nat),
            decreases left,
        {
            progress = self.step();
            left = left - 1;
        }
        progress
    }

    /// Ends the run because a stream failed. A run that has ended already
    /// keeps its outcome.
    pub fn fail(&mut self)
        requires
            old(self).wf(),
        ensures
            final(self).wf(),
            final(self)@ == (Config {
                outcome: if old(self)@.outcome is None {
                    Some(Outcome::IoFailure)
                } else {
                    old(self)@.outcome
                },
                ..old(self)@
            }),
            final(self).drained() == old(self).drained(),
    {
        if self.outcome.is_none() {
            self.outcome = Some(Outcome::IoFailure);
        }
    }

    /// Appends bytes to the input, unless the input was closed.
    pub fn feed(&mut self, bytes: &Vec<u8>) -> (taken: bool)
        requires
            old(self).wf(),
        ensures
            final(self).wf(),
            taken == !old(self)@.input_closed,
            final(self)@ == (if taken {
                Config {
                    machine: Machine {
                        input: old(self)@.machine.input + bytes@,
                        ..old(self)@.machine
                    },
                    ..old(self)@
                }
            } else {
                old(self)@
            }),
            final(self).drained() == old(self).drained(),
    {
        self.state.feed(bytes)
    }

    /// Declares the input at its end.
    pub fn close_input(&mut self)
        requires
            old(self).wf(),
        ensures
            final(self).wf(),
            final(self)@ == (Config { input_closed: true, ..old(self)@ }),
            final(self).drained() == old(self).drained(),
    {
        self.state.close_input();
    }

    /// Hands out the bytes written since the last drain.
    pub fn drain_output(&mut self) -> (bytes: Vec<u8>)
        requires
            old(self).wf(),
        ensures
            final(self).wf(),
            final(self)@ == old(self)@,
            bytes@ == old(self).pending_output(),
            final(self).drained() == old(self)@.machine.output.len(),
    {
        self.state.drain_output()
    }
}

} // verus!
