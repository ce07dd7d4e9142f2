//! What a program means: a big-step semantics over a mathematical machine.
//!
//! A program may run forever, so the semantics takes a bound on how deep the
//! iterations of loops may nest in time: every iteration of a loop runs its
//! body, and the iterations after it, with one unit less than the loop was
//! entered with. A run that needs more than it was given has no result;
//! a run that has a result keeps it under every larger bound.

use vstd::prelude::*;
use crate::syntax::Instr;

verus! {

/// How a run ended.
#[derive(Clone, Copy, Debug, PartialEq, Eq, Structural)]
pub enum Outcome {
    /// The program was run to its end.
    Completed,
    /// An instruction would have moved the pointer off the tape.
    PointerOutOfRange,
    /// The input or the output stream reported a failure.
    IoFailure,
}

impl Outcome {
    /// Whether the run ended in a fault.
    pub fn is_error(&self) -> (fault: bool)
        ensures
            fault == (*self != Outcome::Completed),
    {
        match self {
            Outcome::Completed => false,
            _ => true,
        }
    }
}

/// The state that a program runs against.
pub struct Machine {
    /// The cells.
    pub tape: Seq<u8>,
    /// The index of the current cell.
    pub pointer: int,
    /// The bytes of input that have not been read yet.
    pub input: Seq<u8>,
    /// The bytes written so far.
    pub output: Seq<u8>,
}

/// Where a run stopped, and why.
pub struct Halt {
    pub machine: Machine,
    pub outcome: Outcome,
}

/// The cell value that results from adding a delta, modulo 256.
pub open spec fn add_wrapping(cell: u8, delta: i8) -> u8 {
    ((cell + delta) % 256) as u8
}

impl Machine {
    /// The pointer is on the tape.
    pub open spec fn wf(self) -> bool {
        0 <= self.pointer < self.tape.len()
    }

    /// A machine with a zeroed tape of the given size, the pointer on its
    /// first cell, and nothing written.
    pub open spec fn fresh(tape_size: nat, input: Seq<u8>) -> Machine {
        Machine {
            tape: Seq::new(tape_size, |i: int| 0u8),
            pointer: 0,
            input,
            output: Seq::empty(),
        }
    }

    /// The value of the current cell.
    pub open spec fn cell(self) -> u8 {
        self.tape[self.pointer]
    }

    /// The same machine with the current cell overwritten.
    pub open spec fn with_cell(self, value: u8) -> Machine {
        Machine { tape: self.tape.update(self.pointer, value), ..self }
    }

    /// Whether a move by `delta` keeps the pointer on the tape.
    pub open spec fn can_move(self, delta: i32) -> bool {
        0 <= self.pointer + delta < self.tape.len()
    }

    /// The effect of one instruction that is not a loop. A move off the tape
    /// faults and leaves the machine as it was. A read at the end of the
    /// input leaves the cell unchanged.
    pub open spec fn step(self, instr: Instr) -> Halt {
        match instr {
            Instr::MovePointer(delta) => if self.can_move(delta) {
                Halt {
                    machine: Machine { pointer: self.pointer + delta, ..self },
                    outcome: Outcome::Completed,
                }
            } else {
                Halt { machine: self, outcome: Outcome::PointerOutOfRange }
            },
            Instr::AddToCell(delta) => Halt {
                machine: self.with_cell(add_wrapping(self.cell(), delta)),
                outcome: Outcome::Completed,
            },
            Instr::SetCell(value) => Halt {
                machine: self.with_cell(value),
                outcome: Outcome::Completed,
            },
            Instr::Read => if self.input.len() > 0 {
                Halt {
                    machine: Machine {
                        input: self.input.skip(1),
                        ..self.with_cell(self.input[0])
                    },
                    outcome: Outcome::Completed,
                }
            } else {
                Halt { machine: self, outcome: Outcome::Completed }
            },
            Instr::Write => Halt {
                machine: Machine { output: self.output.push(self.cell()), ..self },
                outcome: Outcome::Completed,
            },
            Instr::Loop(_) => Halt { machine: self, outcome: Outcome::Completed },
        }
    }
}

/// Runs a program from the given machine. `None` when `fuel` is not enough.
pub open spec fn run(program: Seq<Instr>, machine: Machine, fuel: nat) -> Option<Halt>
    decreases fuel, program.len() + 1,
{
    if program.len() == 0 {
        Some(Halt { machine, outcome: Outcome::Completed })
    } else {
        let first = match program[0] {
            Instr::Loop(body) => run_loop(body, machine, fuel),
            other => Some(machine.step(other)),
        };
        match first {
            Some(halt) => if halt.outcome == Outcome::Completed {
                run(program.skip(1), halt.machine, fuel)
            } else {
                Some(halt)
            },
            None => None,
        }
    }
}

/// Runs a loop with the given body: while the current cell is not zero, the
/// body in full.
pub open spec fn run_loop(body: Seq<Instr>, machine: Machine, fuel: nat) -> Option<Halt>
    decreases fuel, 0nat,
{
    if machine.cell() == 0 {
        Some(Halt { machine, outcome: Outcome::Completed })
    } else if fuel == 0 {
        None
    } else {
        match run(body, machine, (fuel - 1) as nat) {
            Some(halt) => if halt.outcome == Outcome::Completed {
                run_loop(body, halt.machine, (fuel - 1) as nat)
            } else {
                Some(halt)
            },
            None => None,
        }
    }
}

/// Goes on with `program` where an earlier run stopped, if it completed.
pub open spec fn run_after(earlier: Option<Halt>, program: Seq<Instr>, fuel: nat) -> Option<Halt> {
    match earlier {
        Some(halt) => if halt.outcome == Outcome::Completed {
            run(program, halt.machine, fuel)
        } else {
            Some(halt)
        },
        None => None,
    }
}

/// Runs one instruction.
pub open spec fn run_instr(instr: Instr, machine: Machine, fuel: nat) -> Option<Halt> {
    match instr {
        Instr::Loop(body) => run_loop(body, machine, fuel),
        other => Some(machine.step(other)),
    }
}

/// Goes on with one instruction where an earlier run stopped, if it completed.
pub open spec fn run_instr_after(earlier: Option<Halt>, instr: Instr, fuel: nat) -> Option<Halt> {
    match earlier {
        Some(halt) => if halt.outcome == Outcome::Completed {
            run_instr(instr, halt.machine, fuel)
        } else {
            Some(halt)
        },
        None => None,
    }
}

/// The program, run from the machine, ends in `halt`.
pub open spec fn ends_in(program: Seq<Instr>, machine: Machine, halt: Halt) -> bool {
    exists|fuel: nat| run(program, machine, fuel) == Some(halt)
}

/// A run that has a result keeps it when given more fuel.
pub proof fn lemma_run_monotonic(program: Seq<Instr>, machine: Machine, fuel: nat, more: nat)
    requires
        run(program, machine, fuel) is Some,
        fuel <= more,
    ensures
        run(program, machine, more) == run(program, machine, fuel),
    decreases fuel, program.len() + 1,
{
    if program.len() > 0 {
        match program[0] {
            Instr::Loop(body) => {
                lemma_run_loop_monotonic(body, machine, fuel, more);
                let halt = run_loop(body, machine, fuel)->0;
                if halt.outcome == Outcome::Completed {
                    lemma_run_monotonic(program.skip(1), halt.machine, fuel, more);
                }
            },
            other => {
                let halt = machine.step(other);
                if halt.outcome == Outcome::Completed {
                    lemma_run_monotonic(program.skip(1), halt.machine, fuel, more);
                }
            },
        }
    }
}

/// A loop that has a result keeps it when given more fuel.
pub proof fn lemma_run_loop_monotonic(body: Seq<Instr>, machine: Machine, fuel: nat, more: nat)
    requires
        run_loop(body, machine, fuel) is Some,
        fuel <= more,
    ensures
        run_loop(body, machine, more) == run_loop(body, machine, fuel),
    decreases fuel, 0nat,
{
    if machine.cell() != 0 {
        lemma_run_monotonic(body, machine, (fuel - 1) as nat, (more - 1) as nat);
        let halt = run(body, machine, (fuel - 1) as nat)->0;
        if halt.outcome == Outcome::Completed {
            lemma_run_loop_monotonic(body, halt.machine, (fuel - 1) as nat, (more - 1) as nat);
        }
    }
}

/// Running two programs one after the other is running their concatenation.
pub proof fn lemma_run_concat(first: Seq<Instr>, second: Seq<Instr>, machine: Machine, fuel: nat)
    ensures
        run(first + second, machine, fuel) == run_after(run(first, machine, fuel), second, fuel),
    decreases first.len(),
{
    if first.len() == 0 {
        assert(first + second =~= second);
    } else {
        let whole = first + second;
        assert(whole[0] == first[0]);
        assert(whole.skip(1) =~= first.skip(1) + second);
        let head = match first[0] {
            Instr::Loop(body) => run_loop(body, machine, fuel),
            other => Some(machine.step(other)),
        };
        match head {
            Some(halt) => {
                if halt.outcome == Outcome::Completed {
                    lemma_run_concat(first.skip(1), second, halt.machine, fuel);
                }
            },
            None => {},
        }
    }
}

/// Running a single instruction as a program.
pub proof fn lemma_run_single(instr: Instr, machine: Machine, fuel: nat)
    ensures
        run(seq![instr], machine, fuel) == run_instr(instr, machine, fuel),
{
    let program = seq![instr];
    assert(program[0] == instr);
    assert(program.skip(1).len() == 0);
    match run_instr(instr, machine, fuel) {
        Some(halt) => {
            assert(run(program.skip(1), halt.machine, fuel) == Some(
                Halt { machine: halt.machine, outcome: Outcome::Completed },
            ));
        },
        None => {},
    }
}

/// Running a program with one more instruction at its end.
pub proof fn lemma_run_push(program: Seq<Instr>, instr: Instr, machine: Machine, fuel: nat)
    ensures
        run(program.push(instr), machine, fuel) == run_instr_after(
            run(program, machine, fuel),
            instr,
            fuel,
        ),
{
    assert(program.push(instr) =~= program + seq![instr]);
    lemma_run_concat(program, seq![instr], machine, fuel);
    match run(program, machine, fuel) {
        Some(halt) => {
            lemma_run_single(instr, halt.machine, fuel);
        },
        None => {},
    }
}

/// An instruction that has a result keeps it when given more fuel.
pub proof fn lemma_run_instr_monotonic(instr: Instr, machine: Machine, fuel: nat, more: nat)
    requires
        run_instr(instr, machine, fuel) is Some,
        fuel <= more,
    ensures
        run_instr(instr, machine, more) == run_instr(instr, machine, fuel),
{
    match instr {
        Instr::Loop(body) => lemma_run_loop_monotonic(body, machine, fuel, more),
        _ => {},
    }
}

/// A program has at most one result.
pub proof fn lemma_ends_in_unique(program: Seq<Instr>, machine: Machine, one: Halt, other: Halt)
    requires
        ends_in(program, machine, one),
        ends_in(program, machine, other),
    ensures
        one == other,
{
    let f = choose|fuel: nat| run(program, machine, fuel) == Some(one);
    let g = choose|fuel: nat| run(program, machine, fuel) == Some(other);
    if f <= g {
        lemma_run_monotonic(program, machine, f, g);
    } else {
        lemma_run_monotonic(program, machine, g, f);
    }
}

/// An instruction leaves the pointer on the tape and the tape at its length.
pub proof fn lemma_run_instr_wf(instr: Instr, machine: Machine, fuel: nat)
    requires
        machine.wf(),
    ensures
        run_instr(instr, machine, fuel) matches Some(halt) ==> halt.machine.wf()
            && halt.machine.tape.len() == machine.tape.len(),
{
    match instr {
        Instr::Loop(body) => lemma_run_loop_wf(body, machine, fuel),
        _ => {},
    }
}

/// A run leaves the pointer on the tape and the tape at its length.
pub proof fn lemma_run_wf(program: Seq<Instr>, machine: Machine, fuel: nat)
    requires
        machine.wf(),
    ensures
        run(program, machine, fuel) matches Some(halt) ==> halt.machine.wf()
            && halt.machine.tape.len() == machine.tape.len(),
    decreases fuel, program.len() + 1,
{
    if program.len() > 0 {
        match program[0] {
            Instr::Loop(body) => {
                lemma_run_loop_wf(body, machine, fuel);
                match run_loop(body, machine, fuel) {
                    Some(halt) => {
                        if halt.outcome == Outcome::Completed {
                            lemma_run_wf(program.skip(1), halt.machine, fuel);
                        }
                    },
                    None => {},
                }
            },
            other => {
                let halt = machine.step(other);
                if halt.outcome == Outcome::Completed {
                    lemma_run_wf(program.skip(1), halt.machine, fuel);
                }
            },
        }
    }
}

/// A loop leaves the pointer on the tape and the tape at its length.
pub proof fn lemma_run_loop_wf(body: Seq<Instr>, machine: Machine, fuel: nat)
    requires
        machine.wf(),
    ensures
        run_loop(body, machine, fuel) matches Some(halt) ==> halt.machine.wf()
            && halt.machine.tape.len() == machine.tape.len(),
    decreases fuel, 0nat,
{
    if machine.cell() != 0 && fuel > 0 {
        lemma_run_wf(body, machine, (fuel - 1) as nat);
        match run(body, machine, (fuel - 1) as nat) {
            Some(halt) => {
                if halt.outcome == Outcome::Completed {
                    lemma_run_loop_wf(body, halt.machine, (fuel - 1) as nat);
                }
            },
            None => {},
        }
    }
}

} // verus!
