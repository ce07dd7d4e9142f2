//! Why the peephole passes keep the meaning of a program.

use vstd::prelude::*;
use crate::optimize::{equivalent, leaves_tape, optimized, refines};
use crate::optimize::peephole::{append_add, append_move, append_to_set, clears_cell, sum_wrapping, Peephole};
use crate::semantics::{
    add_wrapping, ends_in, lemma_ends_in_unique, lemma_run_instr_monotonic, lemma_run_loop_monotonic, lemma_run_monotonic,
    lemma_run_push, lemma_run_single, lemma_run_wf, run, run_instr, run_loop, Halt, Machine,
    Outcome,
};
use crate::syntax::Instr;

verus! {

/// Whether a run ended because the pointer would have left the tape.
pub open spec fn left_tape(result: Option<Halt>) -> bool {
    result matches Some(halt) && halt.outcome == Outcome::PointerOutOfRange
}

impl Peephole {
    /// Whether the pass keeps every run as it is, faults included. Merging
    /// pointer moves does not: it skips the positions in between, so a run
    /// that left the tape there may go on.
    pub open spec fn keeps_faults(self) -> bool {
        self != Peephole::CombineIncrements
    }

    /// Whether a result of the rewritten program is accounted for by what the
    /// program it was made from does: that program ends in the same way, or,
    /// where the pass merges pointer moves, leaves the tape on the way.
    pub open spec fn traces_back(self, given: Option<Halt>, rewritten: Halt) -> bool {
        ||| given == Some(rewritten)
        ||| !self.keeps_faults() && left_tape(given)
    }

    /// Whether a result of a program is one that the pass promises to keep.
    pub open spec fn keeps(self, result: Option<Halt>) -> bool {
        result matches Some(halt) && (halt.outcome == Outcome::Completed || self.keeps_faults())
    }
}

/// Setting a cell to the value it has changes nothing.
proof fn lemma_with_same_cell(machine: Machine)
    requires
        machine.wf(),
    ensures
        machine.with_cell(machine.cell()) == machine,
{
    assert(machine.tape.update(machine.pointer, machine.cell()) =~= machine.tape);
}

/// Of two writes to the current cell, the second stays.
proof fn lemma_with_cell_twice(machine: Machine, first: u8, second: u8)
    requires
        machine.wf(),
    ensures
        machine.with_cell(first).with_cell(second) == machine.with_cell(second),
        machine.with_cell(first).cell() == first,
        machine.with_cell(first).wf(),
{
    assert(machine.tape.update(machine.pointer, first).update(machine.pointer, second)
        =~= machine.tape.update(machine.pointer, second));
}

/// Two increments in a row are one increment by their wrapped sum.
proof fn lemma_add_wrapping_twice(cell: u8, first: i8, second: i8)
    ensures
        add_wrapping(add_wrapping(cell, first), second) == add_wrapping(
            cell,
            sum_wrapping(first, second),
        ),
{
}

/// A loop that only steps the current cell ends, if it ends, with that cell
/// at zero and nothing else changed.
pub proof fn lemma_clearing_loop_result(body: Seq<Instr>, machine: Machine, fuel: nat)
    requires
        body.len() == 1,
        body[0] is AddToCell,
        machine.wf(),
        run_loop(body, machine, fuel) is Some,
    ensures
        run_loop(body, machine, fuel) == Some(
            Halt { machine: machine.with_cell(0), outcome: Outcome::Completed },
        ),
    decreases fuel,
{
    if machine.cell() == 0 {
        lemma_with_same_cell(machine);
    } else {
        assert(body =~= seq![body[0]]);
        lemma_run_single(body[0], machine, (fuel - 1) as nat);
        let next = machine.step(body[0]).machine;
        lemma_with_cell_twice(machine, next.cell(), 0);
        lemma_clearing_loop_result(body, next, (fuel - 1) as nat);
    }
}

/// The inverse of an odd number modulo 256.
pub open spec fn inverse_mod_256(step: u32) -> u32 {
    let first: u32 = ((step * ((258 - ((step * step) % 256) as u32) as u32)) % 256) as u32;
    ((first * ((258 - ((step * first) % 256) as u32) as u32)) % 256) as u32
}

/// How many times an odd step has to be added to a cell to bring it to zero.
pub open spec fn steps_to_zero(cell: u32, step: u32) -> u32 {
    (((256 - cell) as u32 * inverse_mod_256(step)) % 256) as u32
}

/// Adding an odd step that many times brings the cell to zero.
proof fn lemma_steps_to_zero(cell: u32, step: u32)
    by (bit_vector)
    requires
        cell < 256,
        step < 256,
        step % 2 == 1,
    ensures
        steps_to_zero(cell, step) <= 255,
        (cell + steps_to_zero(cell, step) * step) % 256 == 0,
{
}

/// A loop that only steps the current cell ends within `count` iterations
/// when `count` steps bring the cell to zero.
proof fn lemma_clearing_loop_counts(body: Seq<Instr>, machine: Machine, delta: i8, count: nat)
    requires
        body =~= seq![Instr::AddToCell(delta)],
        machine.wf(),
        (machine.cell() + count * delta) % 256 == 0,
    ensures
        run_loop(body, machine, count) == Some(
            Halt { machine: machine.with_cell(0), outcome: Outcome::Completed },
        ),
    decreases count,
{
    if machine.cell() == 0 {
        lemma_with_same_cell(machine);
    } else {
        assert(count > 0) by {
            if count == 0 {
                assert(count * delta == 0) by (nonlinear_arith)
                    requires
                        count == 0,
                ;
            }
        }
        let less = (count - 1) as nat;
        lemma_run_single(body[0], machine, less);
        let next = machine.step(body[0]).machine;
        let rest = less * delta;
        assert(count * delta == rest + delta) by (nonlinear_arith)
            requires
                count == less + 1,
                rest == less * delta,
        ;
        assert((next.cell() + rest) % 256 == 0);
        lemma_with_cell_twice(machine, next.cell(), 0);
        lemma_clearing_loop_counts(body, next, delta, less);
    }
}

/// A loop whose body is one increment by an odd delta always ends, within
/// 255 iterations, with the current cell at zero and nothing else changed:
/// no other cell, not the pointer, no input read and no output written.
pub proof fn lemma_clearing_loop_ends(body: Seq<Instr>, machine: Machine)
    requires
        clears_cell(body),
        machine.wf(),
    ensures
        run_loop(body, machine, 255) == Some(
            Halt { machine: machine.with_cell(0), outcome: Outcome::Completed },
        ),
{
    let delta = body[0]->AddToCell_0;
    let step: u8 = if delta < 0 {
        (delta + 256) as u8
    } else {
        delta as u8
    };
    lemma_steps_to_zero(machine.cell() as u32, step as u32);
    let count = steps_to_zero(machine.cell() as u32, step as u32) as nat;
    assert(count * step == count * delta + 256 * (if delta < 0 {
        count as int
    } else {
        0
    })) by (nonlinear_arith)
        requires
            step == (if delta < 0 {
                delta + 256
            } else {
                delta as int
            }),
    ;
    lemma_clearing_loop_counts(body, machine, delta, count);
    lemma_run_loop_monotonic(body, machine, count, 255);
}

/// Joining a cell increment to a prefix gives the run of the prefix followed
/// by the increment.
proof fn lemma_append_add(done: Seq<Instr>, delta: i8, machine: Machine, fuel: nat)
    requires
        machine.wf(),
    ensures
        run(append_add(done, delta), machine, fuel) == run(
            done.push(Instr::AddToCell(delta)),
            machine,
            fuel,
        ),
    decreases done.len(),
{
    lemma_run_push(done, Instr::AddToCell(delta), machine, fuel);
    lemma_run_wf(done, machine, fuel);
    if delta == 0 {
        match run(done, machine, fuel) {
            Some(halt) => {
                if halt.outcome == Outcome::Completed {
                    lemma_with_same_cell(halt.machine);
                }
            },
            None => {},
        }
    } else if done.len() > 0 {
        match done.last() {
            Instr::AddToCell(before) => {
                let init = done.drop_last();
                let sum = sum_wrapping(before, delta);
                assert(done =~= init.push(Instr::AddToCell(before)));
                lemma_append_add(init, sum, machine, fuel);
                lemma_run_push(init, Instr::AddToCell(sum), machine, fuel);
                lemma_run_push(init, Instr::AddToCell(before), machine, fuel);
                lemma_run_wf(init, machine, fuel);
                match run(init, machine, fuel) {
                    Some(halt) => {
                        if halt.outcome == Outcome::Completed {
                            let cell = halt.machine.cell();
                            lemma_with_cell_twice(
                                halt.machine,
                                add_wrapping(cell, before),
                                add_wrapping(add_wrapping(cell, before), delta),
                            );
                            lemma_add_wrapping_twice(cell, before, delta);
                        }
                    },
                    None => {},
                }
            },
            _ => {},
        }
    }
}

/// Joining an instruction to a prefix that may end in a set gives the run of
/// the prefix followed by the instruction.
proof fn lemma_append_to_set(done: Seq<Instr>, next: Instr, machine: Machine, fuel: nat)
    requires
        machine.wf(),
    ensures
        run(append_to_set(done, next), machine, fuel) == run(done.push(next), machine, fuel),
{
    if done.len() > 0 {
        let init = done.drop_last();
        assert(done =~= init.push(done.last()));
        lemma_run_push(done, next, machine, fuel);
        lemma_run_push(init, done.last(), machine, fuel);
        lemma_run_wf(init, machine, fuel);
        match (done.last(), next) {
            (Instr::SetCell(value), Instr::AddToCell(delta)) => {
                lemma_run_push(init, Instr::SetCell(add_wrapping(value, delta)), machine, fuel);
                match run(init, machine, fuel) {
                    Some(halt) => {
                        if halt.outcome == Outcome::Completed {
                            lemma_with_cell_twice(halt.machine, value, add_wrapping(value, delta));
                        }
                    },
                    None => {},
                }
            },
            (Instr::SetCell(earlier), Instr::SetCell(value)) => {
                lemma_run_push(init, Instr::SetCell(value), machine, fuel);
                match run(init, machine, fuel) {
                    Some(halt) => {
                        if halt.outcome == Outcome::Completed {
                            lemma_with_cell_twice(halt.machine, earlier, value);
                        }
                    },
                    None => {},
                }
            },
            _ => {},
        }
    }
}

/// Joining a pointer move to a prefix keeps a run that completes.
proof fn lemma_append_move_forward(done: Seq<Instr>, delta: i32, machine: Machine, fuel: nat)
    requires
        machine.wf(),
        run(done.push(Instr::MovePointer(delta)), machine, fuel) matches Some(halt)
            && halt.outcome == Outcome::Completed,
    ensures
        run(append_move(done, delta), machine, fuel) == run(
            done.push(Instr::MovePointer(delta)),
            machine,
            fuel,
        ),
    decreases done.len(),
{
    lemma_run_push(done, Instr::MovePointer(delta), machine, fuel);
    lemma_run_wf(done, machine, fuel);
    if delta == 0 {
    } else if done.len() > 0 {
        match done.last() {
            Instr::MovePointer(before) => {
                let init = done.drop_last();
                let sum = before + delta;
                assert(done =~= init.push(Instr::MovePointer(before)));
                lemma_run_push(init, Instr::MovePointer(before), machine, fuel);
                lemma_run_wf(init, machine, fuel);
                if sum > i32::MAX {
                    let first = init.push(Instr::MovePointer(i32::MAX));
                    lemma_run_push(init, Instr::MovePointer(i32::MAX), machine, fuel);
                    lemma_run_push(first, Instr::MovePointer((sum - i32::MAX) as i32), machine, fuel);
                } else if sum < i32::MIN {
                    let first = init.push(Instr::MovePointer(i32::MIN));
                    lemma_run_push(init, Instr::MovePointer(i32::MIN), machine, fuel);
                    lemma_run_push(first, Instr::MovePointer((sum - i32::MIN) as i32), machine, fuel);
                } else {
                    lemma_run_push(init, Instr::MovePointer(sum as i32), machine, fuel);
                    lemma_append_move_forward(init, sum as i32, machine, fuel);
                }
            },
            _ => {},
        }
    }
}

/// A run of a prefix with a pointer move joined to it is accounted for by
/// the run of the prefix followed by the move.
proof fn lemma_append_move_backward(done: Seq<Instr>, delta: i32, machine: Machine, fuel: nat)
    requires
        machine.wf(),
        run(append_move(done, delta), machine, fuel) is Some,
    ensures
        Peephole::CombineIncrements.traces_back(
            run(done.push(Instr::MovePointer(delta)), machine, fuel),
            run(append_move(done, delta), machine, fuel)->0,
        ),
    decreases done.len(),
{
    lemma_run_push(done, Instr::MovePointer(delta), machine, fuel);
    lemma_run_wf(done, machine, fuel);
    if delta == 0 {
    } else if done.len() > 0 {
        match done.last() {
            Instr::MovePointer(before) => {
                let init = done.drop_last();
                let sum = before + delta;
                assert(done =~= init.push(Instr::MovePointer(before)));
                lemma_run_push(init, Instr::MovePointer(before), machine, fuel);
                lemma_run_wf(init, machine, fuel);
                if sum > i32::MAX {
                    let first = init.push(Instr::MovePointer(i32::MAX));
                    lemma_run_push(init, Instr::MovePointer(i32::MAX), machine, fuel);
                    lemma_run_push(first, Instr::MovePointer((sum - i32::MAX) as i32), machine, fuel);
                } else if sum < i32::MIN {
                    let first = init.push(Instr::MovePointer(i32::MIN));
                    lemma_run_push(init, Instr::MovePointer(i32::MIN), machine, fuel);
                    lemma_run_push(first, Instr::MovePointer((sum - i32::MIN) as i32), machine, fuel);
                } else {
                    lemma_run_push(init, Instr::MovePointer(sum as i32), machine, fuel);
                    lemma_append_move_backward(init, sum as i32, machine, fuel);
                }
            },
            _ => {},
        }
    }
}

impl Peephole {
    /// A run of a prefix with an instruction joined to it is accounted for by
    /// a run of the prefix followed by the instruction.
    pub proof fn lemma_append_backward(
        self,
        done: Seq<Instr>,
        next: Instr,
        machine: Machine,
        fuel: nat,
    ) -> (more: nat)
        requires
            machine.wf(),
            run(self.append(done, next), machine, fuel) is Some,
        ensures
            self.traces_back(
                run(done.push(next), machine, more),
                run(self.append(done, next), machine, fuel)->0,
            ),
    {
        match self {
            Peephole::CombineIncrements => match next {
                Instr::MovePointer(delta) => lemma_append_move_backward(done, delta, machine, fuel),
                Instr::AddToCell(delta) => lemma_append_add(done, delta, machine, fuel),
                _ => {},
            },
            Peephole::ReplaceSet => match next {
                Instr::Loop(body) => {
                    if clears_cell(body) {
                        let more = if fuel >= 255 {
                            fuel
                        } else {
                            255
                        };
                        lemma_run_push(done, Instr::SetCell(0), machine, fuel);
                        lemma_run_monotonic(done, machine, fuel, more);
                        lemma_run_push(done, next, machine, more);
                        lemma_run_wf(done, machine, fuel);
                        let halt = run(done, machine, fuel)->0;
                        if halt.outcome == Outcome::Completed {
                            lemma_clearing_loop_ends(body, halt.machine);
                            lemma_run_loop_monotonic(body, halt.machine, 255, more);
                        }
                        return more;
                    }
                },
                _ => {},
            },
            Peephole::CombineSets => lemma_append_to_set(done, next, machine, fuel),
        }
        fuel
    }

    /// A run of the rewritten sequence is accounted for by a run of the
    /// given, on the fuel that is returned.
    pub proof fn lemma_rewrite_backward(self, nodes: Seq<Instr>, machine: Machine, fuel: nat) -> (more: nat)
        requires
            machine.wf(),
            run(self.rewrite(nodes), machine, fuel) is Some,
        ensures
            self.traces_back(run(nodes, machine, more), run(self.rewrite(nodes), machine, fuel)->0),
        decreases nodes, fuel, 2nat,
    {
        if nodes.len() == 0 {
            fuel
        } else {
            let init = nodes.drop_last();
            let last = nodes.last();
            let done = self.rewrite(init);
            let next = self.descend(last);
            assert(nodes =~= init.push(last));
            let joined_fuel = self.lemma_append_backward(done, next, machine, fuel);
            lemma_run_push(done, next, machine, joined_fuel);
            let middle = run(done, machine, joined_fuel)->0;
            let init_fuel = self.lemma_rewrite_backward(init, machine, joined_fuel);
            if run(init, machine, init_fuel) != Some(middle) || middle.outcome
                != Outcome::Completed {
                lemma_run_push(init, last, machine, init_fuel);
                init_fuel
            } else {
                lemma_run_wf(init, machine, init_fuel);
                let last_fuel = self.lemma_descend_backward(last, middle.machine, joined_fuel);
                let more = if init_fuel >= last_fuel {
                    init_fuel
                } else {
                    last_fuel
                };
                lemma_run_monotonic(init, machine, init_fuel, more);
                lemma_run_instr_monotonic(last, middle.machine, last_fuel, more);
                lemma_run_push(init, last, machine, more);
                more
            }
        }
    }

    /// A run of the rewritten instruction is accounted for by a run of the
    /// given, on the fuel that is returned.
    pub proof fn lemma_descend_backward(self, instr: Instr, machine: Machine, fuel: nat) -> (more: nat)
        requires
            machine.wf(),
            run_instr(self.descend(instr), machine, fuel) is Some,
        ensures
            self.traces_back(
                run_instr(instr, machine, more),
                run_instr(self.descend(instr), machine, fuel)->0,
            ),
        decreases instr, fuel, 1nat,
    {
        match instr {
            Instr::Loop(body) => self.lemma_loop_backward(body, machine, fuel),
            _ => fuel,
        }
    }

    /// A run of the loop over the rewritten body is accounted for by a run of
    /// the loop over the body as it was, on the fuel that is returned.
    pub proof fn lemma_loop_backward(self, body: Seq<Instr>, machine: Machine, fuel: nat) -> (more: nat)
        requires
            machine.wf(),
            run_loop(self.rewrite(body), machine, fuel) is Some,
        ensures
            self.traces_back(
                run_loop(body, machine, more),
                run_loop(self.rewrite(body), machine, fuel)->0,
            ),
        decreases body, fuel, 3nat,
    {
        if machine.cell() == 0 {
            fuel
        } else {
            let less = (fuel - 1) as nat;
            let middle = run(self.rewrite(body), machine, less)->0;
            let body_fuel = self.lemma_rewrite_backward(body, machine, less);
            if run(body, machine, body_fuel) != Some(middle) || middle.outcome
                != Outcome::Completed {
                body_fuel + 1
            } else {
                lemma_run_wf(body, machine, body_fuel);
                let rest_fuel = self.lemma_loop_backward(body, middle.machine, less);
                let more = if body_fuel >= rest_fuel {
                    body_fuel
                } else {
                    rest_fuel
                };
                lemma_run_monotonic(body, machine, body_fuel, more);
                lemma_run_loop_monotonic(body, middle.machine, rest_fuel, more);
                more + 1
            }
        }
    }

    /// Joining an instruction to a prefix keeps the run of the prefix followed
    /// by the instruction.
    pub proof fn lemma_append_forward(self, done: Seq<Instr>, next: Instr, machine: Machine, fuel: nat)
        requires
            machine.wf(),
            self.keeps(run(done.push(next), machine, fuel)),
        ensures
            run(self.append(done, next), machine, fuel) == run(done.push(next), machine, fuel),
    {
        match self {
            Peephole::CombineIncrements => match next {
                Instr::MovePointer(delta) => lemma_append_move_forward(done, delta, machine, fuel),
                Instr::AddToCell(delta) => lemma_append_add(done, delta, machine, fuel),
                _ => {},
            },
            Peephole::ReplaceSet => match next {
                Instr::Loop(body) => {
                    if clears_cell(body) {
                        lemma_run_push(done, next, machine, fuel);
                        lemma_run_push(done, Instr::SetCell(0), machine, fuel);
                        lemma_run_wf(done, machine, fuel);
                        let halt = run(done, machine, fuel)->0;
                        if halt.outcome == Outcome::Completed {
                            lemma_clearing_loop_result(body, halt.machine, fuel);
                        }
                    }
                },
                _ => {},
            },
            Peephole::CombineSets => lemma_append_to_set(done, next, machine, fuel),
        }
    }

    /// The pass keeps a run of a sequence, on the same fuel.
    pub proof fn lemma_rewrite_forward(self, nodes: Seq<Instr>, machine: Machine, fuel: nat)
        requires
            machine.wf(),
            self.keeps(run(nodes, machine, fuel)),
        ensures
            run(self.rewrite(nodes), machine, fuel) == run(nodes, machine, fuel),
        decreases fuel, nodes.len() + 2,
    {
        if nodes.len() > 0 {
            let init = nodes.drop_last();
            let last = nodes.last();
            let done = self.rewrite(init);
            let next = self.descend(last);
            assert(nodes =~= init.push(last));
            lemma_run_push(init, last, machine, fuel);
            self.lemma_rewrite_forward(init, machine, fuel);
            lemma_run_push(done, next, machine, fuel);
            let halt = run(init, machine, fuel)->0;
            if halt.outcome == Outcome::Completed {
                lemma_run_wf(init, machine, fuel);
                self.lemma_descend_forward(last, halt.machine, fuel);
            }
            self.lemma_append_forward(done, next, machine, fuel);
        }
    }

    /// The pass keeps a run of an instruction, on the same fuel.
    pub proof fn lemma_descend_forward(self, instr: Instr, machine: Machine, fuel: nat)
        requires
            machine.wf(),
            self.keeps(run_instr(instr, machine, fuel)),
        ensures
            run_instr(self.descend(instr), machine, fuel) == run_instr(instr, machine, fuel),
        decreases fuel, 1nat,
    {
        match instr {
            Instr::Loop(body) => self.lemma_loop_forward(body, machine, fuel),
            _ => {},
        }
    }

    /// The pass keeps a run of a loop, on the same fuel.
    pub proof fn lemma_loop_forward(self, body: Seq<Instr>, machine: Machine, fuel: nat)
        requires
            machine.wf(),
            self.keeps(run_loop(body, machine, fuel)),
        ensures
            run_loop(self.rewrite(body), machine, fuel) == run_loop(body, machine, fuel),
        decreases fuel, 0nat,
    {
        if machine.cell() != 0 {
            let less = (fuel - 1) as nat;
            self.lemma_rewrite_forward(body, machine, less);
            let halt = run(body, machine, less)->0;
            if halt.outcome == Outcome::Completed {
                lemma_run_wf(body, machine, less);
                self.lemma_loop_forward(body, halt.machine, less);
            }
        }
    }
}

impl Peephole {
    /// A peephole pass refines the sequence it is given.
    pub proof fn lemma_rewrite_refines(self, nodes: Seq<Instr>)
        ensures
            refines(nodes, self.rewrite(nodes)),
    {
        assert forall|machine: Machine, halt: Halt|
            machine.wf() && #[trigger] ends_in(nodes, machine, halt) && halt.outcome
                == Outcome::Completed implies ends_in(self.rewrite(nodes), machine, halt) by {
            let fuel = choose|fuel: nat| run(nodes, machine, fuel) == Some(halt);
            self.lemma_rewrite_forward(nodes, machine, fuel);
        }
        assert forall|machine: Machine, halt: Halt|
            machine.wf() && #[trigger] ends_in(self.rewrite(nodes), machine, halt) implies ends_in(
            nodes,
            machine,
            halt,
        ) || leaves_tape(nodes, machine) by {
            let fuel = choose|fuel: nat| run(self.rewrite(nodes), machine, fuel) == Some(halt);
            let more = self.lemma_rewrite_backward(nodes, machine, fuel);
            let given = run(nodes, machine, more)->0;
            assert(ends_in(nodes, machine, given));
        }
    }

    /// Replacing clearing loops, and folding sets, keeps every run as it is:
    /// the rewritten sequence ends where the given one ends, faults included.
    pub proof fn lemma_rewrite_equivalent(self, nodes: Seq<Instr>)
        requires
            self.keeps_faults(),
        ensures
            equivalent(nodes, self.rewrite(nodes)),
    {
        assert forall|machine: Machine, halt: Halt| machine.wf() implies (#[trigger] ends_in(
            nodes,
            machine,
            halt,
        ) <==> ends_in(self.rewrite(nodes), machine, halt)) by {
            if ends_in(nodes, machine, halt) {
                let fuel = choose|fuel: nat| run(nodes, machine, fuel) == Some(halt);
                self.lemma_rewrite_forward(nodes, machine, fuel);
            }
            if ends_in(self.rewrite(nodes), machine, halt) {
                let fuel = choose|fuel: nat| run(self.rewrite(nodes), machine, fuel) == Some(halt);
                let more = self.lemma_rewrite_backward(nodes, machine, fuel);
                assert(run(nodes, machine, more) == Some(halt));
            }
        }
    }
}

/// Replacing a loop is safe: the pass puts a set in a loop's place only
/// where the loop, started on any cell value, ends with the current cell at
/// zero and has changed nothing else: no other cell, not the pointer, no
/// input read and no output written.
pub proof fn lemma_replace_set_safe(done: Seq<Instr>, body: Seq<Instr>, machine: Machine)
    requires
        Peephole::ReplaceSet.append(done, Instr::Loop(body)) != done.push(Instr::Loop(body)),
        machine.wf(),
    ensures
        Peephole::ReplaceSet.append(done, Instr::Loop(body)) == done.push(Instr::SetCell(0)),
        run_loop(body, machine, 255) == Some(
            Halt { machine: machine.with_cell(0), outcome: Outcome::Completed },
        ),
{
    lemma_clearing_loop_ends(body, machine);
}

/// A rewrite of a rewrite refines what the first rewrite started from.
pub proof fn lemma_refines_transitive(first: Seq<Instr>, second: Seq<Instr>, third: Seq<Instr>)
    requires
        refines(first, second),
        refines(second, third),
    ensures
        refines(first, third),
{
    assert forall|machine: Machine, halt: Halt|
        machine.wf() && #[trigger] ends_in(third, machine, halt) implies ends_in(
        first,
        machine,
        halt,
    ) || leaves_tape(first, machine) by {
        if !ends_in(second, machine, halt) {
            let fault = choose|fault: Halt| #[trigger]
                ends_in(second, machine, fault) && fault.outcome == Outcome::PointerOutOfRange;
            assert(ends_in(first, machine, fault) || leaves_tape(first, machine));
        }
    }
}

/// Optimizing keeps what a program does. Where the program runs to its end,
/// the optimized program ends in the same state and with the same output.
/// The optimized program ends only where the program ends, so a program
/// that runs forever still does; it ends in the same way unless the program
/// moves the pointer off the tape, which merging pointer moves can hide.
pub proof fn lemma_optimized_refines(nodes: Seq<Instr>)
    ensures
        refines(nodes, optimized(nodes)),
{
    let first = Peephole::CombineIncrements.rewrite(nodes);
    let second = Peephole::ReplaceSet.rewrite(first);
    Peephole::CombineIncrements.lemma_rewrite_refines(nodes);
    Peephole::ReplaceSet.lemma_rewrite_refines(first);
    Peephole::CombineSets.lemma_rewrite_refines(second);
    lemma_refines_transitive(nodes, first, second);
    lemma_refines_transitive(nodes, second, optimized(nodes));
}

/// Where a program runs to its end, the optimized program ends in no other
/// way: in the same state, with the same output.
pub proof fn lemma_optimized_result(nodes: Seq<Instr>, machine: Machine, halt: Halt, other: Halt)
    requires
        machine.wf(),
        ends_in(nodes, machine, halt),
        halt.outcome == Outcome::Completed,
        ends_in(optimized(nodes), machine, other),
    ensures
        other == halt,
{
    lemma_optimized_refines(nodes);
    lemma_ends_in_unique(optimized(nodes), machine, halt, other);
}

} // verus!
