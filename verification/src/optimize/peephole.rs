//! The three peephole passes.
//!
//! Each pass walks a sequence from left to right and keeps the rewritten
//! prefix; a rule says how the next instruction joins that prefix. Loop
//! bodies are rewritten before the loop itself is looked at.

use vstd::prelude::*;
use crate::optimize::{refines, OptimizationPass};
use crate::syntax::{lemma_models_index, lemma_models_len, lemma_models_push, models, Instr, Instruction};

verus! {

/// A peephole pass.
#[derive(Clone, Copy, Debug, PartialEq, Eq, Structural)]
pub enum Peephole {
    /// Merges neighbouring pointer moves, and neighbouring cell increments,
    /// into their sum; a sum of zero leaves nothing behind.
    CombineIncrements,
    /// Replaces a loop that only counts the current cell down or up by an odd
    /// step with setting the cell to zero.
    ReplaceSet,
    /// Folds an increment or a set that follows a set into that set.
    CombineSets,
}

/// The sum of two cell deltas, modulo 256.
pub open spec fn sum_wrapping(a: i8, b: i8) -> i8 {
    if a + b > i8::MAX {
        (a + b - 256) as i8
    } else if a + b < i8::MIN {
        (a + b + 256) as i8
    } else {
        (a + b) as i8
    }
}

/// Joins a pointer move to a rewritten prefix. A move merges with the move
/// before it as long as the sum fits; where it does not, the earlier move
/// takes as much as fits and the rest follows it.
pub open spec fn append_move(done: Seq<Instr>, delta: i32) -> Seq<Instr>
    decreases done.len(),
{
    if delta == 0 {
        done
    } else if done.len() > 0 {
        match done.last() {
            Instr::MovePointer(before) => {
                let sum = before + delta;
                if sum > i32::MAX {
                    done.drop_last().push(Instr::MovePointer(i32::MAX)).push(
                        Instr::MovePointer((sum - i32::MAX) as i32),
                    )
                } else if sum < i32::MIN {
                    done.drop_last().push(Instr::MovePointer(i32::MIN)).push(
                        Instr::MovePointer((sum - i32::MIN) as i32),
                    )
                } else {
                    append_move(done.drop_last(), sum as i32)
                }
            },
            _ => done.push(Instr::MovePointer(delta)),
        }
    } else {
        done.push(Instr::MovePointer(delta))
    }
}

/// Joins a cell increment to a rewritten prefix.
pub open spec fn append_add(done: Seq<Instr>, delta: i8) -> Seq<Instr>
    decreases done.len(),
{
    if delta == 0 {
        done
    } else if done.len() > 0 {
        match done.last() {
            Instr::AddToCell(before) => append_add(done.drop_last(), sum_wrapping(before, delta)),
            _ => done.push(Instr::AddToCell(delta)),
        }
    } else {
        done.push(Instr::AddToCell(delta))
    }
}

/// Whether a loop with this body does nothing but bring the current cell to
/// zero: the body is a single increment by an odd delta.
pub open spec fn clears_cell(body: Seq<Instr>) -> bool {
    &&& body.len() == 1
    &&& body[0] matches Instr::AddToCell(delta)
    &&& delta % 2 != 0
}

/// Joins an instruction to a prefix that ends in a set.
pub open spec fn append_to_set(done: Seq<Instr>, next: Instr) -> Seq<Instr> {
    if done.len() > 0 {
        match (done.last(), next) {
            (Instr::SetCell(value), Instr::AddToCell(delta)) => done.drop_last().push(
                Instr::SetCell(crate::semantics::add_wrapping(value, delta)),
            ),
            (Instr::SetCell(_), Instr::SetCell(value)) => done.drop_last().push(
                Instr::SetCell(value),
            ),
            _ => done.push(next),
        }
    } else {
        done.push(next)
    }
}

impl Peephole {
    /// The rewritten prefix with one more instruction joined to it.
    pub open spec fn append(self, done: Seq<Instr>, next: Instr) -> Seq<Instr> {
        match self {
            Peephole::CombineIncrements => match next {
                Instr::MovePointer(delta) => append_move(done, delta),
                Instr::AddToCell(delta) => append_add(done, delta),
                _ => done.push(next),
            },
            Peephole::ReplaceSet => match next {
                Instr::Loop(body) => if clears_cell(body) {
                    done.push(Instr::SetCell(0))
                } else {
                    done.push(next)
                },
                _ => done.push(next),
            },
            Peephole::CombineSets => append_to_set(done, next),
        }
    }

    /// The instruction with the pass applied to its body, if it is a loop.
    pub open spec fn descend(self, instr: Instr) -> Instr
        decreases instr, 0nat,
    {
        match instr {
            Instr::Loop(body) => Instr::Loop(self.rewrite(body)),
            other => other,
        }
    }

    /// What the pass makes of a sequence.
    pub open spec fn rewrite(self, nodes: Seq<Instr>) -> Seq<Instr>
        decreases nodes, 1nat,
    {
        if nodes.len() == 0 {
            Seq::empty()
        } else {
            self.append(self.rewrite(nodes.drop_last()), self.descend(nodes.last()))
        }
    }

    /// Applies the pass to a sequence and, first, to the bodies of its loops.
    pub fn apply(&self, nodes: &Vec<Instruction>) -> (result: Vec<Instruction>)
        ensures
            models(result@) == self.rewrite(models(nodes@)),
        decreases nodes,
    {
        let mut out: Vec<Instruction> = Vec::new();
        let mut i: usize = 0;
        while i < nodes.len()
            invariant
                i <= nodes.len(),
                models(out@) == self.rewrite(models(nodes@.take(i as int))),
            decreases nodes.len() - i,
        {
            let next = match &nodes[i] {
                Instruction::MovePointer(delta) => Instruction::MovePointer(*delta),
                Instruction::AddToCell(delta) => Instruction::AddToCell(*delta),
                Instruction::SetCell(value) => Instruction::SetCell(*value),
                Instruction::Read => Instruction::Read,
                Instruction::Write => Instruction::Write,
                Instruction::Loop { body } => Instruction::Loop { body: self.apply(body) },
            };
            proof {
                let before = nodes@.take(i as int);
                let after = nodes@.take(i + 1);
                assert(after.drop_last() =~= before);
                assert(after.last() == nodes@[i as int]);
                assert(next.model() == self.descend(nodes@[i as int].model()));
                lemma_models_push(before, nodes@[i as int]);
                assert(after =~= before.push(nodes@[i as int]));
                assert(models(after).drop_last() =~= models(before));
            }
            self.join(&mut out, next);
            i += 1;
        }
        assert(nodes@.take(i as int) =~= nodes@);
        out
    }

    /// Joins one instruction to a rewritten prefix.
    fn join(&self, out: &mut Vec<Instruction>, next: Instruction)
        ensures
            models(final(out)@) == self.append(models(old(out)@), next.model()),
    {
        match self {
            Peephole::CombineIncrements => match next {
                Instruction::MovePointer(delta) => join_move(out, delta),
                Instruction::AddToCell(delta) => join_add(out, delta),
                other => push_node(out, other),
            },
            Peephole::ReplaceSet => {
                if is_clearing_loop(&next) {
                    push_node(out, Instruction::SetCell(0));
                } else {
                    push_node(out, next);
                }
            },
            Peephole::CombineSets => join_to_set(out, next),
        }
    }
}

impl OptimizationPass for Peephole {
    open spec fn rewritten(&self, nodes: Seq<Instr>) -> Seq<Instr> {
        self.rewrite(nodes)
    }

    proof fn lemma_refines(&self, nodes: Seq<Instr>) {
        self.lemma_rewrite_refines(nodes);
    }

    fn optimize(&self, nodes: Vec<Instruction>) -> (result: Vec<Instruction>) {
        self.apply(&nodes)
    }
}

/// Appends an instruction as it is.
fn push_node(out: &mut Vec<Instruction>, next: Instruction)
    ensures
        final(out)@ == old(out)@.push(next),
        models(final(out)@) == models(old(out)@).push(next.model()),
{
    proof {
        lemma_models_push(out@, next);
    }
    out.push(next);
}

/// Removes the last instruction.
fn pop_node(out: &mut Vec<Instruction>)
    requires
        old(out)@.len() > 0,
    ensures
        final(out)@ == old(out)@.drop_last(),
        models(final(out)@) == models(old(out)@).drop_last(),
{
    proof {
        lemma_models_push(out@.drop_last(), out@.last());
        assert(out@.drop_last().push(out@.last()) =~= out@);
        assert(models(out@).drop_last() =~= models(out@.drop_last()));
    }
    out.pop();
}

/// The delta of the last instruction, if that is a pointer move.
fn last_move(out: &Vec<Instruction>) -> (delta: Option<i32>)
    ensures
        match delta {
            Some(d) => out@.len() > 0 && models(out@).last() == Instr::MovePointer(d),
            None => out@.len() == 0 || !(models(out@).last() is MovePointer),
        },
{
    if out.len() == 0 {
        proof {
            lemma_models_len(out@);
        }
        None
    } else {
        proof {
            lemma_models_index(out@, out@.len() - 1);
        }
        match &out[out.len() - 1] {
            Instruction::MovePointer(d) => Some(*d),
            _ => None,
        }
    }
}

/// The delta of the last instruction, if that is a cell increment.
fn last_add(out: &Vec<Instruction>) -> (delta: Option<i8>)
    ensures
        match delta {
            Some(d) => out@.len() > 0 && models(out@).last() == Instr::AddToCell(d),
            None => out@.len() == 0 || !(models(out@).last() is AddToCell),
        },
{
    if out.len() == 0 {
        proof {
            lemma_models_len(out@);
        }
        None
    } else {
        proof {
            lemma_models_index(out@, out@.len() - 1);
        }
        match &out[out.len() - 1] {
            Instruction::AddToCell(d) => Some(*d),
            _ => None,
        }
    }
}

/// The value of the last instruction, if that is a set.
fn last_set(out: &Vec<Instruction>) -> (value: Option<u8>)
    ensures
        match value {
            Some(v) => out@.len() > 0 && models(out@).last() == Instr::SetCell(v),
            None => out@.len() == 0 || !(models(out@).last() is SetCell),
        },
{
    if out.len() == 0 {
        proof {
            lemma_models_len(out@);
        }
        None
    } else {
        proof {
            lemma_models_index(out@, out@.len() - 1);
        }
        match &out[out.len() - 1] {
            Instruction::SetCell(v) => Some(*v),
            _ => None,
        }
    }
}

fn join_move(out: &mut Vec<Instruction>, delta: i32)
    ensures
        models(final(out)@) == append_move(models(old(out)@), delta),
{
    let mut pending: i32 = delta;
    loop
        invariant_except_break
            append_move(models(out@), pending) == append_move(models(old(out)@), delta),
        ensures
            models(out@) == append_move(models(old(out)@), delta),
        decreases out@.len(),
    {
        proof {
            lemma_models_len(out@);
        }
        if pending == 0 {
            break ;
        }
        match last_move(out) {
            Some(before) => {
                let sum: i64 = before as i64 + pending as i64;
                pop_node(out);
                if sum > i32::MAX as i64 {
                    push_node(out, Instruction::MovePointer(i32::MAX));
                    push_node(out, Instruction::MovePointer((sum - i32::MAX as i64) as i32));
                    break ;
                } else if sum < i32::MIN as i64 {
                    push_node(out, Instruction::MovePointer(i32::MIN));
                    push_node(out, Instruction::MovePointer((sum - i32::MIN as i64) as i32));
                    break ;
                } else {
                    pending = sum as i32;
                }
            },
            None => {
                push_node(out, Instruction::MovePointer(pending));
                break ;
            },
        }
    }
}

fn join_add(out: &mut Vec<Instruction>, delta: i8)
    ensures
        models(final(out)@) == append_add(models(old(out)@), delta),
{
    let mut pending: i8 = delta;
    loop
        invariant_except_break
            append_add(models(out@), pending) == append_add(models(old(out)@), delta),
        ensures
            models(out@) == append_add(models(old(out)@), delta),
        decreases out@.len(),
    {
        proof {
            lemma_models_len(out@);
        }
        if pending == 0 {
            break ;
        }
        match last_add(out) {
            Some(before) => {
                pop_node(out);
                pending = before.wrapping_add(pending);
            },
            None => {
                push_node(out, Instruction::AddToCell(pending));
                break ;
            },
        }
    }
}

/// Whether the instruction is a loop whose body is one increment by an odd
/// delta.
fn is_clearing_loop(instr: &Instruction) -> (found: bool)
    ensures
        found == (instr.model() matches Instr::Loop(body) && clears_cell(body)),
{
    match instr {
        Instruction::Loop { body } => {
            proof {
                lemma_models_len(body@);
                if body@.len() == 1 {
                    lemma_models_push(body@.drop_last(), body@.last());
                    assert(body@.drop_last().push(body@.last()) =~= body@);
                }
            }
            if body.len() == 1 {
                match &body[0] {
                    Instruction::AddToCell(delta) => {
                        let shifted: i16 = *delta as i16 + 128;
                        shifted % 2 != 0
                    },
                    _ => false,
                }
            } else {
                false
            }
        },
        _ => false,
    }
}

fn join_to_set(out: &mut Vec<Instruction>, next: Instruction)
    ensures
        models(final(out)@) == append_to_set(models(old(out)@), next.model()),
{
    proof {
        lemma_models_len(out@);
    }
    match last_set(out) {
        Some(value) => match next {
            Instruction::AddToCell(delta) => {
                pop_node(out);
                push_node(out, Instruction::SetCell(value.wrapping_add_signed(delta)));
            },
            Instruction::SetCell(later) => {
                pop_node(out);
                push_node(out, Instruction::SetCell(later));
            },
            other => push_node(out, other),
        },
        None => push_node(out, next),
    }
}

} // verus!
