//! The passes never make a program larger.

use vstd::prelude::*;
use crate::optimize::optimized;
use crate::optimize::peephole::{append_add, append_move, Peephole};
use crate::syntax::Instr;

verus! {

/// The number of instructions of an instruction: itself and, for a loop,
/// those of its body.
pub open spec fn weight_instr(instr: Instr) -> nat
    decreases instr, 0nat,
{
    match instr {
        Instr::Loop(body) => 1 + weight(body),
        _ => 1,
    }
}

/// The number of instructions of a sequence, those inside loops included.
pub open spec fn weight(nodes: Seq<Instr>) -> nat
    decreases nodes, 1nat,
{
    if nodes.len() == 0 {
        0
    } else {
        weight(nodes.drop_last()) + weight_instr(nodes.last())
    }
}

/// One more instruction adds its own weight.
proof fn lemma_weight_push(done: Seq<Instr>, next: Instr)
    ensures
        weight(done.push(next)) == weight(done) + weight_instr(next),
{
    assert(done.push(next).drop_last() =~= done);
}

/// Joining a move adds at most one instruction.
proof fn lemma_append_move_weight(done: Seq<Instr>, delta: i32)
    ensures
        weight(append_move(done, delta)) <= weight(done) + 1,
    decreases done.len(),
{
    if delta == 0 {
    } else if done.len() > 0 {
        match done.last() {
            Instr::MovePointer(before) => {
                let init = done.drop_last();
                let sum = before + delta;
                assert(weight_instr(done.last()) == 1);
                assert(weight(done) == weight(init) + 1);
                if sum > i32::MAX {
                    lemma_weight_push(init, Instr::MovePointer(i32::MAX));
                    lemma_weight_push(
                        init.push(Instr::MovePointer(i32::MAX)),
                        Instr::MovePointer((sum - i32::MAX) as i32),
                    );
                } else if sum < i32::MIN {
                    lemma_weight_push(init, Instr::MovePointer(i32::MIN));
                    lemma_weight_push(
                        init.push(Instr::MovePointer(i32::MIN)),
                        Instr::MovePointer((sum - i32::MIN) as i32),
                    );
                } else {
                    lemma_append_move_weight(init, sum as i32);
                }
            },
            _ => lemma_weight_push(done, Instr::MovePointer(delta)),
        }
    } else {
        lemma_weight_push(done, Instr::MovePointer(delta));
    }
}

/// Joining an increment adds at most one instruction.
proof fn lemma_append_add_weight(done: Seq<Instr>, delta: i8)
    ensures
        weight(append_add(done, delta)) <= weight(done) + 1,
    decreases done.len(),
{
    if delta == 0 {
    } else if done.len() > 0 {
        match done.last() {
            Instr::AddToCell(before) => {
                assert(weight_instr(done.last()) == 1);
                assert(weight(done) == weight(done.drop_last()) + 1);
                lemma_append_add_weight(
                    done.drop_last(),
                    crate::optimize::peephole::sum_wrapping(before, delta),
                );
            },
            _ => lemma_weight_push(done, Instr::AddToCell(delta)),
        }
    } else {
        lemma_weight_push(done, Instr::AddToCell(delta));
    }
}

impl Peephole {
    /// Joining an instruction to a prefix adds no more than the instruction.
    pub proof fn lemma_append_weight(self, done: Seq<Instr>, next: Instr)
        ensures
            weight(self.append(done, next)) <= weight(done) + weight_instr(next),
    {
        lemma_weight_push(done, next);
        match self {
            Peephole::CombineIncrements => match next {
                Instr::MovePointer(delta) => lemma_append_move_weight(done, delta),
                Instr::AddToCell(delta) => lemma_append_add_weight(done, delta),
                _ => {},
            },
            Peephole::ReplaceSet => {
                lemma_weight_push(done, Instr::SetCell(0));
            },
            Peephole::CombineSets => {
                if done.len() > 0 {
                    match (done.last(), next) {
                        (Instr::SetCell(value), Instr::AddToCell(delta)) => {
                            assert(weight_instr(done.last()) == 1);
                assert(weight(done) == weight(done.drop_last()) + 1);
                            lemma_weight_push(
                                done.drop_last(),
                                Instr::SetCell(crate::semantics::add_wrapping(value, delta)),
                            );
                        },
                        (Instr::SetCell(_), Instr::SetCell(value)) => {
                            assert(weight_instr(done.last()) == 1);
                assert(weight(done) == weight(done.drop_last()) + 1);
                            lemma_weight_push(done.drop_last(), Instr::SetCell(value));
                        },
                        _ => {},
                    }
                }
            },
        }
    }

    /// A pass gives a sequence of no more instructions than it was given.
    pub proof fn lemma_rewrite_weight(self, nodes: Seq<Instr>)
        ensures
            weight(self.rewrite(nodes)) <= weight(nodes),
        decreases nodes,
    {
        if nodes.len() == 0 {
            assert(self.rewrite(nodes) =~= nodes);
        } else {
            self.lemma_rewrite_weight(nodes.drop_last());
            match nodes.last() {
                Instr::Loop(body) => self.lemma_rewrite_weight(body),
                _ => {},
            }
            assert(weight_instr(self.descend(nodes.last())) <= weight_instr(nodes.last()));
            self.lemma_append_weight(
                self.rewrite(nodes.drop_last()),
                self.descend(nodes.last()),
            );
        }
    }
}

/// Optimizing gives a program of no more instructions than it was given.
pub proof fn lemma_optimized_no_larger(nodes: Seq<Instr>)
    ensures
        weight(optimized(nodes)) <= weight(nodes),
{
    let first = Peephole::CombineIncrements.rewrite(nodes);
    let second = Peephole::ReplaceSet.rewrite(first);
    Peephole::CombineIncrements.lemma_rewrite_weight(nodes);
    Peephole::ReplaceSet.lemma_rewrite_weight(first);
    Peephole::CombineSets.lemma_rewrite_weight(second);
}

} // verus!
