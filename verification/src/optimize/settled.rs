//! Sequences on which combining increments has nothing left to do, and why
//! the pass produces them.

use vstd::prelude::*;
use crate::optimize::peephole::{append_add, append_move, Peephole};
use crate::syntax::Instr;

verus! {

/// Whether two neighbours leave nothing to merge: two increments never do;
/// two moves do only when the first is as large as a move can be and the
/// second goes the same way.
pub open spec fn settled_pair(before: Instr, after: Instr) -> bool {
    match (before, after) {
        (Instr::MovePointer(a), Instr::MovePointer(b)) => (a == i32::MAX && b > 0) || (a
            == i32::MIN && b < 0),
        (Instr::AddToCell(_), Instr::AddToCell(_)) => false,
        _ => true,
    }
}

/// Whether an instruction has no zero delta and, if it is a loop, a settled
/// body.
pub open spec fn settled_instr(instr: Instr) -> bool
    decreases instr, 0nat,
{
    match instr {
        Instr::MovePointer(delta) => delta != 0,
        Instr::AddToCell(delta) => delta != 0,
        Instr::Loop(body) => settled(body),
        _ => true,
    }
}

/// Whether combining increments has nothing left to do on a sequence.
pub open spec fn settled(nodes: Seq<Instr>) -> bool
    decreases nodes, 1nat,
{
    nodes.len() == 0 || {
        &&& settled(nodes.drop_last())
        &&& settled_instr(nodes.last())
        &&& nodes.len() >= 2 ==> settled_pair(nodes[nodes.len() - 2], nodes.last())
    }
}

/// A settled sequence with one more instruction that merges with nothing.
proof fn lemma_settled_push(done: Seq<Instr>, next: Instr)
    requires
        settled(done),
        settled_instr(next),
        done.len() > 0 ==> settled_pair(done.last(), next),
    ensures
        settled(done.push(next)),
{
    assert(done.push(next).drop_last() =~= done);
}

/// Joining a move to a settled sequence gives a settled sequence.
proof fn lemma_append_move_settled(done: Seq<Instr>, delta: i32)
    requires
        settled(done),
    ensures
        settled(append_move(done, delta)),
    decreases done.len(),
{
    if delta == 0 {
    } else if done.len() > 0 {
        match done.last() {
            Instr::MovePointer(before) => {
                let init = done.drop_last();
                let sum = before + delta;
                if sum > i32::MAX {
                    lemma_settled_push(init, Instr::MovePointer(i32::MAX));
                    lemma_settled_push(
                        init.push(Instr::MovePointer(i32::MAX)),
                        Instr::MovePointer((sum - i32::MAX) as i32),
                    );
                } else if sum < i32::MIN {
                    lemma_settled_push(init, Instr::MovePointer(i32::MIN));
                    lemma_settled_push(
                        init.push(Instr::MovePointer(i32::MIN)),
                        Instr::MovePointer((sum - i32::MIN) as i32),
                    );
                } else {
                    lemma_append_move_settled(init, sum as i32);
                }
            },
            _ => lemma_settled_push(done, Instr::MovePointer(delta)),
        }
    } else {
        lemma_settled_push(done, Instr::MovePointer(delta));
    }
}

/// Joining an increment to a settled sequence gives a settled sequence.
proof fn lemma_append_add_settled(done: Seq<Instr>, delta: i8)
    requires
        settled(done),
    ensures
        settled(append_add(done, delta)),
    decreases done.len(),
{
    if delta == 0 {
    } else if done.len() > 0 {
        match done.last() {
            Instr::AddToCell(before) => {
                lemma_append_add_settled(
                    done.drop_last(),
                    crate::optimize::peephole::sum_wrapping(before, delta),
                );
            },
            _ => lemma_settled_push(done, Instr::AddToCell(delta)),
        }
    } else {
        lemma_settled_push(done, Instr::AddToCell(delta));
    }
}

/// Combining increments gives a settled sequence.
pub proof fn lemma_combined_is_settled(nodes: Seq<Instr>)
    ensures
        settled(Peephole::CombineIncrements.rewrite(nodes)),
    decreases nodes,
{
    let pass = Peephole::CombineIncrements;
    if nodes.len() > 0 {
        let done = pass.rewrite(nodes.drop_last());
        lemma_combined_is_settled(nodes.drop_last());
        match nodes.last() {
            Instr::MovePointer(delta) => lemma_append_move_settled(done, delta),
            Instr::AddToCell(delta) => lemma_append_add_settled(done, delta),
            Instr::Loop(body) => {
                lemma_combined_is_settled(body);
                lemma_settled_push(done, pass.descend(nodes.last()));
            },
            other => lemma_settled_push(done, other),
        }
    }
}

/// Combining increments leaves a settled sequence as it is.
pub proof fn lemma_settled_is_fixed(nodes: Seq<Instr>)
    requires
        settled(nodes),
    ensures
        Peephole::CombineIncrements.rewrite(nodes) == nodes,
    decreases nodes,
{
    let pass = Peephole::CombineIncrements;
    if nodes.len() == 0 {
        assert(pass.rewrite(nodes) =~= nodes);
    } else {
        let init = nodes.drop_last();
        let last = nodes.last();
        lemma_settled_is_fixed(init);
        assert(init.push(last) =~= nodes);
        assert(settled_instr(last));
        assert(pass.rewrite(nodes) == pass.append(init, pass.descend(last)));
        match last {
            Instr::Loop(body) => {
                assert(settled(body));
                lemma_settled_is_fixed(body);
                assert(pass.descend(last) == last);
            },
            Instr::MovePointer(delta) => {
                assert(pass.descend(last) == last);
                if init.len() > 0 {
                    assert(init.last() == nodes[nodes.len() - 2]);
                    assert(init.drop_last().push(init.last()) =~= init);
                    assert(append_move(init, delta) == init.push(last));
                }
            },
            Instr::AddToCell(delta) => {
                assert(pass.descend(last) == last);
                if init.len() > 0 {
                    assert(init.last() == nodes[nodes.len() - 2]);
                    assert(append_add(init, delta) == init.push(last));
                }
            },
            _ => {
                assert(pass.descend(last) == last);
            },
        }
    }
}

/// Combining increments twice gives what combining them once gives.
pub proof fn lemma_combine_increments_idempotent(nodes: Seq<Instr>)
    ensures
        Peephole::CombineIncrements.rewrite(Peephole::CombineIncrements.rewrite(nodes))
            == Peephole::CombineIncrements.rewrite(nodes),
{
    lemma_combined_is_settled(nodes);
    lemma_settled_is_fixed(Peephole::CombineIncrements.rewrite(nodes));
}

} // verus!
