//! Rewriting the bodies of loops with any pass that keeps their meaning
//! keeps the meaning of the sequence around them.

use vstd::prelude::*;
use crate::optimize::soundness::left_tape;
use crate::optimize::{leaves_tape, loops_mapped, refines, OptimizationPass};
use crate::semantics::{
    ends_in, lemma_run_instr_monotonic, lemma_run_loop_monotonic, lemma_run_monotonic,
    lemma_run_wf, lemma_run_instr_wf, run, run_instr, run_loop, Halt, Machine, Outcome,
};
use crate::syntax::Instr;

verus! {

/// The larger of two amounts of fuel.
spec fn larger(one: nat, other: nat) -> nat {
    if one >= other {
        one
    } else {
        other
    }
}

/// A loop that completes still completes, in the same way, when its body is
/// replaced by one that refines it.
proof fn lemma_loop_forward(
    body: Seq<Instr>,
    rewritten: Seq<Instr>,
    machine: Machine,
    fuel: nat,
) -> (more: nat)
    requires
        machine.wf(),
        refines(body, rewritten),
        run_loop(body, machine, fuel) matches Some(halt) && halt.outcome == Outcome::Completed,
    ensures
        run_loop(rewritten, machine, more) == run_loop(body, machine, fuel),
    decreases fuel,
{
    if machine.cell() == 0 {
        fuel
    } else {
        let less = (fuel - 1) as nat;
        let first = run(body, machine, less)->0;
        assert(ends_in(body, machine, first));
        let once = choose|once: nat| run(rewritten, machine, once) == Some(first);
        lemma_run_wf(body, machine, less);
        let onward = lemma_loop_forward(body, rewritten, first.machine, less);
        let both = larger(once, onward);
        lemma_run_monotonic(rewritten, machine, once, both);
        lemma_run_loop_monotonic(rewritten, first.machine, onward, both);
        both + 1
    }
}

/// A loop over a body that refines another ends only where the loop over
/// that other body ends: in the same way, or with the pointer off the tape.
proof fn lemma_loop_backward(
    body: Seq<Instr>,
    rewritten: Seq<Instr>,
    machine: Machine,
    fuel: nat,
) -> (more: nat)
    requires
        machine.wf(),
        refines(body, rewritten),
        run_loop(rewritten, machine, fuel) is Some,
    ensures
        run_loop(body, machine, more) == run_loop(rewritten, machine, fuel) || left_tape(
            run_loop(body, machine, more),
        ),
    decreases fuel,
{
    if machine.cell() == 0 {
        fuel
    } else {
        let less = (fuel - 1) as nat;
        let first = run(rewritten, machine, less)->0;
        assert(ends_in(rewritten, machine, first));
        if !ends_in(body, machine, first) {
            let fault = choose|fault: Halt| #[trigger]
                ends_in(body, machine, fault) && fault.outcome == Outcome::PointerOutOfRange;
            let once = choose|once: nat| run(body, machine, once) == Some(fault);
            once + 1
        } else {
            let once = choose|once: nat| run(body, machine, once) == Some(first);
            if first.outcome == Outcome::Completed {
                lemma_run_wf(body, machine, once);
                let onward = lemma_loop_backward(body, rewritten, first.machine, less);
                let both = larger(once, onward);
                lemma_run_monotonic(body, machine, once, both);
                lemma_run_loop_monotonic(body, first.machine, onward, both);
                both + 1
            } else {
                once + 1
            }
        }
    }
}

/// A sequence that completes still completes, in the same way, when a pass
/// has rewritten the bodies of its loops.
proof fn lemma_mapped_forward<P: OptimizationPass>(
    nodes: Seq<Instr>,
    pass: &P,
    machine: Machine,
    fuel: nat,
) -> (more: nat)
    requires
        machine.wf(),
        run(nodes, machine, fuel) matches Some(halt) && halt.outcome == Outcome::Completed,
    ensures
        run(loops_mapped(nodes, pass), machine, more) == run(nodes, machine, fuel),
    decreases nodes.len(),
{
    let mapped = loops_mapped(nodes, pass);
    if nodes.len() == 0 {
        fuel
    } else {
        assert(mapped.skip(1) =~= loops_mapped(nodes.skip(1), pass));
        let first = run_instr(nodes[0], machine, fuel)->0;
        lemma_run_instr_wf(nodes[0], machine, fuel);
        let once = match nodes[0] {
            Instr::Loop(body) => {
                pass.lemma_refines(body);
                lemma_loop_forward(body, pass.rewritten(body), machine, fuel)
            },
            _ => fuel,
        };
        let onward = lemma_mapped_forward(nodes.skip(1), pass, first.machine, fuel);
        let both = larger(once, onward);
        lemma_run_instr_monotonic(mapped[0], machine, once, both);
        lemma_run_monotonic(mapped.skip(1), first.machine, onward, both);
        both
    }
}

/// A sequence in which a pass has rewritten the bodies of the loops ends
/// only where the sequence it came from ends: in the same way, or with the
/// pointer off the tape.
proof fn lemma_mapped_backward<P: OptimizationPass>(
    nodes: Seq<Instr>,
    pass: &P,
    machine: Machine,
    fuel: nat,
) -> (more: nat)
    requires
        machine.wf(),
        run(loops_mapped(nodes, pass), machine, fuel) is Some,
    ensures
        run(nodes, machine, more) == run(loops_mapped(nodes, pass), machine, fuel) || left_tape(
            run(nodes, machine, more),
        ),
    decreases nodes.len(),
{
    let mapped = loops_mapped(nodes, pass);
    if nodes.len() == 0 {
        assert(mapped =~= nodes);
        fuel
    } else {
        assert(mapped.skip(1) =~= loops_mapped(nodes.skip(1), pass));
        let first = run_instr(mapped[0], machine, fuel)->0;
        let once = match nodes[0] {
            Instr::Loop(body) => {
                pass.lemma_refines(body);
                lemma_loop_backward(body, pass.rewritten(body), machine, fuel)
            },
            _ => fuel,
        };
        if run_instr(nodes[0], machine, once) != Some(first) || first.outcome
            != Outcome::Completed {
            once
        } else {
            lemma_run_instr_wf(nodes[0], machine, once);
            let onward = lemma_mapped_backward(nodes.skip(1), pass, first.machine, fuel);
            let both = larger(once, onward);
            lemma_run_instr_monotonic(nodes[0], machine, once, both);
            lemma_run_monotonic(nodes.skip(1), first.machine, onward, both);
            both
        }
    }
}

/// Rewriting the bodies of the loops of a sequence with a pass gives a
/// sequence that refines it.
pub proof fn lemma_loops_mapped_refines<P: OptimizationPass>(nodes: Seq<Instr>, pass: &P)
    ensures
        refines(nodes, loops_mapped(nodes, pass)),
{
    let mapped = loops_mapped(nodes, pass);
    assert forall|machine: Machine, halt: Halt|
        machine.wf() && #[trigger] ends_in(nodes, machine, halt) && halt.outcome
            == Outcome::Completed implies ends_in(mapped, machine, halt) by {
        let fuel = choose|fuel: nat| run(nodes, machine, fuel) == Some(halt);
        let more = lemma_mapped_forward(nodes, pass, machine, fuel);
        assert(run(mapped, machine, more) == Some(halt));
    }
    assert forall|machine: Machine, halt: Halt|
        machine.wf() && #[trigger] ends_in(mapped, machine, halt) implies ends_in(
        nodes,
        machine,
        halt,
    ) || leaves_tape(nodes, machine) by {
        let fuel = choose|fuel: nat| run(mapped, machine, fuel) == Some(halt);
        let more = lemma_mapped_backward(nodes, pass, machine, fuel);
        let before = run(nodes, machine, more)->0;
        assert(ends_in(nodes, machine, before));
    }
}

} // verus!
