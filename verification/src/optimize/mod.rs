//! Rewrites of a program tree that keep its meaning.
//!
//! A pass is a function from a sequence of instructions to a sequence of
//! instructions. Passes are chained by calling one after the other.

pub mod congruence;
pub mod peephole;
pub mod settled;
pub mod size;
pub mod soundness;

use vstd::prelude::*;
use crate::optimize::peephole::Peephole;
use crate::semantics::{ends_in, Halt, Machine, Outcome};
use crate::syntax::{lemma_models_index, lemma_models_len, lemma_models_push, models, Instr, Instruction};

verus! {

/// The program, run from the machine, ends because the pointer would leave
/// the tape.
pub open spec fn leaves_tape(program: Seq<Instr>, machine: Machine) -> bool {
    exists|halt: Halt| #[trigger]
        ends_in(program, machine, halt) && halt.outcome == Outcome::PointerOutOfRange
}

/// What a rewrite owes the program it started from. Where that program runs
/// to its end, the rewritten program ends in the same state, with the same
/// output. And the rewritten program ends only where the given one ends: in
/// the same way, or with the pointer off the tape.
pub open spec fn refines(given: Seq<Instr>, rewritten: Seq<Instr>) -> bool {
    &&& forall|machine: Machine, halt: Halt|
        machine.wf() && #[trigger] ends_in(given, machine, halt) && halt.outcome
            == Outcome::Completed ==> ends_in(rewritten, machine, halt)
    &&& forall|machine: Machine, halt: Halt|
        machine.wf() && #[trigger] ends_in(rewritten, machine, halt) ==> ends_in(
            given,
            machine,
            halt,
        ) || leaves_tape(given, machine)
}

/// The two programs end on the same machines, and in the same way.
pub open spec fn equivalent(given: Seq<Instr>, rewritten: Seq<Instr>) -> bool {
    forall|machine: Machine, halt: Halt|
        machine.wf() ==> (#[trigger] ends_in(given, machine, halt) <==> ends_in(
            rewritten,
            machine,
            halt,
        ))
}

/// A rewrite of instruction sequences that keeps their meaning.
pub trait OptimizationPass {
    /// What the pass makes of a sequence.
    spec fn rewritten(&self, nodes: Seq<Instr>) -> Seq<Instr>;

    /// The rewritten sequence refines the given one.
    proof fn lemma_refines(&self, nodes: Seq<Instr>)
        ensures
            refines(nodes, self.rewritten(nodes)),
    ;

    /// Rewrites a sequence.
    fn optimize(&self, nodes: Vec<Instruction>) -> (result: Vec<Instruction>)
        ensures
            models(result@) == self.rewritten(models(nodes@)),
    ;
}

/// Chaining of passes on a sequence of instructions.
pub trait OptimizeExt: Sized {
    /// The sequence as a model.
    spec fn program(&self) -> Seq<Instr>;

    /// Hands the sequence to a pass.
    fn optimize<P: OptimizationPass>(self, pass: &P) -> (result: Vec<Instruction>)
        ensures
            models(result@) == pass.rewritten(self.program()),
    ;
}

impl OptimizeExt for Vec<Instruction> {
    open spec fn program(&self) -> Seq<Instr> {
        models(self@)
    }

    fn optimize<P: OptimizationPass>(self, pass: &P) -> (result: Vec<Instruction>) {
        pass.optimize(self)
    }
}

/// A sequence with a pass applied to the body of each of its loops.
pub open spec fn loops_mapped<P: OptimizationPass>(nodes: Seq<Instr>, pass: &P) -> Seq<Instr> {
    Seq::new(
        nodes.len(),
        |i: int|
            match nodes[i] {
                Instr::Loop(body) => Instr::Loop(pass.rewritten(body)),
                other => other,
            },
    )
}

/// Applies a pass to the body of each loop of a sequence, and leaves the
/// other instructions as they are.
pub fn map_loops<P: OptimizationPass>(nodes: Vec<Instruction>, pass: &P) -> (result: Vec<
    Instruction,
>)
    ensures
        models(result@) == loops_mapped(models(nodes@), pass),
{
    let ghost whole = models(nodes@);
    let mut out: Vec<Instruction> = Vec::new();
    proof {
        lemma_models_len(nodes@);
    }
    for instr in it: nodes
        invariant
            whole == models(nodes@),
            whole.len() == nodes@.len(),
            models(out@) == loops_mapped(whole, pass).take(it.index() as int),
    {
        let ghost at = it.index() as int;
        proof {
            lemma_models_index(nodes@, at);
        }
        let mapped = match instr {
            Instruction::Loop { body } => Instruction::Loop { body: pass.optimize(body) },
            other => other,
        };
        proof {
            lemma_models_push(out@, mapped);
            assert(loops_mapped(whole, pass).take(at + 1) =~= loops_mapped(whole, pass).take(
                at,
            ).push(mapped.model()));
        }
        out.push(mapped);
    }
    assert(loops_mapped(whole, pass).take(whole.len() as int) =~= loops_mapped(whole, pass));
    out
}

/// The model of running all three peephole passes in their order: combine
/// increments, replace set, combine sets.
pub open spec fn optimized(nodes: Seq<Instr>) -> Seq<Instr> {
    Peephole::CombineSets.rewrite(
        Peephole::ReplaceSet.rewrite(Peephole::CombineIncrements.rewrite(nodes)),
    )
}

/// Runs all three peephole passes in their order.
pub fn optimize(nodes: Vec<Instruction>) -> (result: Vec<Instruction>)
    ensures
        models(result@) == optimized(models(nodes@)),
{
    nodes.optimize(&Peephole::CombineIncrements).optimize(&Peephole::ReplaceSet).optimize(
        &Peephole::CombineSets,
    )
}

} // verus!
