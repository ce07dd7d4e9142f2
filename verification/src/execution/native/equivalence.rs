//! The generated routine and the interpreter agree, step for step.

use vstd::prelude::*;
use crate::execution::interpreter::{Config, Position, Progress};
use crate::execution::native::codegen::{
    encode, encode_instr, finish_code, fits, image, instr_fits, loop_back_code, loop_test_code,
    prologue_code, MAX_BODY,
};
use crate::execution::native::machine::{fetches, lemma_decode, lemma_op_len, op_code, Cpu, Op};
use crate::semantics::Machine;
use crate::syntax::Instr;

verus! {

/// The code of two sequences, one after the other, is the code of their
/// concatenation.
pub proof fn lemma_encode_concat(first: Seq<Instr>, second: Seq<Instr>)
    ensures
        encode(first + second) == encode(first) + encode(second),
    decreases second.len(),
{
    if second.len() == 0 {
        assert(first + second =~= first);
        assert(encode(first) + encode(second) =~= encode(first));
    } else {
        assert((first + second).drop_last() =~= first + second.drop_last());
        assert((first + second).last() == second.last());
        lemma_encode_concat(first, second.drop_last());
        assert(encode(first + second) =~= encode(first) + encode(second));
    }
}

/// The code of a single instruction as a sequence.
pub proof fn lemma_encode_single(instr: Instr)
    ensures
        encode(seq![instr]) == encode_instr(instr),
{
    let single = seq![instr];
    assert(single.drop_last() =~= Seq::<Instr>::empty());
    assert(encode(single.drop_last()) =~= Seq::<u8>::empty());
    assert(encode(single) =~= encode_instr(instr));
}

/// How far the code of an instruction lies from the start of the code of its
/// sequence.
pub open spec fn offset(nodes: Seq<Instr>, index: int) -> int {
    encode(nodes.take(index)).len() as int
}

/// The code of a sequence is the code before an instruction, the code of
/// the instruction, and the code after it.
pub proof fn lemma_encode_split(nodes: Seq<Instr>, index: int)
    requires
        0 <= index < nodes.len(),
    ensures
        encode(nodes) == encode(nodes.take(index)) + encode_instr(nodes[index]) + encode(
            nodes.skip(index + 1),
        ),
        offset(nodes, index + 1) == offset(nodes, index) + encode_instr(nodes[index]).len(),
        offset(nodes, index + 1) <= encode(nodes).len(),
{
    let before = nodes.take(index);
    let after = nodes.skip(index + 1);
    assert(nodes =~= before + seq![nodes[index]] + after);
    lemma_encode_concat(before + seq![nodes[index]], after);
    lemma_encode_concat(before, seq![nodes[index]]);
    lemma_encode_single(nodes[index]);
    assert(nodes.take(index + 1) =~= before + seq![nodes[index]]);
}

/// The jumps of every instruction of a sequence that fits do fit.
pub proof fn lemma_fits_index(nodes: Seq<Instr>, index: int)
    requires
        fits(nodes),
        0 <= index < nodes.len(),
    ensures
        instr_fits(nodes[index]),
    decreases nodes.len(),
{
    if index < nodes.len() - 1 {
        lemma_fits_index(nodes.drop_last(), index);
    }
}

/// Whether the frames walk a program: the first frame walks the program, and
/// each other frame walks the body of the loop at which the frame below it
/// stands.
pub open spec fn nested(program: Seq<Instr>, frames: Seq<Position>) -> bool
    decreases frames.len(),
{
    if frames.len() == 0 {
        false
    } else if frames.len() == 1 {
        frames[0].nodes == program
    } else {
        let below = frames[frames.len() - 2];
        &&& nested(program, frames.drop_last())
        &&& below.index < below.nodes.len()
        &&& below.nodes[below.index as int] == Instr::Loop(frames.last().nodes)
    }
}

/// Where in the routine the code of the sequence of the last frame starts:
/// after the prologue, or after the test of the loop that it is the body of.
pub open spec fn base(frames: Seq<Position>) -> int
    decreases frames.len(),
{
    if frames.len() <= 1 {
        23
    } else {
        address(frames.drop_last()) + 11
    }
}

/// Where in the routine the frames stand.
pub open spec fn address(frames: Seq<Position>) -> int
    decreases frames.len(),
{
    if frames.len() == 0 {
        0
    } else if frames.len() == 1 {
        23 + offset(frames[0].nodes, frames[0].index as int)
    } else {
        address(frames.drop_last()) + 11 + offset(
            frames.last().nodes,
            frames.last().index as int,
        )
    }
}

/// Whether every frame stands inside its sequence or at its end.
pub open spec fn in_bounds(frames: Seq<Position>) -> bool {
    forall|i: int| 0 <= i < frames.len() ==> (#[trigger] frames[i]).index <= frames[i].nodes.len()
}

/// What follows the code of the sequence of the last frame: the return of
/// the routine, or the jump back to the test of the loop.
pub open spec fn closing(frames: Seq<Position>) -> Op {
    if frames.len() <= 1 {
        Op::Finish
    } else {
        Op::Back(encode(frames.last().nodes).len() as int + 16)
    }
}

/// The sequences of the frames of a program that fits do fit, and a loop
/// body among them is short enough for its jumps.
pub proof fn lemma_frames_fit(program: Seq<Instr>, frames: Seq<Position>)
    requires
        fits(program),
        nested(program, frames),
    ensures
        fits(frames.last().nodes),
        frames.len() > 1 ==> encode(frames.last().nodes).len() <= MAX_BODY,
    decreases frames.len(),
{
    if frames.len() > 1 {
        let below = frames[frames.len() - 2];
        lemma_frames_fit(program, frames.drop_last());
        assert(frames.drop_last().last() == below);
        lemma_fits_index(below.nodes, below.index as int);
    }
}

/// The code of the sequence of the last frame lies in the routine at its
/// base, and is followed by its closing.
pub proof fn lemma_placed(program: Seq<Instr>, frames: Seq<Position>)
    requires
        nested(program, frames),
        in_bounds(frames),
    ensures
        23 <= base(frames),
        address(frames) == base(frames) + offset(
            frames.last().nodes,
            frames.last().index as int,
        ),
        base(frames) + encode(frames.last().nodes).len() <= image(program).len(),
        image(program).subrange(
            base(frames),
            base(frames) + encode(frames.last().nodes).len(),
        ) == encode(frames.last().nodes),
        fetches(
            image(program),
            base(frames) + encode(frames.last().nodes).len(),
            closing(frames),
        ),
    decreases frames.len(),
{
    let whole = image(program);
    let top = frames.last();
    let inner = encode(top.nodes);
    let length = inner.len() as int;
    if frames.len() == 1 {
        assert(whole.subrange(23, 23 + length) =~= inner);
        assert(whole.subrange(23 + length, 23 + length + 16) =~= finish_code());
    } else {
        let parents = frames.drop_last();
        let below = parents.last();
        assert(below == frames[frames.len() - 2]);
        assert(in_bounds(parents)) by {
            assert forall|i: int| 0 <= i < parents.len() implies (#[trigger] parents[i]).index
                <= parents[i].nodes.len() by {
                assert(parents[i] == frames[i]);
            }
        }
        lemma_placed(program, parents);
        let outer = encode(below.nodes);
        let before = offset(below.nodes, below.index as int);
        lemma_encode_split(below.nodes, below.index as int);
        let test = loop_test_code(length + 5);
        let back = loop_back_code(length + 16);
        assert(encode_instr(below.nodes[below.index as int]) == test + inner + back);
        let start = base(parents);
        let placed = whole.subrange(start, start + outer.len());
        assert(placed == outer);
        assert(whole.subrange(base(frames), base(frames) + length) =~= placed.subrange(
            before + 11,
            before + 11 + length,
        ));
        assert(placed.subrange(before + 11, before + 11 + length) =~= inner);
        assert(whole.subrange(base(frames) + length, base(frames) + length + 5)
            =~= placed.subrange(before + 11 + length, before + 11 + length + 5));
        assert(placed.subrange(before + 11 + length, before + 11 + length + 5) =~= back);
    }
}

/// The sequence that the code of an instruction begins with: the whole of
/// its code, or the test of a loop.
pub open spec fn first_op(instr: Instr) -> Op {
    match instr {
        Instr::MovePointer(delta) => Op::Move(delta),
        Instr::AddToCell(delta) => Op::Add(delta),
        Instr::SetCell(value) => Op::Store(value),
        Instr::Read => Op::Read,
        Instr::Write => Op::Write,
        Instr::Loop(body) => Op::Test(encode(body).len() as int + 5),
    }
}

/// Where the frames stand at an instruction, the routine holds the code of
/// that instruction.
pub proof fn lemma_fetch_instr(program: Seq<Instr>, frames: Seq<Position>)
    requires
        nested(program, frames),
        in_bounds(frames),
        frames.last().index < frames.last().nodes.len(),
    ensures
        fetches(
            image(program),
            address(frames),
            first_op(frames.last().nodes[frames.last().index as int]),
        ),
{
    let whole = image(program);
    let top = frames.last();
    let index = top.index as int;
    let instr = top.nodes[index];
    let code = encode_instr(instr);
    let length = code.len() as int;
    let at = address(frames);
    lemma_placed(program, frames);
    lemma_encode_split(top.nodes, index);
    let start = base(frames);
    let outer = encode(top.nodes);
    let placed = whole.subrange(start, start + outer.len());
    let before = offset(top.nodes, index);
    assert(whole.subrange(at, at + length) =~= placed.subrange(before, before + length));
    assert(placed.subrange(before, before + length) =~= code);
    let op = first_op(instr);
    lemma_op_len(op);
    match instr {
        Instr::Loop(body) => {
            assert(whole.subrange(at, at + 11) =~= whole.subrange(at, at + length).subrange(0, 11));
            assert(code.subrange(0, 11) =~= op_code(op));
        },
        _ => {},
    }
}

/// Whether the processor stands where the interpreter stands: on the same
/// machine, with the same outcome if the run has ended, and else at the
/// code of the interpreter's position.
pub open spec fn related(program: Seq<Instr>, config: Config, cpu: Cpu) -> bool {
    &&& config.wf()
    &&& nested(program, config.frames)
    &&& cpu.machine == config.machine
    &&& cpu.input_closed == config.input_closed
    &&& cpu.returned == config.outcome
    &&& config.outcome is None ==> cpu.at == address(config.frames)
}

/// A step of the interpreter and a step of the processor keep the two
/// together.
pub proof fn lemma_step_related(program: Seq<Instr>, config: Config, cpu: Cpu)
    requires
        fits(program),
        related(program, config, cpu),
    ensures
        related(program, config.advance(), cpu.step(image(program))),
{
    let whole = image(program);
    if config.outcome is None {
        let frames = config.frames;
        let top = frames.last();
        let at = address(frames);
        assert(in_bounds(frames));
        lemma_placed(program, frames);
        lemma_frames_fit(program, frames);
        if top.index >= top.nodes.len() {
            assert(top.nodes.take(top.index as int) =~= top.nodes);
            lemma_decode(whole, at, closing(frames));
        } else {
            let index = top.index as int;
            let instr = top.nodes[index];
            lemma_fetch_instr(program, frames);
            lemma_fits_index(top.nodes, index);
            lemma_decode(whole, at, first_op(instr));
            lemma_encode_split(top.nodes, index);
            let past = config.past();
            assert(past.drop_last() =~= frames.drop_last());
            assert(past.last() == Position { index: top.index + 1, ..top });
            assert(address(past) == at + encode_instr(instr).len());
            assert(nested(program, past)) by {
                if frames.len() > 1 {
                    assert(past[past.len() - 2] == frames[frames.len() - 2]);
                }
            }
            match instr {
                Instr::Loop(body) => {
                    let grown = frames.push(Position { nodes: body, index: 0 });
                    assert(grown.drop_last() =~= frames);
                    assert(body.take(0) =~= Seq::<Instr>::empty());
                    assert(grown[grown.len() - 2] == top);
                    assert(address(grown) == at + 11);
                },
                _ => {},
            }
        }
    }
}

/// Any number of steps of the interpreter, and as many of the processor,
/// keep the two together.
pub proof fn lemma_run_related(program: Seq<Instr>, config: Config, cpu: Cpu, steps: nat)
    requires
        fits(program),
        related(program, config, cpu),
    ensures
        related(program, config.advance_by(steps), cpu.run(image(program), steps)),
    decreases steps,
{
    if steps > 0 {
        lemma_step_related(program, config, cpu);
        lemma_run_related(
            program,
            config.advance(),
            cpu.step(image(program)),
            (steps - 1) as nat,
        );
        if config.progress() != Progress::Running {
            assert(config.advance() == config);
            assert(config.advance_by((steps - 1) as nat) == config);
        }
    }
}

/// The interpreter and the generated routine agree. After its prologue the
/// routine is, sequence for sequence, where the interpreter is step for
/// step: on the same tape, with the same pointer, the same input left and
/// the same output written, and returned with the outcome of the
/// interpreter's run if that has ended. The pointer of the routine is on
/// the tape all the while.
pub proof fn lemma_native_agrees(
    program: Seq<Instr>,
    machine: Machine,
    input_closed: bool,
    steps: nat,
)
    requires
        machine.wf(),
        fits(program),
    ensures
        Cpu::enter(machine, input_closed).run(image(program), steps + 1).machine.wf(),
        Cpu::enter(machine, input_closed).run(image(program), steps + 1).machine == Config::start(
            program,
            machine,
            input_closed,
        ).advance_by(steps).machine,
        Cpu::enter(machine, input_closed).run(image(program), steps + 1).returned == Config::start(
            program,
            machine,
            input_closed,
        ).advance_by(steps).outcome,
{
    let whole = image(program);
    let start = Config::start(program, machine, input_closed);
    let entry = Cpu::enter(machine, input_closed);
    assert(whole.subrange(0, 23) =~= prologue_code());
    lemma_decode(whole, 0, Op::Enter);
    let entered = entry.step(whole);
    assert(program.take(0) =~= Seq::<Instr>::empty());
    assert(related(program, start, entered));
    lemma_run_related(program, start, entered, steps);
}

} // verus!
