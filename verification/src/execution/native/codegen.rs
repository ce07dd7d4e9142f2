//! The code generator for x86-64.
//!
//! The generated routine follows the System V calling convention. It takes
//! one argument, the address of a context block, and returns an outcome code
//! in `eax`. The context block holds, as five 8-byte fields in this order:
//! the address of the tape, the number of cells, the pointer, the address of
//! the routine that reads a byte, and the address of the routine that writes
//! one. The read routine takes the context and the address of the current
//! cell; the write routine takes the context and the value of the current
//! cell; both return zero unless the stream failed.
//!
//! While the routine runs, `rbx` holds the context, `r12` the address of the
//! tape, `r13` the pointer and `r14` the number of cells. The pointer is
//! stored back to the context wherever the routine returns.

use vstd::prelude::*;
use crate::semantics::Outcome;
use crate::syntax::{lemma_models_index, lemma_models_len, models, Instr, Instruction};

verus! {

/// The code that the routine returns for an outcome.
pub open spec fn outcome_code(outcome: Outcome) -> u8 {
    match outcome {
        Outcome::Completed => 0,
        Outcome::PointerOutOfRange => 1,
        Outcome::IoFailure => 2,
    }
}

/// The longest encoding of a loop body whose jumps still fit in 32 bits.
pub const MAX_BODY: usize = 0x7fff_ffef;

/// The four bytes of a 32-bit value in two's complement, lowest first.
pub open spec fn le32(value: int) -> Seq<u8> {
    let low = value % 0x1_0000_0000;
    seq![
        (low % 0x100) as u8,
        (low / 0x100 % 0x100) as u8,
        (low / 0x1_0000 % 0x100) as u8,
        (low / 0x100_0000) as u8,
    ]
}

/// The byte of an 8-bit value in two's complement.
pub open spec fn le8(value: int) -> u8 {
    (value % 0x100) as u8
}

/// Saves the registers that the routine uses, and loads the context, the
/// tape address, the number of cells and the pointer.
pub open spec fn prologue_code() -> Seq<u8> {
    seq![
        0x53u8, 0x41, 0x54, 0x41, 0x55, 0x41, 0x56, 0x41, 0x57, 0x48, 0x89, 0xfb, 0x4c, 0x8b, 0x23,
        0x4c, 0x8b, 0x73, 0x08, 0x4c, 0x8b, 0x6b, 0x10,
    ]
}

/// Stores the pointer to the context, restores the saved registers and
/// returns.
pub open spec fn exit_code() -> Seq<u8> {
    seq![0x4cu8, 0x89, 0x6b, 0x10, 0x41, 0x5f, 0x41, 0x5e, 0x41, 0x5d, 0x41, 0x5c, 0x5b, 0xc3]
}

/// Returns with the code of an outcome.
pub open spec fn return_code(outcome: Outcome) -> Seq<u8> {
    seq![0xb8u8, outcome_code(outcome), 0x00, 0x00, 0x00] + exit_code()
}

/// Returns with the code for a run that completed.
pub open spec fn finish_code() -> Seq<u8> {
    seq![0x31u8, 0xc0] + exit_code()
}

/// Adds the delta to the pointer in `rax`, returns with the code for a
/// pointer off the tape unless the sum is below the number of cells, and
/// makes the sum the pointer.
pub open spec fn move_code(delta: i32) -> Seq<u8> {
    seq![0x49u8, 0x8d, 0x85] + le32(delta as int) + seq![0x4cu8, 0x39, 0xf0, 0x72, 0x13]
        + return_code(Outcome::PointerOutOfRange) + seq![0x49u8, 0x89, 0xc5]
}

/// Adds the delta to the byte at the pointer.
pub open spec fn add_code(delta: i8) -> Seq<u8> {
    seq![0x43u8, 0x80, 0x04, 0x2c, le8(delta as int)]
}

/// Stores the value in the byte at the pointer.
pub open spec fn set_code(value: u8) -> Seq<u8> {
    seq![0x43u8, 0xc6, 0x04, 0x2c, value]
}

/// Calls the read routine with the context and the address of the current
/// cell, and returns with the code for a failed stream unless it gave zero.
pub open spec fn read_code() -> Seq<u8> {
    seq![0x48u8, 0x89, 0xdf, 0x4b, 0x8d, 0x34, 0x2c, 0xff, 0x53, 0x18, 0x85, 0xc0, 0x74, 0x13]
        + return_code(Outcome::IoFailure)
}

/// Calls the write routine with the context and the value of the current
/// cell, and returns with the code for a failed stream unless it gave zero.
pub open spec fn write_code() -> Seq<u8> {
    seq![
        0x48u8, 0x89, 0xdf, 0x43, 0x0f, 0xb6, 0x34, 0x2c, 0xff, 0x53, 0x20, 0x85, 0xc0, 0x74, 0x13,
    ] + return_code(Outcome::IoFailure)
}

/// Compares the byte at the pointer with zero and, if it is zero, jumps
/// forward over `skip` bytes.
pub open spec fn loop_test_code(skip: int) -> Seq<u8> {
    seq![0x43u8, 0x80, 0x3c, 0x2c, 0x00, 0x0f, 0x84] + le32(skip)
}

/// Jumps back over `back` bytes, counted from the end of the jump.
pub open spec fn loop_back_code(back: int) -> Seq<u8> {
    seq![0xe9u8] + le32(-back)
}

/// The length of the test at the head of a loop.
pub open spec fn loop_test_len() -> int {
    11
}

/// The length of the jump at the end of a loop.
pub open spec fn loop_back_len() -> int {
    5
}

/// The code of one instruction. A loop is its test, its body, and a jump
/// back to the test; the test jumps over the body and that jump.
pub open spec fn encode_instr(instr: Instr) -> Seq<u8>
    decreases instr, 0nat,
{
    match instr {
        Instr::MovePointer(delta) => move_code(delta),
        Instr::AddToCell(delta) => add_code(delta),
        Instr::SetCell(value) => set_code(value),
        Instr::Read => read_code(),
        Instr::Write => write_code(),
        Instr::Loop(body) => {
            let inner = encode(body);
            loop_test_code(inner.len() + loop_back_len()) + inner + loop_back_code(
                inner.len() + loop_test_len() + loop_back_len(),
            )
        },
    }
}

/// The code of a sequence: the code of its instructions, one after another.
pub open spec fn encode(nodes: Seq<Instr>) -> Seq<u8>
    decreases nodes, 1nat,
{
    if nodes.len() == 0 {
        Seq::empty()
    } else {
        encode(nodes.drop_last()) + encode_instr(nodes.last())
    }
}

/// Whether the jumps of every loop of an instruction fit in 32 bits.
pub open spec fn instr_fits(instr: Instr) -> bool
    decreases instr, 0nat,
{
    match instr {
        Instr::Loop(body) => fits(body) && encode(body).len() <= MAX_BODY,
        _ => true,
    }
}

/// Whether the jumps of every loop of a sequence fit in 32 bits.
pub open spec fn fits(nodes: Seq<Instr>) -> bool
    decreases nodes, 1nat,
{
    nodes.len() == 0 || (fits(nodes.drop_last()) && instr_fits(nodes.last()))
}

/// The whole routine for a program.
pub open spec fn image(program: Seq<Instr>) -> Seq<u8> {
    prologue_code() + encode(program) + finish_code()
}

/// Why no code was generated.
#[derive(Clone, Copy, Debug, PartialEq, Eq, Structural)]
pub enum CodegenError {
    /// The body of a loop is too long for a 32-bit jump.
    LoopTooLong,
}

/// The generated routine, as bytes.
pub struct Executor {
    code: Vec<u8>,
}

impl View for Executor {
    type V = Seq<u8>;

    closed spec fn view(&self) -> Seq<u8> {
        self.code@
    }
}

impl Executor {
    /// The bytes of the routine, in the order in which they lie in memory.
    pub fn code(&self) -> (code: &Vec<u8>)
        ensures
            code@ == self@,
    {
        &self.code
    }

    /// Gives up the executor for its bytes.
    pub fn into_code(self) -> (code: Vec<u8>)
        ensures
            code@ == self@,
    {
        self.code
    }
}

/// The outcome that a returned code stands for, if it stands for one.
pub open spec fn outcome_with_code(code: u64) -> Option<Outcome> {
    if code == 0 {
        Some(Outcome::Completed)
    } else if code == 1 {
        Some(Outcome::PointerOutOfRange)
    } else if code == 2 {
        Some(Outcome::IoFailure)
    } else {
        None
    }
}

/// The outcome that a returned code stands for.
pub fn outcome_of_code(code: u64) -> (outcome: Option<Outcome>)
    ensures
        outcome == outcome_with_code(code),
        outcome matches Some(found) ==> outcome_code(found) == code,
{
    if code == 0 {
        Some(Outcome::Completed)
    } else if code == 1 {
        Some(Outcome::PointerOutOfRange)
    } else if code == 2 {
        Some(Outcome::IoFailure)
    } else {
        None
    }
}

/// An instruction set that code can be generated for.
#[derive(Clone, Copy, Debug, PartialEq, Eq, Structural)]
pub enum Target {
    /// The 64-bit x86 instruction set, with the System V calling convention.
    X86_64,
}

/// A code generator.
#[derive(Clone, Copy, Debug)]
pub struct CodeGeneration {
    target: Target,
}

impl CodeGeneration {
    /// The instruction set that the generator emits.
    pub closed spec fn target_of(&self) -> Target {
        self.target
    }

    /// The generator for x86-64.
    pub fn x86_x64() -> (generator: CodeGeneration)
        ensures
            generator.target_of() == Target::X86_64,
    {
        CodeGeneration { target: Target::X86_64 }
    }

    /// The instruction set that the generator emits.
    pub fn target(&self) -> (target: Target)
        ensures
            target == self.target_of(),
    {
        self.target
    }

    /// Lowers a program to a routine. Refused only where the body of a loop
    /// is too long for the 32-bit jumps around it.
    pub fn generate(&self, program: &Vec<Instruction>) -> (result: Result<Executor, CodegenError>)
        ensures
            match result {
                Ok(executor) => fits(models(program@)) && executor@ == image(models(program@)),
                Err(CodegenError::LoopTooLong) => !fits(models(program@)),
            },
    {
        let mut code: Vec<u8> = Vec::new();
        emit_prologue(&mut code);
        if !emit_nodes(&mut code, program) {
            return Err(CodegenError::LoopTooLong);
        }
        emit_finish(&mut code);
        Ok(Executor { code })
    }
}

/// Appends bytes to a buffer.
fn append(out: &mut Vec<u8>, bytes: &[u8])
    ensures
        final(out)@ == old(out)@ + bytes@,
{
    let mut i: usize = 0;
    while i < bytes.len()
        invariant
            i <= bytes@.len(),
            out@ == old(out)@ + bytes@.take(i as int),
        decreases bytes@.len() - i,
    {
        out.push(bytes[i]);
        assert(bytes@.take(i + 1) =~= bytes@.take(i as int).push(bytes@[i as int]));
        i += 1;
    }
    assert(bytes@.take(i as int) =~= bytes@);
}

/// The four bytes of a value below 2^32, lowest first.
fn bytes_of(low: u32) -> (bytes: [u8; 4])
    ensures
        bytes@ == le32(low as int),
{
    let bytes: [u8; 4] = [
        (low % 0x100) as u8,
        (low / 0x100 % 0x100) as u8,
        (low / 0x1_0000 % 0x100) as u8,
        (low / 0x100_0000) as u8,
    ];
    assert(bytes@ =~= le32(low as int));
    bytes
}

/// The 32-bit two's complement of a value, as an unsigned number.
fn twos_complement(value: i64) -> (low: u32)
    requires
        -0x8000_0000 <= value <= 0x7fff_ffff,
    ensures
        le32(low as int) == le32(value as int),
{
    if value < 0 {
        (value + 0x1_0000_0000) as u32
    } else {
        value as u32
    }
}

fn emit_prologue(out: &mut Vec<u8>)
    ensures
        final(out)@ == old(out)@ + prologue_code(),
{
    let bytes: [u8; 23] = [
        0x53, 0x41, 0x54, 0x41, 0x55, 0x41, 0x56, 0x41, 0x57, 0x48, 0x89, 0xfb, 0x4c, 0x8b, 0x23,
        0x4c, 0x8b, 0x73, 0x08, 0x4c, 0x8b, 0x6b, 0x10,
    ];
    assert(bytes@ =~= prologue_code());
    append(out, &bytes);
}

fn emit_exit(out: &mut Vec<u8>)
    ensures
        final(out)@ == old(out)@ + exit_code(),
{
    let bytes: [u8; 14] = [
        0x4c, 0x89, 0x6b, 0x10, 0x41, 0x5f, 0x41, 0x5e, 0x41, 0x5d, 0x41, 0x5c, 0x5b, 0xc3,
    ];
    assert(bytes@ =~= exit_code());
    append(out, &bytes);
}

fn emit_return(out: &mut Vec<u8>, outcome: Outcome)
    ensures
        final(out)@ == old(out)@ + return_code(outcome),
{
    let code: u8 = match outcome {
        Outcome::Completed => 0,
        Outcome::PointerOutOfRange => 1,
        Outcome::IoFailure => 2,
    };
    let bytes: [u8; 5] = [0xb8, code, 0x00, 0x00, 0x00];
    assert(bytes@ =~= seq![0xb8u8, outcome_code(outcome), 0x00, 0x00, 0x00]);
    append(out, &bytes);
    emit_exit(out);
    assert(out@ =~= old(out)@ + return_code(outcome));
}

fn emit_finish(out: &mut Vec<u8>)
    ensures
        final(out)@ == old(out)@ + finish_code(),
{
    let bytes: [u8; 2] = [0x31, 0xc0];
    assert(bytes@ =~= seq![0x31u8, 0xc0]);
    append(out, &bytes);
    emit_exit(out);
    assert(out@ =~= old(out)@ + finish_code());
}

fn emit_move(out: &mut Vec<u8>, delta: i32)
    ensures
        final(out)@ == old(out)@ + move_code(delta),
{
    let head: [u8; 3] = [0x49, 0x8d, 0x85];
    assert(head@ =~= seq![0x49u8, 0x8d, 0x85]);
    append(out, &head);
    let offset = bytes_of(twos_complement(delta as i64));
    append(out, &offset);
    let check: [u8; 5] = [0x4c, 0x39, 0xf0, 0x72, 0x13];
    assert(check@ =~= seq![0x4cu8, 0x39, 0xf0, 0x72, 0x13]);
    append(out, &check);
    emit_return(out, Outcome::PointerOutOfRange);
    let commit: [u8; 3] = [0x49, 0x89, 0xc5];
    assert(commit@ =~= seq![0x49u8, 0x89, 0xc5]);
    append(out, &commit);
    assert(out@ =~= old(out)@ + move_code(delta));
}

fn emit_add(out: &mut Vec<u8>, delta: i8)
    ensures
        final(out)@ == old(out)@ + add_code(delta),
{
    let low: u8 = if delta < 0 {
        (delta as i16 + 0x100) as u8
    } else {
        delta as u8
    };
    let bytes: [u8; 5] = [0x43, 0x80, 0x04, 0x2c, low];
    assert(bytes@ =~= add_code(delta));
    append(out, &bytes);
}

fn emit_set(out: &mut Vec<u8>, value: u8)
    ensures
        final(out)@ == old(out)@ + set_code(value),
{
    let bytes: [u8; 5] = [0x43, 0xc6, 0x04, 0x2c, value];
    assert(bytes@ =~= set_code(value));
    append(out, &bytes);
}

fn emit_read(out: &mut Vec<u8>)
    ensures
        final(out)@ == old(out)@ + read_code(),
{
    let bytes: [u8; 14] = [
        0x48, 0x89, 0xdf, 0x4b, 0x8d, 0x34, 0x2c, 0xff, 0x53, 0x18, 0x85, 0xc0, 0x74, 0x13,
    ];
    assert(bytes@ =~= seq![
        0x48u8, 0x89, 0xdf, 0x4b, 0x8d, 0x34, 0x2c, 0xff, 0x53, 0x18, 0x85, 0xc0, 0x74, 0x13,
    ]);
    append(out, &bytes);
    emit_return(out, Outcome::IoFailure);
    assert(out@ =~= old(out)@ + read_code());
}

fn emit_write(out: &mut Vec<u8>)
    ensures
        final(out)@ == old(out)@ + write_code(),
{
    let bytes: [u8; 15] = [
        0x48, 0x89, 0xdf, 0x43, 0x0f, 0xb6, 0x34, 0x2c, 0xff, 0x53, 0x20, 0x85, 0xc0, 0x74, 0x13,
    ];
    assert(bytes@ =~= seq![
        0x48u8, 0x89, 0xdf, 0x43, 0x0f, 0xb6, 0x34, 0x2c, 0xff, 0x53, 0x20, 0x85, 0xc0, 0x74, 0x13,
    ]);
    append(out, &bytes);
    emit_return(out, Outcome::IoFailure);
    assert(out@ =~= old(out)@ + write_code());
}

/// Emits the test at the head of a loop with a jump over nothing, to be
/// patched once the length of the body is known.
fn emit_loop_test(out: &mut Vec<u8>)
    ensures
        final(out)@ == old(out)@ + loop_test_code(0),
{
    let bytes: [u8; 11] = [0x43, 0x80, 0x3c, 0x2c, 0x00, 0x0f, 0x84, 0x00, 0x00, 0x00, 0x00];
    assert(bytes@ =~= loop_test_code(0));
    append(out, &bytes);
}

/// Writes the distance of the jump into the test that ends at `end`.
fn patch_loop_test(out: &mut Vec<u8>, end: usize, skip: u32)
    requires
        11 <= end <= old(out)@.len(),
        old(out)@.subrange(end - 11, end as int) == loop_test_code(0),
    ensures
        final(out)@ == old(out)@.subrange(0, end - 11) + loop_test_code(skip as int) + old(
            out,
        )@.subrange(end as int, old(out)@.len() as int),
{
    let bytes = bytes_of(skip);
    out.set(end - 4, bytes[0]);
    out.set(end - 3, bytes[1]);
    out.set(end - 2, bytes[2]);
    out.set(end - 1, bytes[3]);
    proof {
        let before = old(out)@;
        let test = before.subrange(end - 11, end as int);
        let expected = before.subrange(0, end - 11) + loop_test_code(skip as int)
            + before.subrange(end as int, before.len() as int);
        assert(out@.len() == expected.len());
        assert forall|k: int| 0 <= k < out@.len() implies out@[k] == expected[k] by {
            if end - 11 <= k < end - 4 {
                assert(test[k - (end - 11)] == before[k]);
            }
        }
        assert(out@ =~= expected);
    }
}

fn emit_loop_back(out: &mut Vec<u8>, back: u32)
    requires
        0 < back <= 0x8000_0000,
    ensures
        final(out)@ == old(out)@ + loop_back_code(back as int),
{
    let head: [u8; 1] = [0xe9];
    assert(head@ =~= seq![0xe9u8]);
    append(out, &head);
    let offset = bytes_of(twos_complement(-(back as i64)));
    append(out, &offset);
    assert(out@ =~= old(out)@ + loop_back_code(back as int));
}

/// Emits the code of a sequence, and says whether all of its jumps fit. The
/// buffer holds no more than it held before where they do not.
fn emit_nodes(out: &mut Vec<u8>, nodes: &Vec<Instruction>) -> (fitting: bool)
    ensures
        fitting == fits(models(nodes@)),
        fitting ==> final(out)@ == old(out)@ + encode(models(nodes@)),
    decreases nodes,
{
    let mut i: usize = 0;
    proof {
        lemma_models_len(nodes@);
        assert(models(nodes@).take(0) =~= Seq::<Instr>::empty());
        assert(out@ + Seq::<u8>::empty() =~= out@);
    }
    while i < nodes.len()
        invariant
            i <= nodes@.len(),
            models(nodes@).len() == nodes@.len(),
            fits(models(nodes@).take(i as int)),
            out@ == old(out)@ + encode(models(nodes@).take(i as int)),
        decreases nodes@.len() - i,
    {
        let ghost done = models(nodes@).take(i as int);
        let ghost next = models(nodes@).take(i + 1);
        let ghost before = out@;
        proof {
            lemma_models_index(nodes@, i as int);
            assert(next.drop_last() =~= done);
            assert(next.last() == nodes@[i as int].model());
        }
        match &nodes[i] {
            Instruction::MovePointer(delta) => emit_move(out, *delta),
            Instruction::AddToCell(delta) => emit_add(out, *delta),
            Instruction::SetCell(value) => emit_set(out, *value),
            Instruction::Read => emit_read(out),
            Instruction::Write => emit_write(out),
            Instruction::Loop { body } => {
                emit_loop_test(out);
                let start = out.len();
                let fitting = emit_nodes(out, body);
                if !fitting || out.len() - start > MAX_BODY {
                    proof {
                        assert(!instr_fits(next.last()));
                        assert(!fits(next));
                        lemma_fits_prefix(models(nodes@), i + 1);
                    }
                    return false;
                }
                let length = out.len() - start;
                let ghost inner = encode(models(body@));
                let ghost unpatched = out@;
                proof {
                    assert(unpatched =~= before + loop_test_code(0) + inner);
                    assert(unpatched.subrange(start - 11, start as int) =~= loop_test_code(0));
                }
                patch_loop_test(out, start, (length + 5) as u32);
                proof {
                    assert(unpatched.subrange(0, start - 11) =~= before);
                    assert(unpatched.subrange(start as int, unpatched.len() as int) =~= inner);
                }
                emit_loop_back(out, (length + 16) as u32);
                proof {
                    assert(out@ =~= before + encode_instr(next.last()));
                    assert(instr_fits(next.last()));
                }
            },
        }
        proof {
            assert(instr_fits(next.last()));
            assert(fits(next));
            assert(out@ == before + encode_instr(next.last()));
            assert(encode(next) == encode(done) + encode_instr(next.last()));
            assert(out@ =~= old(out)@ + encode(next));
        }
        i += 1;
    }
    proof {
        assert(models(nodes@).take(i as int) =~= models(nodes@));
    }
    true
}

/// A sequence with a prefix whose jumps do not fit does not fit.
proof fn lemma_fits_prefix(nodes: Seq<Instr>, upto: int)
    requires
        0 <= upto <= nodes.len(),
        !fits(nodes.take(upto)),
    ensures
        !fits(nodes),
    decreases nodes.len() - upto,
{
    if upto < nodes.len() {
        assert(nodes.take(upto + 1).drop_last() =~= nodes.take(upto));
        lemma_fits_prefix(nodes, upto + 1);
    } else {
        assert(nodes.take(upto) =~= nodes);
    }
}

} // verus!
