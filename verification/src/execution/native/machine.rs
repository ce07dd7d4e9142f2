//! A model of the processor running a generated routine.
//!
//! The model knows the sequences that the code generator emits, and nothing
//! else of the instruction set. It states what each sequence does to the
//! tape, the pointer and the streams, and where the processor goes on; what
//! is proved of the generated code is proved against these statements. The
//! streams are taken not to fail.

use vstd::prelude::*;
use crate::execution::native::codegen::{
    add_code, finish_code, loop_back_code, loop_test_code, move_code, prologue_code, read_code,
    set_code, write_code,
};
use crate::semantics::{Machine, Outcome};
use crate::syntax::Instr;

verus! {

/// One emitted sequence.
pub enum Op {
    /// The prologue.
    Enter,
    /// A checked move of the pointer.
    Move(i32),
    /// An addition to the current cell.
    Add(i8),
    /// A store to the current cell.
    Store(u8),
    /// A call of the read routine.
    Read,
    /// A call of the write routine.
    Write,
    /// The test at the head of a loop, with the distance of its jump.
    Test(int),
    /// The jump at the end of a loop, with the distance it goes back.
    Back(int),
    /// The return of a completed run.
    Finish,
}

/// The bytes of a sequence.
pub open spec fn op_code(op: Op) -> Seq<u8> {
    match op {
        Op::Enter => prologue_code(),
        Op::Move(delta) => move_code(delta),
        Op::Add(delta) => add_code(delta),
        Op::Store(value) => set_code(value),
        Op::Read => read_code(),
        Op::Write => write_code(),
        Op::Test(skip) => loop_test_code(skip),
        Op::Back(back) => loop_back_code(back),
        Op::Finish => finish_code(),
    }
}

/// The number of bytes of a sequence.
pub open spec fn op_len(op: Op) -> int {
    match op {
        Op::Enter => 23,
        Op::Move(_) => 34,
        Op::Add(_) => 5,
        Op::Store(_) => 5,
        Op::Read => 33,
        Op::Write => 34,
        Op::Test(_) => 11,
        Op::Back(_) => 5,
        Op::Finish => 16,
    }
}

/// The signed 32-bit value of the four bytes at an offset, lowest first.
pub open spec fn read32(code: Seq<u8>, at: int) -> int {
    let low = code[at] + 0x100 * code[at + 1] + 0x1_0000 * code[at + 2] + 0x100_0000 * code[at
        + 3];
    if low >= 0x8000_0000 {
        low - 0x1_0000_0000
    } else {
        low
    }
}

/// The signed value of a byte.
pub open spec fn read8(byte: u8) -> int {
    if byte >= 0x80 {
        byte - 0x100
    } else {
        byte as int
    }
}

/// The sequence that the bytes at an offset begin like.
pub open spec fn guess(code: Seq<u8>, at: int) -> Op {
    if code[at] == 0x53 {
        Op::Enter
    } else if code[at] == 0x49 {
        Op::Move(read32(code, at + 3) as i32)
    } else if code[at] == 0x43 {
        if code[at + 1] == 0xc6 {
            Op::Store(code[at + 4])
        } else if code[at + 2] == 0x04 {
            Op::Add(read8(code[at + 4]) as i8)
        } else {
            Op::Test(read32(code, at + 7))
        }
    } else if code[at] == 0xe9 {
        Op::Back(-read32(code, at + 1))
    } else if code[at] == 0x48 {
        if code[at + 3] == 0x4b {
            Op::Read
        } else {
            Op::Write
        }
    } else {
        Op::Finish
    }
}

/// Whether the bytes at an offset are those of a sequence.
pub open spec fn fetches(code: Seq<u8>, at: int, op: Op) -> bool {
    &&& 0 <= at
    &&& at + op_len(op) <= code.len()
    &&& code.subrange(at, at + op_len(op)) == op_code(op)
}

/// The sequence at an offset, if the bytes there are one.
pub open spec fn decode(code: Seq<u8>, at: int) -> Option<Op> {
    if fetches(code, at, guess(code, at)) {
        Some(guess(code, at))
    } else {
        None
    }
}

/// The processor between two sequences of a routine.
pub struct Cpu {
    /// The offset of the next sequence from the start of the routine.
    pub at: int,
    /// The tape, the pointer and the streams.
    pub machine: Machine,
    /// Whether the input has been declared at its end.
    pub input_closed: bool,
    /// The outcome that the routine returned, once it has.
    pub returned: Option<Outcome>,
}

impl Cpu {
    /// The processor at the call of a routine.
    pub open spec fn enter(machine: Machine, input_closed: bool) -> Cpu {
        Cpu { at: 0, machine, input_closed, returned: None }
    }

    /// Whether the processor waits in the read routine: the next sequence is
    /// a read, no byte is buffered, and the input has not been closed.
    pub open spec fn starved(self, code: Seq<u8>) -> bool {
        &&& self.returned is None
        &&& decode(code, self.at) == Some(Op::Read)
        &&& self.machine.input.len() == 0
        &&& !self.input_closed
    }

    /// The processor after the next sequence. A routine that has returned,
    /// or waits for input, or stands where no sequence is, stays as it is.
    pub open spec fn step(self, code: Seq<u8>) -> Cpu {
        if self.returned is Some || self.starved(code) {
            self
        } else {
            match decode(code, self.at) {
                None => self,
                Some(op) => {
                    let next = self.at + op_len(op);
                    match op {
                        Op::Enter => Cpu { at: next, ..self },
                        Op::Move(delta) => if self.machine.can_move(delta) {
                            Cpu {
                                at: next,
                                machine: self.machine.step(Instr::MovePointer(delta)).machine,
                                ..self
                            }
                        } else {
                            Cpu { returned: Some(Outcome::PointerOutOfRange), ..self }
                        },
                        Op::Add(delta) => Cpu {
                            at: next,
                            machine: self.machine.step(Instr::AddToCell(delta)).machine,
                            ..self
                        },
                        Op::Store(value) => Cpu {
                            at: next,
                            machine: self.machine.step(Instr::SetCell(value)).machine,
                            ..self
                        },
                        Op::Read => Cpu {
                            at: next,
                            machine: self.machine.step(Instr::Read).machine,
                            ..self
                        },
                        Op::Write => Cpu {
                            at: next,
                            machine: self.machine.step(Instr::Write).machine,
                            ..self
                        },
                        Op::Test(skip) => if self.machine.cell() == 0 {
                            Cpu { at: next + skip, ..self }
                        } else {
                            Cpu { at: next, ..self }
                        },
                        Op::Back(back) => Cpu { at: next - back, ..self },
                        Op::Finish => Cpu { returned: Some(Outcome::Completed), ..self },
                    }
                },
            }
        }
    }

    /// The processor after a number of sequences.
    pub open spec fn run(self, code: Seq<u8>, steps: nat) -> Cpu
        decreases steps,
    {
        if steps == 0 {
            self
        } else {
            self.step(code).run(code, (steps - 1) as nat)
        }
    }
}

/// Whether the distances of a sequence fit in its 32 bits.
pub open spec fn op_valid(op: Op) -> bool {
    match op {
        Op::Test(skip) => 0 <= skip <= 0x7fff_ffff,
        Op::Back(back) => 0 < back <= 0x7fff_ffff,
        _ => true,
    }
}

/// The bytes of a sequence are as many as its length says.
pub proof fn lemma_op_len(op: Op)
    ensures
        op_code(op).len() == op_len(op),
{
}

/// Reading back the four bytes of a value gives the value.
pub proof fn lemma_read32(code: Seq<u8>, at: int, value: int)
    requires
        -0x8000_0000 <= value <= 0x7fff_ffff,
        0 <= at,
        at + 4 <= code.len(),
        code.subrange(at, at + 4) == crate::execution::native::codegen::le32(value),
    ensures
        read32(code, at) == value,
{
    let bytes = code.subrange(at, at + 4);
    assert(bytes[0] == code[at]);
    assert(bytes[1] == code[at + 1]);
    assert(bytes[2] == code[at + 2]);
    assert(bytes[3] == code[at + 3]);
}

/// Where the bytes of a sequence lie, the processor finds that sequence.
pub proof fn lemma_decode(code: Seq<u8>, at: int, op: Op)
    requires
        fetches(code, at, op),
        op_valid(op),
    ensures
        decode(code, at) == Some(op),
{
    let bytes = code.subrange(at, at + op_len(op));
    assert(bytes[0] == code[at]);
    match op {
        Op::Move(delta) => {
            assert(code.subrange(at + 3, at + 7) =~= bytes.subrange(3, 7));
            assert(bytes.subrange(3, 7) =~= crate::execution::native::codegen::le32(delta as int));
            lemma_read32(code, at + 3, delta as int);
        },
        Op::Add(delta) => {
            assert(bytes[1] == code[at + 1]);
            assert(bytes[2] == code[at + 2]);
            assert(bytes[4] == code[at + 4]);
        },
        Op::Store(value) => {
            assert(bytes[1] == code[at + 1]);
            assert(bytes[4] == code[at + 4]);
        },
        Op::Test(skip) => {
            assert(bytes[1] == code[at + 1]);
            assert(bytes[2] == code[at + 2]);
            assert(code.subrange(at + 7, at + 11) =~= bytes.subrange(7, 11));
            assert(bytes.subrange(7, 11) =~= crate::execution::native::codegen::le32(skip));
            lemma_read32(code, at + 7, skip);
        },
        Op::Back(back) => {
            assert(code.subrange(at + 1, at + 5) =~= bytes.subrange(1, 5));
            assert(bytes.subrange(1, 5) =~= crate::execution::native::codegen::le32(-back));
            lemma_read32(code, at + 1, -back);
        },
        Op::Read => {
            assert(bytes[3] == code[at + 3]);
        },
        Op::Write => {
            assert(bytes[3] == code[at + 3]);
        },
        _ => {},
    }
}

} // verus!
