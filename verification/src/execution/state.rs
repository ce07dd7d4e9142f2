//! The runtime state: the tape, the pointer, and the two byte streams.
//!
//! The streams are buffers. Whoever drives a run feeds the input buffer and
//! drains the output buffer; the state never touches a device itself.

use vstd::prelude::*;
use crate::semantics::{add_wrapping, Machine};
use crate::syntax::Instr;

verus! {

/// What a read from the input found.
#[derive(Clone, Copy, Debug, PartialEq, Eq, Structural)]
pub enum Fetch {
    /// A byte was read into the current cell.
    Byte,
    /// The input has ended; the current cell is as it was.
    End,
    /// No byte is buffered, and the input has not ended yet.
    Starved,
}

/// A tape of zeroes.
fn zeroed(tape_size: usize) -> (tape: Vec<u8>)
    ensures
        tape@.len() == tape_size,
        forall|i: int| 0 <= i < tape@.len() ==> tape@[i] == 0u8,
{
    let mut tape: Vec<u8> = Vec::new();
    while tape.len() < tape_size
        invariant
            tape@.len() <= tape_size,
            forall|i: int| 0 <= i < tape@.len() ==> tape@[i] == 0u8,
        decreases tape_size - tape@.len(),
    {
        tape.push(0u8);
    }
    tape
}

/// The state that a program runs against.
pub struct State {
    tape: Vec<u8>,
    pointer: usize,
    input: Vec<u8>,
    consumed: usize,
    input_closed: bool,
    output: Vec<u8>,
    drained: Ghost<Seq<u8>>,
}

impl View for State {
    type V = Machine;

    /// The machine that this state stands for. Its input is what has been
    /// fed and not read yet; its output is all that was ever written,
    /// drained or not.
    closed spec fn view(&self) -> Machine {
        Machine {
            tape: self.tape@,
            pointer: self.pointer as int,
            input: self.input@.skip(self.consumed as int),
            output: self.drained@ + self.output@,
        }
    }
}

impl State {
    /// The pointer is on the tape, and no more input was read than was fed.
    pub closed spec fn wf(&self) -> bool {
        &&& self.pointer < self.tape@.len()
        &&& self.consumed <= self.input@.len()
    }

    /// Whether the input has been declared at its end.
    pub closed spec fn input_closed(&self) -> bool {
        self.input_closed
    }

    /// How many of the bytes written have been drained.
    pub closed spec fn drained(&self) -> nat {
        self.drained@.len()
    }

    /// The bytes written and not drained yet.
    pub open spec fn pending_output(&self) -> Seq<u8> {
        self@.output.skip(self.drained() as int)
    }

    /// A well-formed state stands for a well-formed machine, and has drained
    /// no more than was written.
    pub proof fn lemma_wf(&self)
        requires
            self.wf(),
        ensures
            self@.wf(),
            self.drained() <= self@.output.len(),
    {
    }

    /// A state with a zeroed tape of `tape_size` cells, the pointer on the
    /// first cell, no input fed yet and nothing written.
    pub fn new(tape_size: usize) -> (state: State)
        requires
            tape_size >= 1,
        ensures
            state.wf(),
            state@ == Machine::fresh(tape_size as nat, Seq::empty()),
            !state.input_closed(),
            state.drained() == 0,
    {
        let tape = zeroed(tape_size);
        let state = State {
            tape,
            pointer: 0,
            input: Vec::new(),
            consumed: 0,
            input_closed: false,
            output: Vec::new(),
            drained: Ghost(Seq::empty()),
        };
        assert(state@.tape =~= Machine::fresh(tape_size as nat, Seq::empty()).tape);
        assert(state@.input =~= Seq::<u8>::empty());
        assert(state@.output =~= Seq::<u8>::empty());
        state
    }

    /// A state like [`State::new`] whose whole input is given at once.
    pub fn with_input(tape_size: usize, input: Vec<u8>) -> (state: State)
        requires
            tape_size >= 1,
        ensures
            state.wf(),
            state@ == Machine::fresh(tape_size as nat, input@),
            state.input_closed(),
            state.drained() == 0,
    {
        let state = State {
            tape: zeroed(tape_size),
            pointer: 0,
            input,
            consumed: 0,
            input_closed: true,
            output: Vec::new(),
            drained: Ghost(Seq::empty()),
        };
        assert(state@.tape =~= Machine::fresh(tape_size as nat, input@).tape);
        assert(state@.input =~= input@);
        assert(state@.output =~= Seq::<u8>::empty());
        state
    }

    /// The number of cells.
    pub fn tape_size(&self) -> (size: usize)
        ensures
            size == self@.tape.len(),
    {
        self.tape.len()
    }

    /// The cells.
    pub fn tape(&self) -> (tape: &Vec<u8>)
        ensures
            tape@ == self@.tape,
    {
        &self.tape
    }

    /// The index of the current cell.
    pub fn pointer(&self) -> (pointer: usize)
        ensures
            pointer == self@.pointer,
    {
        self.pointer
    }

    /// The value of the current cell.
    pub fn cell(&self) -> (value: u8)
        requires
            self.wf(),
        ensures
            value == self@.cell(),
    {
        self.tape[self.pointer]
    }

    /// Whether a byte of input is buffered.
    pub fn has_input(&self) -> (buffered: bool)
        requires
            self.wf(),
        ensures
            buffered == (self@.input.len() > 0),
    {
        self.consumed < self.input.len()
    }

    /// Whether the input has been declared at its end.
    pub fn is_input_closed(&self) -> (closed: bool)
        ensures
            closed == self.input_closed(),
    {
        self.input_closed
    }

    /// Moves the pointer by `delta` if that keeps it on the tape, and says
    /// whether it did. A refused move changes nothing.
    pub fn move_pointer(&mut self, delta: i32) -> (moved: bool)
        requires
            old(self).wf(),
        ensures
            final(self).wf(),
            moved == old(self)@.can_move(delta),
            final(self)@ == old(self)@.step(Instr::MovePointer(delta)).machine,
            final(self).input_closed() == old(self).input_closed(),
            final(self).drained() == old(self).drained(),
    {
        let target: i128 = self.pointer as i128 + delta as i128;
        if 0 <= target && target < self.tape.len() as i128 {
            self.pointer = target as usize;
            true
        } else {
            false
        }
    }

    /// Adds `delta` to the current cell, modulo 256.
    pub fn add_to_cell(&mut self, delta: i8)
        requires
            old(self).wf(),
        ensures
            final(self).wf(),
            final(self)@ == old(self)@.with_cell(add_wrapping(old(self)@.cell(), delta)),
            final(self).input_closed() == old(self).input_closed(),
            final(self).drained() == old(self).drained(),
    {
        let value = self.tape[self.pointer].wrapping_add_signed(delta);
        self.tape.set(self.pointer, value);
    }

    /// Overwrites the current cell.
    pub fn set_cell(&mut self, value: u8)
        requires
            old(self).wf(),
        ensures
            final(self).wf(),
            final(self)@ == old(self)@.with_cell(value),
            final(self).input_closed() == old(self).input_closed(),
            final(self).drained() == old(self).drained(),
    {
        self.tape.set(self.pointer, value);
    }

    /// Writes the current cell to the output.
    pub fn write(&mut self)
        requires
            old(self).wf(),
        ensures
            final(self).wf(),
            final(self)@ == old(self)@.step(Instr::Write).machine,
            final(self).input_closed() == old(self).input_closed(),
            final(self).drained() == old(self).drained(),
    {
        let value = self.tape[self.pointer];
        self.output.push(value);
        assert(self.drained@ + old(self).output@.push(value) =~= (self.drained@ + old(self).output@).push(value));
    }

    /// Reads one byte of input into the current cell. At the end of the
    /// input the cell stays as it is. Where no byte is buffered and the
    /// input has not ended, nothing changes and the read has to be tried
    /// again once input was fed.
    pub fn read(&mut self) -> (fetch: Fetch)
        requires
            old(self).wf(),
        ensures
            final(self).wf(),
            final(self).input_closed() == old(self).input_closed(),
            final(self).drained() == old(self).drained(),
            fetch == (if old(self)@.input.len() > 0 {
                Fetch::Byte
            } else if old(self).input_closed() {
                Fetch::End
            } else {
                Fetch::Starved
            }),
            fetch != Fetch::Starved ==> final(self)@ == old(self)@.step(Instr::Read).machine,
            fetch == Fetch::Starved ==> final(self)@ == old(self)@,
    {
        if self.consumed < self.input.len() {
            let value = self.input[self.consumed];
            self.tape.set(self.pointer, value);
            self.consumed = self.consumed + 1;
            assert(self.input@.skip(self.consumed as int) =~= old(self)@.input.skip(1));
            Fetch::Byte
        } else if self.input_closed {
            Fetch::End
        } else {
            Fetch::Starved
        }
    }

    /// Appends bytes to the input. Input that was closed stays closed, and
    /// takes no more bytes.
    pub fn feed(&mut self, bytes: &Vec<u8>) -> (taken: bool)
        requires
            old(self).wf(),
        ensures
            final(self).wf(),
            taken == !old(self).input_closed(),
            final(self).input_closed() == old(self).input_closed(),
            final(self).drained() == old(self).drained(),
            final(self)@ == (if taken {
                Machine { input: old(self)@.input + bytes@, ..old(self)@ }
            } else {
                old(self)@
            }),
    {
        if self.input_closed {
            return false;
        }
        let mut i: usize = 0;
        while i < bytes.len()
            invariant
                i <= bytes@.len(),
                self.wf(),
                self.tape == old(self).tape,
                self.pointer == old(self).pointer,
                self.consumed == old(self).consumed,
                self.input_closed == old(self).input_closed,
                self.output == old(self).output,
                self.drained == old(self).drained,
                self.input@ == old(self).input@ + bytes@.take(i as int),
            decreases bytes@.len() - i,
        {
            self.input.push(bytes[i]);
            assert(bytes@.take(i + 1) =~= bytes@.take(i as int).push(bytes@[i as int]));
            i += 1;
        }
        assert(bytes@.take(i as int) =~= bytes@);
        assert(self.input@.skip(self.consumed as int) =~= old(self)@.input + bytes@);
        true
    }

    /// Declares the input at its end: from now on a read that finds no byte
    /// leaves the cell as it is.
    pub fn close_input(&mut self)
        requires
            old(self).wf(),
        ensures
            final(self).wf(),
            final(self).input_closed(),
            final(self)@ == old(self)@,
            final(self).drained() == old(self).drained(),
    {
        self.input_closed = true;
    }

    /// Hands out the bytes written since the last drain.
    pub fn drain_output(&mut self) -> (bytes: Vec<u8>)
        requires
            old(self).wf(),
        ensures
            final(self).wf(),
            bytes@ == old(self).pending_output(),
            final(self).drained() == old(self)@.output.len(),
            final(self)@ == old(self)@,
            final(self).input_closed() == old(self).input_closed(),
    {
        let mut bytes: Vec<u8> = Vec::new();
        std::mem::swap(&mut bytes, &mut self.output);
        proof {
            self.drained@ = self.drained@ + bytes@;
        }
        assert(self.drained@ + self.output@ =~= old(self).drained@ + old(self).output@);
        assert(bytes@ =~= old(self)@.output.skip(old(self).drained() as int));
        bytes
    }

    /// Replaces the cells and the pointer, as after a run that worked on a
    /// copy of the tape. Refused, with nothing changed, unless the tape has
    /// the same size and the pointer is on it.
    pub fn restore(&mut self, tape: Vec<u8>, pointer: usize) -> (restored: bool)
        requires
            old(self).wf(),
        ensures
            final(self).wf(),
            restored == (tape@.len() == old(self)@.tape.len() && pointer < tape@.len()),
            final(self)@ == (if restored {
                Machine { tape: tape@, pointer: pointer as int, ..old(self)@ }
            } else {
                old(self)@
            }),
            final(self).input_closed() == old(self).input_closed(),
            final(self).drained() == old(self).drained(),
    {
        if tape.len() == self.tape.len() && pointer < tape.len() {
            self.tape = tape;
            self.pointer = pointer;
            true
        } else {
            false
        }
    }
}

} // verus!
