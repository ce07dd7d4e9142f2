//! The program tree and its mathematical model.

use vstd::prelude::*;

verus! {

/// One node of a program tree.
#[derive(Debug, PartialEq, Eq)]
pub enum Instruction {
    /// Adds the delta to the pointer.
    MovePointer(i32),
    /// Adds the delta to the current cell, modulo 256.
    AddToCell(i8),
    /// Overwrites the current cell.
    SetCell(u8),
    /// Reads one byte of input into the current cell.
    Read,
    /// Writes the current cell to the output.
    Write,
    /// Repeats the body while the current cell is not zero.
    Loop { body: Vec<Instruction> },
}

/// The model of an [`Instruction`]: the same tree over mathematical sequences.
pub enum Instr {
    MovePointer(i32),
    AddToCell(i8),
    SetCell(u8),
    Read,
    Write,
    Loop(Seq<Instr>),
}

impl Instruction {
    /// The tree this instruction stands for.
    pub open spec fn model(&self) -> Instr
        decreases self,
    {
        match self {
            Instruction::MovePointer(d) => Instr::MovePointer(*d),
            Instruction::AddToCell(d) => Instr::AddToCell(*d),
            Instruction::SetCell(v) => Instr::SetCell(*v),
            Instruction::Read => Instr::Read,
            Instruction::Write => Instr::Write,
            Instruction::Loop { body } => Instr::Loop(models(body@)),
        }
    }
}

/// The sequence of trees that a sequence of instructions stands for.
pub open spec fn models(nodes: Seq<Instruction>) -> Seq<Instr>
    decreases nodes,
{
    if nodes.len() == 0 {
        Seq::empty()
    } else {
        models(nodes.drop_last()).push(nodes.last().model())
    }
}

/// A copy of a sequence of instructions.
pub fn copy_nodes(nodes: &Vec<Instruction>) -> (copy: Vec<Instruction>)
    ensures
        models(copy@) == models(nodes@),
    decreases nodes,
{
    let mut copy: Vec<Instruction> = Vec::new();
    let mut i: usize = 0;
    while i < nodes.len()
        invariant
            i <= nodes@.len(),
            models(copy@) == models(nodes@.take(i as int)),
        decreases nodes@.len() - i,
    {
        let next = match &nodes[i] {
            Instruction::MovePointer(delta) => Instruction::MovePointer(*delta),
            Instruction::AddToCell(delta) => Instruction::AddToCell(*delta),
            Instruction::SetCell(value) => Instruction::SetCell(*value),
            Instruction::Read => Instruction::Read,
            Instruction::Write => Instruction::Write,
            Instruction::Loop { body } => Instruction::Loop { body: copy_nodes(body) },
        };
        proof {
            lemma_models_push(copy@, next);
            lemma_models_push(nodes@.take(i as int), nodes@[i as int]);
            assert(nodes@.take(i + 1) =~= nodes@.take(i as int).push(nodes@[i as int]));
        }
        copy.push(next);
        i += 1;
    }
    assert(nodes@.take(i as int) =~= nodes@);
    copy
}

impl Clone for Instruction {
    fn clone(&self) -> (copy: Instruction)
        ensures
            copy.model() == self.model(),
    {
        match self {
            Instruction::MovePointer(delta) => Instruction::MovePointer(*delta),
            Instruction::AddToCell(delta) => Instruction::AddToCell(*delta),
            Instruction::SetCell(value) => Instruction::SetCell(*value),
            Instruction::Read => Instruction::Read,
            Instruction::Write => Instruction::Write,
            Instruction::Loop { body } => Instruction::Loop { body: copy_nodes(body) },
        }
    }
}

/// The model has one tree for each instruction.
pub proof fn lemma_models_len(nodes: Seq<Instruction>)
    ensures
        models(nodes).len() == nodes.len(),
    decreases nodes.len(),
{
    if nodes.len() > 0 {
        lemma_models_len(nodes.drop_last());
    }
}

/// The model of a sequence with one more instruction.
pub proof fn lemma_models_push(nodes: Seq<Instruction>, next: Instruction)
    ensures
        models(nodes.push(next)) == models(nodes).push(next.model()),
{
    assert(nodes.push(next).drop_last() =~= nodes);
}

/// The model of the instruction at an index.
pub proof fn lemma_models_index(nodes: Seq<Instruction>, i: int)
    requires
        0 <= i < nodes.len(),
    ensures
        models(nodes).len() == nodes.len(),
        models(nodes)[i] == nodes[i].model(),
    decreases nodes.len(),
{
    lemma_models_len(nodes);
    lemma_models_len(nodes.drop_last());
    if i < nodes.len() - 1 {
        lemma_models_index(nodes.drop_last(), i);
    }
}

/// Why a source text is not a program.
#[derive(Clone, Copy, Debug, PartialEq, Eq, Structural)]
pub enum ParseError {
    /// The byte at this index closes a loop that was never opened.
    UnmatchedClose { position: usize },
    /// The text ends inside a loop.
    UnclosedLoop,
}

/// Whether a byte is one of the eight commands. Every other byte is a
/// comment.
pub open spec fn is_command(byte: u8) -> bool {
    byte == 0x3e || byte == 0x3c || byte == 0x2b || byte == 0x2d || byte == 0x2e || byte == 0x2c
        || byte == 0x5b || byte == 0x5d
}

/// The commands of a source text, without its comments.
pub open spec fn commands(source: Seq<u8>) -> Seq<u8>
    decreases source.len(),
{
    if source.len() == 0 {
        Seq::empty()
    } else if is_command(source.last()) {
        commands(source.drop_last()).push(source.last())
    } else {
        commands(source.drop_last())
    }
}

/// How many loops are open at the end of a source text. `None` where the
/// text closes a loop that is not open.
pub open spec fn depth(source: Seq<u8>) -> Option<nat>
    decreases source.len(),
{
    if source.len() == 0 {
        Some(0)
    } else {
        match depth(source.drop_last()) {
            Some(open) => if source.last() == 0x5b {
                Some(open + 1)
            } else if source.last() == 0x5d {
                if open == 0 {
                    None
                } else {
                    Some((open - 1) as nat)
                }
            } else {
                Some(open)
            },
            None => None,
        }
    }
}

/// The text of an instruction as a parser produces it: one command for a
/// step of one, a bracketed body for a loop. Other instructions have no text.
pub open spec fn unparse_instr(instr: Instr) -> Seq<u8>
    decreases instr, 0nat,
{
    match instr {
        Instr::MovePointer(delta) => if delta == 1 {
            seq![0x3eu8]
        } else if delta == -1 {
            seq![0x3cu8]
        } else {
            Seq::empty()
        },
        Instr::AddToCell(delta) => if delta == 1 {
            seq![0x2bu8]
        } else if delta == -1 {
            seq![0x2du8]
        } else {
            Seq::empty()
        },
        Instr::SetCell(_) => Seq::empty(),
        Instr::Read => seq![0x2cu8],
        Instr::Write => seq![0x2eu8],
        Instr::Loop(body) => seq![0x5bu8] + unparse(body) + seq![0x5du8],
    }
}

/// The text of a sequence of instructions.
pub open spec fn unparse(nodes: Seq<Instr>) -> Seq<u8>
    decreases nodes, 1nat,
{
    if nodes.len() == 0 {
        Seq::empty()
    } else {
        unparse(nodes.drop_last()) + unparse_instr(nodes.last())
    }
}

/// Whether an instruction is one that a parser produces: a move or an
/// increment by one step, a read, a write, or a loop of such instructions.
pub open spec fn is_raw_instr(instr: Instr) -> bool
    decreases instr, 0nat,
{
    match instr {
        Instr::MovePointer(delta) => delta == 1 || delta == -1,
        Instr::AddToCell(delta) => delta == 1 || delta == -1,
        Instr::SetCell(_) => false,
        Instr::Read => true,
        Instr::Write => true,
        Instr::Loop(body) => is_raw(body),
    }
}

/// Whether a sequence holds only what a parser produces.
pub open spec fn is_raw(nodes: Seq<Instr>) -> bool
    decreases nodes, 1nat,
{
    nodes.len() == 0 || (is_raw(nodes.drop_last()) && is_raw_instr(nodes.last()))
}

/// The models of the sequences on the parser's stack.
spec fn levels(stack: Seq<Vec<Instruction>>) -> Seq<Seq<Instr>> {
    Seq::new(stack.len(), |k: int| models(stack[k]@))
}

/// The text that a stack of open sequences stands for: each sequence but the
/// first is the body, so far, of a loop opened at the end of the one below.
spec fn open_text(levels: Seq<Seq<Instr>>) -> Seq<u8>
    decreases levels.len(),
{
    if levels.len() == 0 {
        Seq::empty()
    } else if levels.len() == 1 {
        unparse(levels[0])
    } else {
        open_text(levels.drop_last()) + seq![0x5bu8] + unparse(levels.last())
    }
}

/// Whether every sequence on the stack holds only what a parser produces.
spec fn all_raw(levels: Seq<Seq<Instr>>) -> bool {
    forall|k: int| 0 <= k < levels.len() ==> is_raw(#[trigger] levels[k])
}

/// Appends an instruction to the innermost open sequence.
fn emit(stack: &mut Vec<Vec<Instruction>>, instr: Instruction)
    requires
        old(stack)@.len() > 0,
        all_raw(levels(old(stack)@)),
        is_raw_instr(instr.model()),
    ensures
        final(stack)@.len() == old(stack)@.len(),
        all_raw(levels(final(stack)@)),
        open_text(levels(final(stack)@)) == open_text(levels(old(stack)@)) + unparse_instr(
            instr.model(),
        ),
{
    let ghost before = levels(stack@);
    let ghost text = unparse_instr(instr.model());
    match stack.pop() {
        Some(top) => {
            let mut top = top;
            proof {
                lemma_models_push(top@, instr);
                assert(models(top@).push(instr.model()).drop_last() =~= models(top@));
            }
            top.push(instr);
            stack.push(top);
            proof {
                let after = levels(stack@);
                assert(after.drop_last() =~= before.drop_last());
                assert(after.last() == before.last().push(instr.model()));
                assert(is_raw(before.last()));
                assert forall|k: int| 0 <= k < after.len() implies is_raw(#[trigger] after[k]) by {
                    if k < after.len() - 1 {
                        assert(after[k] == before[k]);
                    }
                }
                if after.len() > 1 {
                    assert(open_text(after) =~= open_text(before) + text);
                }
            }
        },
        None => {},
    }
}

/// Reads a source text as a program. The eight command bytes are
/// `>` `<` `+` `-` `.` `,` `[` `]`; every other byte is skipped. The text is
/// a program exactly when its brackets match, and the program is then the
/// tree whose text is the commands of the source.
pub fn parse(source: &[u8]) -> (result: Result<Vec<Instruction>, ParseError>)
    ensures
        match result {
            Ok(nodes) => {
                &&& depth(source@) == Some(0nat)
                &&& is_raw(models(nodes@))
                &&& unparse(models(nodes@)) == commands(source@)
            },
            Err(ParseError::UnmatchedClose { position }) => {
                &&& position < source@.len()
                &&& depth(source@.take(position as int)) == Some(0nat)
                &&& source@[position as int] == 0x5d
                &&& depth(source@) is None
            },
            Err(ParseError::UnclosedLoop) => depth(source@) matches Some(open) && open > 0,
        },
{
    let mut stack: Vec<Vec<Instruction>> = Vec::new();
    stack.push(Vec::new());
    let mut i: usize = 0;
    proof {
        assert(levels(stack@) =~= seq![Seq::<Instr>::empty()]);
        assert(source@.take(0) =~= Seq::<u8>::empty());
    }
    while i < source.len()
        invariant
            i <= source@.len(),
            stack@.len() > 0,
            all_raw(levels(stack@)),
            depth(source@.take(i as int)) == Some((stack@.len() - 1) as nat),
            open_text(levels(stack@)) == commands(source@.take(i as int)),
        decreases source@.len() - i,
    {
        let byte = source[i];
        proof {
            assert(source@.take(i + 1).drop_last() =~= source@.take(i as int));
            assert(source@.take(i + 1).last() == byte);
        }
        let ghost before = levels(stack@);
        if byte == 0x3e {
            emit(&mut stack, Instruction::MovePointer(1));
        } else if byte == 0x3c {
            emit(&mut stack, Instruction::MovePointer(-1));
        } else if byte == 0x2b {
            emit(&mut stack, Instruction::AddToCell(1));
        } else if byte == 0x2d {
            emit(&mut stack, Instruction::AddToCell(-1));
        } else if byte == 0x2e {
            emit(&mut stack, Instruction::Write);
        } else if byte == 0x2c {
            emit(&mut stack, Instruction::Read);
        } else if byte == 0x5b {
            stack.push(Vec::new());
            proof {
                let after = levels(stack@);
                assert(after.drop_last() =~= before);
                assert(after.last() =~= Seq::<Instr>::empty());
                assert forall|k: int| 0 <= k < after.len() implies is_raw(#[trigger] after[k]) by {
                    if k < after.len() - 1 {
                        assert(after[k] == before[k]);
                    }
                }
                assert(open_text(after) =~= open_text(before).push(byte));
            }
        } else if byte == 0x5d {
            if stack.len() == 1 {
                proof {
                    lemma_depth_stays_none(source@, i + 1);
                }
                return Err(ParseError::UnmatchedClose { position: i });
            }
            match stack.pop() {
                Some(body) => {
                    let ghost below = levels(stack@);
                    proof {
                        assert(below =~= before.drop_last());
                        assert(all_raw(below)) by {
                            assert forall|k: int| 0 <= k < below.len() implies is_raw(
                                #[trigger] below[k],
                            ) by {
                                assert(below[k] == before[k]);
                            }
                        }
                        assert(is_raw(before.last()));
                    }
                    emit(&mut stack, Instruction::Loop { body });
                    proof {
                        assert(open_text(levels(stack@)) =~= open_text(before).push(byte));
                    }
                },
                None => {},
            }
        }
        i += 1;
    }
    proof {
        assert(source@.take(i as int) =~= source@);
    }
    if stack.len() != 1 {
        return Err(ParseError::UnclosedLoop);
    }
    let ghost whole = levels(stack@);
    match stack.pop() {
        Some(nodes) => {
            assert(whole[0] == models(nodes@));
            Ok(nodes)
        },
        None => Err(ParseError::UnclosedLoop),
    }
}

/// Once a text closes a loop that is not open, no continuation mends it.
proof fn lemma_depth_stays_none(source: Seq<u8>, upto: int)
    requires
        0 <= upto <= source.len(),
        depth(source.take(upto)) is None,
    ensures
        depth(source) is None,
    decreases source.len() - upto,
{
    if upto < source.len() {
        assert(source.take(upto + 1).drop_last() =~= source.take(upto));
        lemma_depth_stays_none(source, upto + 1);
    } else {
        assert(source.take(upto) =~= source);
    }
}

} // verus!
