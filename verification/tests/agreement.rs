use tapejit::execution::interpreter::{Interpreter, Progress};
use tapejit::execution::native::codegen::CodeGeneration;
use tapejit::execution::state::State;
use tapejit::optimize::optimize;
use tapejit::semantics::Outcome;
use tapejit::syntax::parse;
use tapejit::syntax::Instruction;
use tapejit::syntax::Instruction::{AddToCell, Loop, MovePointer, Read, SetCell, Write};

struct Ran {
    outcome: Outcome,
    output: Vec<u8>,
    tape: Vec<u8>,
    pointer: usize,
}

fn word(code: &[u8], at: usize) -> i64 {
    i32::from_le_bytes([code[at], code[at + 1], code[at + 2], code[at + 3]]) as i64
}

/// Follows the generated bytes as a processor would: one emitted sequence
/// after the other, with the jumps that the bytes hold.
fn follow(code: &[u8], tape_size: usize, input: &[u8]) -> Ran {
    let mut tape = vec![0u8; tape_size];
    let mut pointer: i64 = 0;
    let mut left = input.iter();
    let mut output = Vec::new();
    let mut at: i64 = 0;
    let mut sequences = 0u64;
    loop {
        sequences += 1;
        assert!(sequences < 100_000_000, "the routine does not return");
        let here = at as usize;
        match code[here] {
            0x53 => at += 23,
            0x49 => {
                let target = pointer + word(code, here + 3);
                if target < 0 || target >= tape_size as i64 {
                    assert_eq!(code[here + 13], 1);
                    return Ran {
                        outcome: Outcome::PointerOutOfRange,
                        output,
                        tape,
                        pointer: pointer as usize,
                    };
                }
                pointer = target;
                at += 34;
            }
            0x43 if code[here + 1] == 0xc6 => {
                tape[pointer as usize] = code[here + 4];
                at += 5;
            }
            0x43 if code[here + 2] == 0x04 => {
                tape[pointer as usize] = tape[pointer as usize].wrapping_add(code[here + 4]);
                at += 5;
            }
            0x43 => {
                assert_eq!(&code[here..here + 7], &[0x43u8, 0x80, 0x3c, 0x2c, 0x00, 0x0f, 0x84][..]);
                at += 11;
                if tape[pointer as usize] == 0 {
                    at += word(code, here + 7);
                }
            }
            0xe9 => at += 5 + word(code, here + 1),
            0x48 if code[here + 3] == 0x4b => {
                if let Some(byte) = left.next() {
                    tape[pointer as usize] = *byte;
                }
                at += 33;
            }
            0x48 => {
                output.push(tape[pointer as usize]);
                at += 34;
            }
            0x31 => {
                assert_eq!(here + 16, code.len());
                return Ran { outcome: Outcome::Completed, output, tape, pointer: pointer as usize };
            }
            other => panic!("no sequence starts with {:#x} at {}", other, here),
        }
    }
}

fn interpret(nodes: &Vec<Instruction>, tape_size: usize, input: &[u8]) -> Ran {
    let mut interpreter = Interpreter::new(State::with_input(tape_size, input.to_vec()), nodes);
    let outcome = loop {
        if let Progress::Finished(outcome) = interpreter.interpret(1_000_000) {
            break outcome;
        }
    };
    let output = interpreter.drain_output();
    let state = interpreter.into_state();
    Ran { outcome, output, tape: state.tape().clone(), pointer: state.pointer() }
}

fn agree(nodes: &Vec<Instruction>, tape_size: usize, input: &[u8]) -> Ran {
    let executor = CodeGeneration::x86_x64().generate(nodes).unwrap();
    let native = follow(executor.code(), tape_size, input);
    let walked = interpret(nodes, tape_size, input);
    assert_eq!(native.outcome, walked.outcome);
    assert_eq!(native.output, walked.output);
    assert_eq!(native.tape, walked.tape);
    assert_eq!(native.pointer, walked.pointer);
    walked
}

#[test]
fn both_strategies_print_three() {
    let ran = agree(&vec![AddToCell(3), Write], 5, &[]);
    assert_eq!(ran.output, vec![3u8]);
}

#[test]
fn both_strategies_clear_the_cell() {
    let nodes = vec![AddToCell(7), Loop { body: vec![AddToCell(-1)] }];
    let ran = agree(&nodes, 5, &[]);
    assert_eq!(ran.tape, vec![0u8; 5]);
    assert_eq!(ran.output, Vec::<u8>::new());
    let ran = agree(&vec![AddToCell(7), SetCell(0)], 5, &[]);
    assert_eq!(ran.tape, vec![0u8; 5]);
}

#[test]
fn both_strategies_fault_alike() {
    let ran = agree(&vec![Write, MovePointer(-1), Write], 5, &[]);
    assert_eq!(ran.outcome, Outcome::PointerOutOfRange);
    assert_eq!(ran.output, vec![0u8]);
    let ran = agree(&vec![MovePointer(4), AddToCell(1), MovePointer(1), Write], 5, &[]);
    assert_eq!(ran.outcome, Outcome::PointerOutOfRange);
    assert_eq!(ran.pointer, 4);
    let ran = agree(&vec![MovePointer(i32::MAX)], 5, &[]);
    assert_eq!(ran.outcome, Outcome::PointerOutOfRange);
    let ran = agree(&vec![MovePointer(i32::MIN)], 5, &[]);
    assert_eq!(ran.outcome, Outcome::PointerOutOfRange);
}

#[test]
fn both_strategies_read_alike() {
    let nodes = vec![Read, Write, Read, Write, AddToCell(1), Read, Write];
    let ran = agree(&nodes, 1, &[65]);
    assert_eq!(ran.output, vec![65u8, 65, 66]);
}

#[test]
fn both_strategies_say_hello() {
    let source = b"++++++++[>++++[>++>+++>+++>+<<<<-]>+>+>->>+[<]<-]>>.>---.+++++++..+++.>>.<-.<.+++.------.--------.>>+.>++.";
    let nodes = parse(source).unwrap();
    let ran = agree(&nodes, 30000, &[]);
    assert_eq!(ran.output, b"Hello World!\n".to_vec());
    let ran = agree(&optimize(nodes), 30000, &[]);
    assert_eq!(ran.output, b"Hello World!\n".to_vec());
}

#[test]
fn both_strategies_multiply() {
    let nodes = parse(b",>,<[>[->+>+<<]>>[-<<+>>]<<<-]>>.").unwrap();
    let ran = agree(&nodes, 10, &[6, 7]);
    assert_eq!(ran.output, vec![42u8]);
    let ran = agree(&optimize(nodes), 10, &[6, 7]);
    assert_eq!(ran.output, vec![42u8]);
}
