use tapejit::execution::interpreter::{Interpreter, Progress};
use tapejit::execution::state::{Fetch, State};
use tapejit::optimize::optimize;
use tapejit::optimize::peephole::Peephole;
use tapejit::optimize::OptimizationPass;
use tapejit::semantics::Outcome;
use tapejit::syntax::parse;
use tapejit::syntax::Instruction;
use tapejit::syntax::Instruction::{AddToCell, Loop, MovePointer, Read, SetCell, Write};

struct Ran {
    outcome: Outcome,
    output: Vec<u8>,
    tape: Vec<u8>,
    pointer: usize,
}

fn run_on(state: State, nodes: &Vec<Instruction>) -> Ran {
    let mut interpreter = Interpreter::new(state, nodes);
    let mut rounds = 0;
    let outcome = loop {
        match interpreter.interpret(100_000) {
            Progress::Finished(outcome) => break outcome,
            Progress::NeedsInput => panic!("the input was closed"),
            Progress::Running => {
                rounds += 1;
                assert!(rounds < 10_000, "the program does not end");
            }
        }
    };
    let output = interpreter.drain_output();
    let state = interpreter.into_state();
    Ran { outcome, output, tape: state.tape().clone(), pointer: state.pointer() }
}

fn run(nodes: &Vec<Instruction>, tape_size: usize, input: &[u8]) -> Ran {
    run_on(State::with_input(tape_size, input.to_vec()), nodes)
}

#[test]
fn a_fresh_state_is_zeroed() {
    let state = State::new(5);
    assert_eq!(state.tape(), &vec![0u8; 5]);
    assert_eq!(state.tape_size(), 5);
    assert_eq!(state.pointer(), 0);
    assert_eq!(state.cell(), 0);
    assert!(!state.is_input_closed());
    assert!(!state.has_input());
}

#[test]
fn the_default_tape_has_thirty_thousand_cells() {
    let state = State::new(30000);
    assert_eq!(state.tape_size(), 30000);
    assert!(state.tape().iter().all(|cell| *cell == 0));
}

#[test]
fn add_then_write_outputs_three() {
    let nodes = vec![AddToCell(3), Write];
    let ran = run(&nodes, 5, &[]);
    assert_eq!(ran.outcome, Outcome::Completed);
    assert_eq!(ran.output, vec![3u8]);
    assert_eq!(ran.tape, vec![3u8, 0, 0, 0, 0]);
    assert_eq!(optimize(nodes.clone()), nodes);
}

#[test]
fn a_countdown_loop_clears_the_cell() {
    let nodes = vec![Loop { body: vec![AddToCell(-1)] }];
    let mut state = State::with_input(5, vec![]);
    state.set_cell(7);
    let ran = run_on(state, &nodes);
    assert_eq!(ran.outcome, Outcome::Completed);
    assert_eq!(ran.output, Vec::<u8>::new());
    assert_eq!(ran.tape, vec![0u8; 5]);

    let optimized = optimize(nodes);
    assert_eq!(optimized, vec![SetCell(0)]);
    let mut state = State::with_input(5, vec![]);
    state.set_cell(7);
    let ran = run_on(state, &optimized);
    assert_eq!(ran.outcome, Outcome::Completed);
    assert_eq!(ran.output, Vec::<u8>::new());
    assert_eq!(ran.tape, vec![0u8; 5]);
}

#[test]
fn every_odd_step_loop_ends_at_zero() {
    let mut delta: i16 = -127;
    while delta <= 127 {
        let nodes = vec![Loop { body: vec![AddToCell(delta as i8)] }];
        for start in 0..=255u8 {
            let mut state = State::with_input(3, vec![9]);
            state.move_pointer(1);
            state.set_cell(start);
            let ran = run_on(state, &nodes);
            assert_eq!(ran.outcome, Outcome::Completed);
            assert_eq!(ran.tape, vec![0u8, 0, 0]);
            assert_eq!(ran.pointer, 1);
            assert_eq!(ran.output, Vec::<u8>::new());
        }
        delta += 2;
    }
}

#[test]
fn an_even_step_loop_on_an_odd_cell_does_not_end() {
    let nodes = vec![Loop { body: vec![AddToCell(2)] }];
    let mut state = State::with_input(1, vec![]);
    state.set_cell(1);
    let mut interpreter = Interpreter::new(state, &nodes);
    assert_eq!(interpreter.interpret(100_000), Progress::Running);
    assert_eq!(Peephole::ReplaceSet.optimize(nodes.clone()), nodes);
}

#[test]
fn the_cell_wraps_around() {
    let mut state = State::new(1);
    state.set_cell(255);
    state.add_to_cell(1);
    assert_eq!(state.cell(), 0);
    state.add_to_cell(-1);
    assert_eq!(state.cell(), 255);

    let ran = run(&vec![AddToCell(-1), Write, AddToCell(1), Write], 1, &[]);
    assert_eq!(ran.output, vec![255u8, 0]);
}

#[test]
fn a_move_below_the_tape_faults() {
    let ran = run(&vec![AddToCell(1), MovePointer(-1), AddToCell(1), Write], 5, &[]);
    assert_eq!(ran.outcome, Outcome::PointerOutOfRange);
    assert!(ran.outcome.is_error());
    assert_eq!(ran.pointer, 0);
    assert_eq!(ran.tape, vec![1u8, 0, 0, 0, 0]);
    assert_eq!(ran.output, Vec::<u8>::new());
}

#[test]
fn a_move_to_the_tape_size_faults() {
    let ran = run(&vec![MovePointer(4), Write, MovePointer(1), Write], 5, &[]);
    assert_eq!(ran.outcome, Outcome::PointerOutOfRange);
    assert_eq!(ran.pointer, 4);
    assert_eq!(ran.output, vec![0u8]);

    let ran = run(&vec![MovePointer(5)], 5, &[]);
    assert_eq!(ran.outcome, Outcome::PointerOutOfRange);
    assert_eq!(ran.pointer, 0);
}

#[test]
fn a_move_to_the_last_cell_is_fine() {
    let ran = run(&vec![MovePointer(4), AddToCell(1)], 5, &[]);
    assert_eq!(ran.outcome, Outcome::Completed);
    assert!(!ran.outcome.is_error());
    assert_eq!(ran.pointer, 4);
    assert_eq!(ran.tape, vec![0u8, 0, 0, 0, 1]);
}

#[test]
fn a_refused_move_changes_nothing() {
    let mut state = State::new(3);
    assert!(state.move_pointer(2));
    assert!(!state.move_pointer(1));
    assert_eq!(state.pointer(), 2);
    assert!(!state.move_pointer(-3));
    assert_eq!(state.pointer(), 2);
    assert!(!state.move_pointer(i32::MAX));
    assert!(!state.move_pointer(i32::MIN));
    assert!(state.move_pointer(-2));
    assert_eq!(state.pointer(), 0);
}

#[test]
fn merging_moves_can_hide_a_fault() {
    let nodes = vec![MovePointer(1), MovePointer(-1), AddToCell(1), Write];
    let ran = run(&nodes, 1, &[]);
    assert_eq!(ran.outcome, Outcome::PointerOutOfRange);
    assert_eq!(ran.output, Vec::<u8>::new());
    let ran = run(&optimize(nodes), 1, &[]);
    assert_eq!(ran.outcome, Outcome::Completed);
    assert_eq!(ran.output, vec![1u8]);
}

#[test]
fn read_copies_the_input() {
    let nodes = vec![Read, Write, Read, Write, Read, Write];
    let ran = run(&nodes, 1, &[10, 20, 30, 40]);
    assert_eq!(ran.outcome, Outcome::Completed);
    assert_eq!(ran.output, vec![10u8, 20, 30]);
}

#[test]
fn read_at_the_end_of_input_leaves_the_cell() {
    let nodes = vec![Read, Write, Read, Write, AddToCell(1), Read, Write];
    let ran = run(&nodes, 1, &[65]);
    assert_eq!(ran.outcome, Outcome::Completed);
    assert_eq!(ran.output, vec![65u8, 65, 66]);
}

#[test]
fn read_waits_for_input_that_may_come() {
    let nodes = vec![AddToCell(1), Write, Read, Write, Read, Write];
    let mut interpreter = Interpreter::new(State::new(1), &nodes);
    assert_eq!(interpreter.interpret(1000), Progress::NeedsInput);
    assert_eq!(interpreter.drain_output(), vec![1u8]);
    assert_eq!(interpreter.step(), Progress::NeedsInput);
    assert_eq!(interpreter.progress(), Progress::NeedsInput);
    assert!(interpreter.feed(&vec![7u8]));
    assert_eq!(interpreter.progress(), Progress::Running);
    assert_eq!(interpreter.interpret(1000), Progress::NeedsInput);
    assert_eq!(interpreter.drain_output(), vec![7u8]);
    interpreter.close_input();
    assert!(!interpreter.feed(&vec![8u8]));
    assert_eq!(interpreter.interpret(1000), Progress::Finished(Outcome::Completed));
    assert_eq!(interpreter.drain_output(), vec![7u8]);
    assert_eq!(interpreter.drain_output(), Vec::<u8>::new());
    assert_eq!(interpreter.state().cell(), 7);
}

#[test]
fn state_reads_say_what_they_found() {
    let mut state = State::new(2);
    state.set_cell(5);
    assert_eq!(state.read(), Fetch::Starved);
    assert_eq!(state.cell(), 5);
    assert!(state.feed(&vec![1, 2]));
    assert!(state.has_input());
    assert_eq!(state.read(), Fetch::Byte);
    assert_eq!(state.cell(), 1);
    state.close_input();
    assert!(state.is_input_closed());
    assert_eq!(state.read(), Fetch::Byte);
    assert_eq!(state.cell(), 2);
    assert_eq!(state.read(), Fetch::End);
    assert_eq!(state.cell(), 2);
}

#[test]
fn a_failed_stream_ends_the_run() {
    let nodes = vec![Write, Write];
    let mut interpreter = Interpreter::new(State::new(1), &nodes);
    assert_eq!(interpreter.step(), Progress::Running);
    interpreter.fail();
    assert_eq!(interpreter.progress(), Progress::Finished(Outcome::IoFailure));
    assert_eq!(interpreter.interpret(10), Progress::Finished(Outcome::IoFailure));
    assert_eq!(interpreter.drain_output(), vec![0u8]);
    assert!(Outcome::IoFailure.is_error());
}

#[test]
fn a_finished_run_keeps_its_outcome() {
    let nodes = vec![MovePointer(-1)];
    let mut interpreter = Interpreter::new(State::new(1), &nodes);
    assert_eq!(
        interpreter.interpret(10),
        Progress::Finished(Outcome::PointerOutOfRange)
    );
    interpreter.fail();
    assert_eq!(
        interpreter.progress(),
        Progress::Finished(Outcome::PointerOutOfRange)
    );
}

#[test]
fn the_budget_counts_steps() {
    let nodes = vec![AddToCell(1), AddToCell(1), AddToCell(1)];
    let mut interpreter = Interpreter::new(State::new(1), &nodes);
    assert_eq!(interpreter.interpret(0), Progress::Running);
    assert_eq!(interpreter.state().cell(), 0);
    assert_eq!(interpreter.interpret(2), Progress::Running);
    assert_eq!(interpreter.state().cell(), 2);
    assert_eq!(interpreter.interpret(1), Progress::Running);
    assert_eq!(interpreter.state().cell(), 3);
    assert_eq!(interpreter.interpret(1), Progress::Finished(Outcome::Completed));
}

#[test]
fn an_empty_program_completes() {
    let ran = run(&vec![], 1, &[]);
    assert_eq!(ran.outcome, Outcome::Completed);
    assert_eq!(ran.output, Vec::<u8>::new());
}

#[test]
fn a_loop_is_tested_before_its_first_iteration() {
    let ran = run(&vec![Loop { body: vec![Write] }, AddToCell(1), Write], 1, &[]);
    assert_eq!(ran.output, vec![1u8]);
}

#[test]
fn nested_loops_multiply() {
    let nodes = parse(b"+++[>++++[>+++++<-]<-]>>.").unwrap();
    let ran = run(&nodes, 3, &[]);
    assert_eq!(ran.outcome, Outcome::Completed);
    assert_eq!(ran.output, vec![60u8]);
    assert_eq!(ran.tape, vec![0u8, 0, 60]);
}

#[test]
fn restore_replaces_tape_and_pointer() {
    let mut state = State::new(3);
    assert!(state.restore(vec![1, 2, 3], 2));
    assert_eq!(state.tape(), &vec![1u8, 2, 3]);
    assert_eq!(state.pointer(), 2);
    assert!(!state.restore(vec![1, 2], 0));
    assert!(!state.restore(vec![4, 5, 6], 3));
    assert_eq!(state.tape(), &vec![1u8, 2, 3]);
    assert_eq!(state.pointer(), 2);
}

#[test]
fn output_is_drained_once() {
    let mut state = State::new(1);
    state.set_cell(9);
    state.write();
    state.write();
    assert_eq!(state.drain_output(), vec![9u8, 9]);
    assert_eq!(state.drain_output(), Vec::<u8>::new());
    state.write();
    assert_eq!(state.drain_output(), vec![9u8]);
}

const HELLO: &[u8] = b"++++++++[>++++[>++>+++>+++>+<<<<-]>+>+>->>+[<]<-]>>.>---.+++++++..+++.>>.<-.<.+++.------.--------.>>+.>++.";

#[test]
fn hello_world_runs() {
    let nodes = parse(HELLO).unwrap();
    let ran = run(&nodes, 30000, &[]);
    assert_eq!(ran.outcome, Outcome::Completed);
    assert_eq!(ran.output, b"Hello World!\n".to_vec());
}

#[test]
fn optimizing_keeps_the_output() {
    let sources: Vec<&[u8]> = vec![
        HELLO,
        b",[.,]",
        b",>,<[->+<]>.",
        b"+++[>++++[>+++++<-]<-]>>.",
        b",[-]+.>,[>+<-]>.",
        b"++>+++<[->[->+>+<<]>>[-<<+>>]<<<]>>.",
    ];
    for source in sources {
        let nodes = parse(source).unwrap();
        let optimized = optimize(nodes.clone());
        let input = [3u8, 4, 5, 0, 7];
        let plain = run(&nodes, 100, &input);
        let fast = run(&optimized, 100, &input);
        assert_eq!(plain.outcome, Outcome::Completed);
        assert_eq!(fast.outcome, plain.outcome);
        assert_eq!(fast.output, plain.output);
        assert_eq!(fast.tape, plain.tape);
        assert_eq!(fast.pointer, plain.pointer);
    }
}

#[test]
fn optimizing_nested_loops_keeps_the_output_and_shrinks_the_tree() {
    let nodes = parse(b",>,<[>[->+>+<<]>>[-<<+>>]<<<-]>>.[-]<[-]<[-]").unwrap();
    let optimized = optimize(nodes.clone());
    assert!(optimized.len() < nodes.len());
    let plain = run(&nodes, 10, &[6, 7]);
    let fast = run(&optimized, 10, &[6, 7]);
    assert_eq!(plain.output, vec![42u8]);
    assert_eq!(fast.output, plain.output);
    assert_eq!(fast.outcome, plain.outcome);
}
