use tapejit::execution::native::codegen::{outcome_of_code, CodeGeneration, CodegenError, MAX_BODY};
use tapejit::semantics::Outcome;
use tapejit::syntax::Instruction;
use tapejit::syntax::Instruction::{AddToCell, Loop, MovePointer, Read, SetCell, Write};

const PROLOGUE: [u8; 23] = [
    0x53, 0x41, 0x54, 0x41, 0x55, 0x41, 0x56, 0x41, 0x57, 0x48, 0x89, 0xfb, 0x4c, 0x8b, 0x23, 0x4c,
    0x8b, 0x73, 0x08, 0x4c, 0x8b, 0x6b, 0x10,
];

const EXIT: [u8; 14] = [
    0x4c, 0x89, 0x6b, 0x10, 0x41, 0x5f, 0x41, 0x5e, 0x41, 0x5d, 0x41, 0x5c, 0x5b, 0xc3,
];

fn body_of(nodes: Vec<Instruction>) -> Vec<u8> {
    let executor = CodeGeneration::x86_x64().generate(&nodes).unwrap();
    let code = executor.code().clone();
    assert_eq!(code, executor.into_code());
    assert_eq!(&code[..23], &PROLOGUE[..]);
    let end = code.len() - 16;
    assert_eq!(&code[end..end + 2], &[0x31u8, 0xc0][..]);
    assert_eq!(&code[end + 2..], &EXIT[..]);
    code[23..end].to_vec()
}

fn fault(code: u8) -> Vec<u8> {
    let mut bytes = vec![0xb8, code, 0, 0, 0];
    bytes.extend_from_slice(&EXIT);
    bytes
}

#[test]
fn the_empty_program_is_prologue_and_return() {
    assert_eq!(body_of(vec![]), Vec::<u8>::new());
    let executor = CodeGeneration::x86_x64().generate(&vec![]).unwrap();
    assert_eq!(executor.code().len(), 23 + 2 + 14);
}

#[test]
fn add_is_an_add_of_a_byte() {
    assert_eq!(body_of(vec![AddToCell(3)]), vec![0x43, 0x80, 0x04, 0x2c, 0x03]);
    assert_eq!(body_of(vec![AddToCell(-1)]), vec![0x43, 0x80, 0x04, 0x2c, 0xff]);
    assert_eq!(body_of(vec![AddToCell(-128)]), vec![0x43, 0x80, 0x04, 0x2c, 0x80]);
    assert_eq!(body_of(vec![AddToCell(127)]), vec![0x43, 0x80, 0x04, 0x2c, 0x7f]);
}

#[test]
fn set_is_a_store_of_a_byte() {
    assert_eq!(body_of(vec![SetCell(0)]), vec![0x43, 0xc6, 0x04, 0x2c, 0x00]);
    assert_eq!(body_of(vec![SetCell(200)]), vec![0x43, 0xc6, 0x04, 0x2c, 200]);
}

#[test]
fn a_move_checks_before_it_commits() {
    let mut expected = vec![0x49, 0x8d, 0x85, 0x02, 0x01, 0x00, 0x00];
    expected.extend_from_slice(&[0x4c, 0x39, 0xf0, 0x72, 0x13]);
    expected.extend(fault(1));
    expected.extend_from_slice(&[0x49, 0x89, 0xc5]);
    assert_eq!(body_of(vec![MovePointer(258)]), expected);
    assert_eq!(expected.len(), 34);
}

#[test]
fn a_move_back_is_in_twos_complement() {
    let code = body_of(vec![MovePointer(-1)]);
    assert_eq!(&code[3..7], &[0xffu8, 0xff, 0xff, 0xff][..]);
    let code = body_of(vec![MovePointer(-2)]);
    assert_eq!(&code[3..7], &[0xfeu8, 0xff, 0xff, 0xff][..]);
    let code = body_of(vec![MovePointer(i32::MIN)]);
    assert_eq!(&code[3..7], &[0x00u8, 0x00, 0x00, 0x80][..]);
    let code = body_of(vec![MovePointer(i32::MAX)]);
    assert_eq!(&code[3..7], &[0xffu8, 0xff, 0xff, 0x7f][..]);
    let code = body_of(vec![MovePointer(0x0102_0304)]);
    assert_eq!(&code[3..7], &[0x04u8, 0x03, 0x02, 0x01][..]);
}

#[test]
fn read_and_write_call_through_the_context() {
    let mut expected = vec![
        0x48, 0x89, 0xdf, 0x4b, 0x8d, 0x34, 0x2c, 0xff, 0x53, 0x18, 0x85, 0xc0, 0x74, 0x13,
    ];
    expected.extend(fault(2));
    assert_eq!(body_of(vec![Read]), expected);
    let mut expected = vec![
        0x48, 0x89, 0xdf, 0x43, 0x0f, 0xb6, 0x34, 0x2c, 0xff, 0x53, 0x20, 0x85, 0xc0, 0x74, 0x13,
    ];
    expected.extend(fault(2));
    assert_eq!(body_of(vec![Write]), expected);
}

#[test]
fn a_loop_jumps_over_its_body_and_back_to_its_test() {
    let code = body_of(vec![Loop { body: vec![AddToCell(-1)] }]);
    let expected = vec![
        0x43, 0x80, 0x3c, 0x2c, 0x00, 0x0f, 0x84, 0x0a, 0x00, 0x00, 0x00, 0x43, 0x80, 0x04, 0x2c,
        0xff, 0xe9, 0xeb, 0xff, 0xff, 0xff,
    ];
    assert_eq!(code, expected);
}

#[test]
fn an_empty_loop_jumps_over_its_jump() {
    let code = body_of(vec![Loop { body: vec![] }]);
    let expected = vec![
        0x43, 0x80, 0x3c, 0x2c, 0x00, 0x0f, 0x84, 0x05, 0x00, 0x00, 0x00, 0xe9, 0xf0, 0xff, 0xff,
        0xff,
    ];
    assert_eq!(code, expected);
}

#[test]
fn nested_loops_are_patched_each_with_its_own_length() {
    let inner = Loop { body: vec![SetCell(1)] };
    let code = body_of(vec![Loop { body: vec![inner, AddToCell(1)] }]);
    assert_eq!(code.len(), 11 + (11 + 5 + 5) + 5 + 5);
    assert_eq!(&code[7..11], &[31u8, 0, 0, 0][..]);
    assert_eq!(&code[18..22], &[10u8, 0, 0, 0][..]);
    assert_eq!(code[27], 0xe9);
    assert_eq!(&code[28..32], &(-21i32).to_le_bytes()[..]);
    assert_eq!(code[37], 0xe9);
    assert_eq!(&code[38..42], &(-42i32).to_le_bytes()[..]);
}

#[test]
fn instructions_follow_each_other() {
    let code = body_of(vec![AddToCell(1), SetCell(2), AddToCell(3)]);
    assert_eq!(
        code,
        vec![
            0x43, 0x80, 0x04, 0x2c, 0x01, 0x43, 0xc6, 0x04, 0x2c, 0x02, 0x43, 0x80, 0x04, 0x2c,
            0x03,
        ]
    );
}

#[test]
fn a_long_loop_body_is_encoded_with_a_wide_jump() {
    let body: Vec<Instruction> = (0..1000).map(|_| MovePointer(1)).collect();
    let code = body_of(vec![Loop { body }]);
    assert_eq!(code.len(), 11 + 34_000 + 5);
    assert_eq!(&code[7..11], &34_005i32.to_le_bytes()[..]);
    assert_eq!(&code[code.len() - 4..], &(-34_016i32).to_le_bytes()[..]);
}

#[test]
fn the_limit_on_a_loop_body_leaves_room_for_its_jumps() {
    assert_eq!(MAX_BODY, i32::MAX as usize - 16);
    assert_eq!(CodegenError::LoopTooLong, CodegenError::LoopTooLong);
}

#[test]
fn outcome_codes_are_read_back() {
    assert_eq!(outcome_of_code(0), Some(Outcome::Completed));
    assert_eq!(outcome_of_code(1), Some(Outcome::PointerOutOfRange));
    assert_eq!(outcome_of_code(2), Some(Outcome::IoFailure));
    assert_eq!(outcome_of_code(3), None);
    assert_eq!(outcome_of_code(u64::MAX), None);
}

#[test]
fn the_generator_is_for_x86_64() {
    assert_eq!(
        CodeGeneration::x86_x64().target(),
        tapejit::execution::native::codegen::Target::X86_64
    );
}
