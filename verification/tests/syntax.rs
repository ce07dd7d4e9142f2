use tapejit::syntax::Instruction::{AddToCell, Loop, MovePointer, Read, Write};
use tapejit::syntax::{parse, ParseError};

#[test]
fn parse_reads_the_eight_commands() {
    assert_eq!(
        parse(b"><+-.,[]"),
        Ok(vec![
            MovePointer(1),
            MovePointer(-1),
            AddToCell(1),
            AddToCell(-1),
            Write,
            Read,
            Loop { body: vec![] },
        ])
    );
}

#[test]
fn parse_skips_comments() {
    assert_eq!(
        parse(b"add one: +\nthen print\t. (done)"),
        Ok(vec![AddToCell(1), Write])
    );
}

#[test]
fn parse_of_nothing_is_the_empty_program() {
    assert_eq!(parse(b""), Ok(vec![]));
    assert_eq!(parse(b"no commands here"), Ok(vec![]));
}

#[test]
fn parse_nests_loops() {
    assert_eq!(
        parse(b"+[[-]>[.]]<"),
        Ok(vec![
            AddToCell(1),
            Loop {
                body: vec![
                    Loop { body: vec![AddToCell(-1)] },
                    MovePointer(1),
                    Loop { body: vec![Write] },
                ]
            },
            MovePointer(-1),
        ])
    );
}

#[test]
fn parse_does_not_combine() {
    assert_eq!(parse(b"++"), Ok(vec![AddToCell(1), AddToCell(1)]));
}

#[test]
fn parse_refuses_a_close_without_an_open() {
    assert_eq!(parse(b"]"), Err(ParseError::UnmatchedClose { position: 0 }));
    assert_eq!(parse(b"+[-]x]+["), Err(ParseError::UnmatchedClose { position: 5 }));
    assert_eq!(parse(b"[]][["), Err(ParseError::UnmatchedClose { position: 2 }));
}

#[test]
fn parse_refuses_an_open_loop() {
    assert_eq!(parse(b"["), Err(ParseError::UnclosedLoop));
    assert_eq!(parse(b"+[[-]"), Err(ParseError::UnclosedLoop));
    assert_eq!(parse(b"[[[]]"), Err(ParseError::UnclosedLoop));
}
