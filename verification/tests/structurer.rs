use svolang::structurer::{parse, ParseError};
use svolang::syntax::{Instruction, OpCode};

fn flatten_into(program: &Vec<Instruction>, out: &mut Vec<OpCode>) {
    for instruction in program {
        match instruction {
            Instruction::IncrementPointer => out.push(OpCode::IncrementPointer),
            Instruction::DecrementPointer => out.push(OpCode::DecrementPointer),
            Instruction::Increment => out.push(OpCode::Increment),
            Instruction::Decrement => out.push(OpCode::Decrement),
            Instruction::Write => out.push(OpCode::Write),
            Instruction::Read => out.push(OpCode::Read),
            Instruction::Loop(body) => {
                out.push(OpCode::LoopBegin);
                flatten_into(body, out);
                out.push(OpCode::LoopEnd);
            }
        }
    }
}

fn flattened(program: &Vec<Instruction>) -> Vec<OpCode> {
    let mut out = Vec::new();
    flatten_into(program, &mut out);
    out
}

#[test]
fn parse_of_nothing_is_the_empty_program() {
    assert_eq!(parse(vec![]), Ok(vec![]));
}

#[test]
fn parse_maps_plain_opcodes_one_to_one() {
    assert_eq!(
        parse(vec![
            OpCode::IncrementPointer,
            OpCode::DecrementPointer,
            OpCode::Increment,
            OpCode::Decrement,
            OpCode::Write,
            OpCode::Read,
        ]),
        Ok(vec![
            Instruction::IncrementPointer,
            Instruction::DecrementPointer,
            Instruction::Increment,
            Instruction::Decrement,
            Instruction::Write,
            Instruction::Read,
        ])
    );
}

#[test]
fn parse_folds_a_loop() {
    assert_eq!(
        parse(vec![OpCode::Increment, OpCode::LoopBegin, OpCode::Decrement, OpCode::LoopEnd, OpCode::Write]),
        Ok(vec![
            Instruction::Increment,
            Instruction::Loop(vec![Instruction::Decrement]),
            Instruction::Write,
        ])
    );
}

#[test]
fn parse_folds_an_empty_loop() {
    assert_eq!(
        parse(vec![OpCode::LoopBegin, OpCode::LoopEnd]),
        Ok(vec![Instruction::Loop(vec![])])
    );
}

#[test]
fn parse_folds_nested_loops() {
    assert_eq!(
        parse(vec![
            OpCode::LoopBegin,
            OpCode::LoopBegin,
            OpCode::Decrement,
            OpCode::LoopEnd,
            OpCode::IncrementPointer,
            OpCode::LoopBegin,
            OpCode::LoopBegin,
            OpCode::LoopEnd,
            OpCode::LoopEnd,
            OpCode::LoopEnd,
        ]),
        Ok(vec![Instruction::Loop(vec![
            Instruction::Loop(vec![Instruction::Decrement]),
            Instruction::IncrementPointer,
            Instruction::Loop(vec![Instruction::Loop(vec![])]),
        ])])
    );
}

#[test]
fn parse_folds_loops_back_to_back() {
    assert_eq!(
        parse(vec![
            OpCode::LoopBegin,
            OpCode::Increment,
            OpCode::LoopEnd,
            OpCode::LoopBegin,
            OpCode::Read,
            OpCode::LoopEnd,
        ]),
        Ok(vec![
            Instruction::Loop(vec![Instruction::Increment]),
            Instruction::Loop(vec![Instruction::Read]),
        ])
    );
}

#[test]
fn parse_of_a_lone_loop_end_is_unmatched() {
    assert_eq!(
        parse(vec![OpCode::LoopEnd]),
        Err(ParseError::UnmatchedLoopEnd { position: 0 })
    );
}

#[test]
fn parse_of_a_lone_loop_begin_is_unterminated() {
    assert_eq!(
        parse(vec![OpCode::LoopBegin]),
        Err(ParseError::UnterminatedLoop { position: 0 })
    );
}

#[test]
fn parse_reports_where_the_unmatched_end_stands() {
    assert_eq!(
        parse(vec![OpCode::Increment, OpCode::LoopEnd]),
        Err(ParseError::UnmatchedLoopEnd { position: 1 })
    );
    assert_eq!(
        parse(vec![OpCode::LoopBegin, OpCode::LoopEnd, OpCode::LoopEnd, OpCode::LoopEnd]),
        Err(ParseError::UnmatchedLoopEnd { position: 2 })
    );
}

#[test]
fn parse_reports_the_outermost_open_loop() {
    assert_eq!(
        parse(vec![OpCode::LoopBegin, OpCode::LoopBegin, OpCode::LoopEnd]),
        Err(ParseError::UnterminatedLoop { position: 0 })
    );
    assert_eq!(
        parse(vec![OpCode::LoopBegin, OpCode::LoopEnd, OpCode::LoopBegin]),
        Err(ParseError::UnterminatedLoop { position: 2 })
    );
    assert_eq!(
        parse(vec![OpCode::Increment, OpCode::LoopBegin, OpCode::LoopBegin, OpCode::Write]),
        Err(ParseError::UnterminatedLoop { position: 1 })
    );
}

#[test]
fn parse_meets_the_unmatched_end_before_the_open_loop() {
    assert_eq!(
        parse(vec![OpCode::LoopEnd, OpCode::LoopBegin]),
        Err(ParseError::UnmatchedLoopEnd { position: 0 })
    );
}

#[test]
fn parse_then_flatten_gives_the_opcodes_back() {
    let opcodes = vec![
        OpCode::Increment,
        OpCode::LoopBegin,
        OpCode::IncrementPointer,
        OpCode::LoopBegin,
        OpCode::Read,
        OpCode::Write,
        OpCode::LoopEnd,
        OpCode::LoopBegin,
        OpCode::LoopEnd,
        OpCode::DecrementPointer,
        OpCode::LoopEnd,
        OpCode::Decrement,
        OpCode::LoopBegin,
        OpCode::LoopEnd,
    ];
    let program = parse(opcodes.clone()).unwrap();
    assert_eq!(flattened(&program), opcodes);
}

#[test]
fn parse_takes_deep_nesting() {
    let depth = 300;
    let mut opcodes = Vec::new();
    for _ in 0..depth {
        opcodes.push(OpCode::LoopBegin);
    }
    opcodes.push(OpCode::Increment);
    for _ in 0..depth {
        opcodes.push(OpCode::LoopEnd);
    }
    let program = parse(opcodes.clone()).unwrap();
    assert_eq!(flattened(&program), opcodes);
    let mut level = &program;
    for _ in 0..depth {
        assert_eq!(level.len(), 1);
        match &level[0] {
            Instruction::Loop(body) => level = body,
            other => panic!("expected a loop, found {:?}", other),
        }
    }
    assert_eq!(level, &vec![Instruction::Increment]);
}
