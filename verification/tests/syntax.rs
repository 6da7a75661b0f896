use svolang::syntax::{Instruction, OpCode};

#[test]
fn clone_copies_a_plain_instruction() {
    assert_eq!(Instruction::Write.clone(), Instruction::Write);
    assert_eq!(Instruction::IncrementPointer.clone(), Instruction::IncrementPointer);
}

#[test]
fn clone_copies_a_whole_tree() {
    let tree = Instruction::Loop(vec![
        Instruction::Increment,
        Instruction::Loop(vec![Instruction::Read, Instruction::Loop(vec![])]),
        Instruction::DecrementPointer,
    ]);
    let copy = tree.clone();
    assert_eq!(copy, tree);
    match copy {
        Instruction::Loop(body) => assert_eq!(body.len(), 3),
        other => panic!("expected a loop, found {:?}", other),
    }
}

#[test]
fn trees_differ_where_a_body_differs() {
    assert_ne!(
        Instruction::Loop(vec![Instruction::Increment]),
        Instruction::Loop(vec![Instruction::Decrement])
    );
    assert_ne!(Instruction::Loop(vec![]), Instruction::Loop(vec![Instruction::Loop(vec![])]));
}

#[test]
fn opcodes_are_plain_values() {
    let op = OpCode::LoopBegin;
    let copy = op;
    assert_eq!(op, copy);
    assert_ne!(OpCode::LoopBegin, OpCode::LoopEnd);
}
