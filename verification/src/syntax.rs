//! The vocabulary shared by all stages: opcodes, instructions and the
//! mathematical model of an instruction tree.
use vstd::prelude::*;

verus! {

/// One operation as it appears in program text, before loops are paired up.
#[derive(Debug, Clone, Copy, PartialEq, Eq, Structural)]
pub enum OpCode {
    IncrementPointer,
    DecrementPointer,
    Increment,
    Decrement,
    Write,
    Read,
    LoopBegin,
    LoopEnd,
}

/// One executable instruction. A loop owns the instructions of its body.
#[derive(Debug, PartialEq, Eq)]
pub enum Instruction {
    IncrementPointer,
    DecrementPointer,
    Increment,
    Decrement,
    Write,
    Read,
    Loop(Vec<Instruction>),
}

/// The mathematical model of an [`Instruction`]: the same tree, with
/// sequences in place of vectors.
pub enum Node {
    IncrementPointer,
    DecrementPointer,
    Increment,
    Decrement,
    Write,
    Read,
    Loop(Seq<Node>),
}

/// The model of a sequence of instructions, element by element.
pub open spec fn nodes(program: Seq<Instruction>) -> Seq<Node>
    decreases program,
{
    Seq::new(
        program.len(),
        |i: int|
            if 0 <= i < program.len() {
                program[i].view()
            } else {
                Node::Read
            },
    )
}

impl View for Instruction {
    type V = Node;

    open spec fn view(&self) -> Node
        decreases self,
    {
        match self {
            Instruction::IncrementPointer => Node::IncrementPointer,
            Instruction::DecrementPointer => Node::DecrementPointer,
            Instruction::Increment => Node::Increment,
            Instruction::Decrement => Node::Decrement,
            Instruction::Write => Node::Write,
            Instruction::Read => Node::Read,
            Instruction::Loop(body) => Node::Loop(nodes(body@)),
        }
    }
}

impl Clone for Instruction {
    /// A copy of the instruction with the same tree.
    fn clone(&self) -> (copy: Instruction)
        ensures
            copy@ == self@,
        decreases self,
    {
        match self {
            Instruction::IncrementPointer => Instruction::IncrementPointer,
            Instruction::DecrementPointer => Instruction::DecrementPointer,
            Instruction::Increment => Instruction::Increment,
            Instruction::Decrement => Instruction::Decrement,
            Instruction::Write => Instruction::Write,
            Instruction::Read => Instruction::Read,
            Instruction::Loop(body) => {
                let mut copies: Vec<Instruction> = Vec::new();
                let mut i: usize = 0;
                while i < body.len()
                    invariant
                        *self == Instruction::Loop(*body),
                        i <= body.len(),
                        copies@.len() == i,
                        forall|k: int| 0 <= k < i ==> copies@[k]@ == body@[k]@,
                    decreases body.len() - i,
                {
                    assert(decreases_to!(*self => self->0));
                    copies.push(body[i].clone());
                    i += 1;
                }
                assert(nodes(copies@) =~= nodes(body@));
                Instruction::Loop(copies)
            },
        }
    }
}

/// The opcodes that a single node stands for: itself, or for a loop its
/// flattened body between a `LoopBegin` and a `LoopEnd`.
pub open spec fn flatten_node(node: Node) -> Seq<OpCode>
    decreases node,
{
    match node {
        Node::IncrementPointer => seq![OpCode::IncrementPointer],
        Node::DecrementPointer => seq![OpCode::DecrementPointer],
        Node::Increment => seq![OpCode::Increment],
        Node::Decrement => seq![OpCode::Decrement],
        Node::Write => seq![OpCode::Write],
        Node::Read => seq![OpCode::Read],
        Node::Loop(body) => seq![OpCode::LoopBegin] + flatten(body) + seq![OpCode::LoopEnd],
    }
}

/// The opcode sequence that a tree stands for, read depth first.
pub open spec fn flatten(program: Seq<Node>) -> Seq<OpCode>
    decreases program,
{
    if program.len() == 0 {
        Seq::empty()
    } else {
        flatten(program.drop_last()) + flatten_node(program.last())
    }
}

/// Appending an instruction appends its model.
pub proof fn lemma_nodes_push(program: Seq<Instruction>, instruction: Instruction)
    ensures
        nodes(program.push(instruction)) == nodes(program).push(instruction@),
{
}

/// Appending a node appends its opcodes.
pub proof fn lemma_flatten_push(program: Seq<Node>, node: Node)
    ensures
        flatten(program.push(node)) == flatten(program) + flatten_node(node),
{
    assert(program.push(node).drop_last() =~= program);
}

/// Joining two trees joins their opcodes.
pub proof fn lemma_flatten_concat(first: Seq<Node>, second: Seq<Node>)
    ensures
        flatten(first + second) == flatten(first) + flatten(second),
    decreases second.len(),
{
    if second.len() > 0 {
        lemma_flatten_concat(first, second.drop_last());
        assert((first + second).drop_last() =~= first + second.drop_last());
    }
}

} // verus!
