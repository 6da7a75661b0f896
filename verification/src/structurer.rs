//! The structurer: a flat opcode sequence to a tree of instructions.
//!
//! Structuring is the inverse of flattening. It succeeds exactly on the
//! sequences whose loop opcodes are balanced, and the tree it returns
//! flattens back to the sequence it was given.
use crate::syntax::{
    flatten, flatten_node, lemma_flatten_concat, lemma_flatten_push, lemma_nodes_push, nodes,
    Instruction, Node, OpCode,
};
use vstd::prelude::*;

verus! {

/// Why an opcode sequence has no tree. Positions count opcodes from zero.
#[derive(Debug, Clone, Copy, PartialEq, Eq, Structural)]
pub enum ParseError {
    /// The `LoopEnd` at `position` closes a loop that was never opened.
    UnmatchedLoopEnd { position: usize },
    /// The loop opened by the `LoopBegin` at `position` is never closed.
    UnterminatedLoop { position: usize },
}

/// The change in nesting depth that an opcode causes.
pub open spec fn nesting_change(op: OpCode) -> int {
    match op {
        OpCode::LoopBegin => 1,
        OpCode::LoopEnd => -1,
        _ => 0,
    }
}

/// The nesting depth after the first `count` opcodes: loops opened minus
/// loops closed.
pub open spec fn depth_after(ops: Seq<OpCode>, count: int) -> int
    decreases count,
{
    if count <= 0 {
        0
    } else {
        depth_after(ops, count - 1) + nesting_change(ops[count - 1])
    }
}

/// Whether no `LoopEnd` among the first `count` opcodes lacks an open loop.
pub open spec fn never_negative(ops: Seq<OpCode>, count: int) -> bool {
    forall|k: int| 0 <= k <= count ==> depth_after(ops, k) >= 0
}

/// Whether every loop that is opened is closed, and nothing else is closed.
pub open spec fn balanced(ops: Seq<OpCode>) -> bool {
    never_negative(ops, ops.len() as int) && depth_after(ops, ops.len() as int) == 0
}

/// Whether `position` holds the first `LoopEnd` that is met while no loop
/// is open.
pub open spec fn stray_end_at(ops: Seq<OpCode>, position: int) -> bool {
    &&& 0 <= position < ops.len()
    &&& ops[position] == OpCode::LoopEnd
    &&& depth_after(ops, position) == 0
    &&& never_negative(ops, position)
}

/// Whether `position` holds the outermost `LoopBegin` that is still open at
/// the end of a sequence without stray `LoopEnd`.
pub open spec fn open_loop_at(ops: Seq<OpCode>, position: int) -> bool {
    &&& 0 <= position < ops.len()
    &&& ops[position] == OpCode::LoopBegin
    &&& depth_after(ops, position) == 0
    &&& never_negative(ops, ops.len() as int)
    &&& forall|k: int| position < k <= ops.len() ==> depth_after(ops, k) > 0
}

/// Whether the `LoopEnd` at `position` has no `LoopBegin` to pair with:
/// the depth behind it is lower than anywhere before.
pub open spec fn unmatched_end_at(ops: Seq<OpCode>, position: int) -> bool {
    &&& 0 <= position < ops.len()
    &&& ops[position] == OpCode::LoopEnd
    &&& forall|k: int|
        0 <= k <= position ==> #[trigger] depth_after(ops, k) > depth_after(ops, position + 1)
}

/// Whether the `LoopBegin` at `position` has no `LoopEnd` to pair with:
/// the depth never comes back down to what it was before it.
pub open spec fn unmatched_begin_at(ops: Seq<OpCode>, position: int) -> bool {
    &&& 0 <= position < ops.len()
    &&& ops[position] == OpCode::LoopBegin
    &&& forall|k: int|
        position < k <= ops.len() ==> #[trigger] depth_after(ops, k) > depth_after(ops, position)
}

/// What structuring owes for `ops`: a tree that flattens to `ops`, or the
/// error that `ops` calls for.
pub open spec fn structures_to(ops: Seq<OpCode>, outcome: Result<Seq<Node>, ParseError>) -> bool {
    match outcome {
        Ok(program) => flatten(program) == ops,
        Err(ParseError::UnmatchedLoopEnd { position }) => stray_end_at(ops, position as int),
        Err(ParseError::UnterminatedLoop { position }) => open_loop_at(ops, position as int),
    }
}

/// The model of a structuring result.
pub open spec fn outcome_of(result: Result<Vec<Instruction>, ParseError>) -> Result<
    Seq<Node>,
    ParseError,
> {
    match result {
        Ok(program) => Ok(nodes(program@)),
        Err(error) => Err(error),
    }
}

/// Depth is counted from the opcodes alone: where `part` repeats the
/// opcodes of `whole` from `offset` on, its depths are those of `whole`
/// less the depth at `offset`.
pub proof fn lemma_depth_of_part(whole: Seq<OpCode>, part: Seq<OpCode>, offset: int, count: int)
    requires
        0 <= offset,
        0 <= count <= part.len(),
        offset + count <= whole.len(),
        forall|j: int| 0 <= j < count ==> part[j] == whole[offset + j],
    ensures
        depth_after(part, count) == depth_after(whole, offset + count) - depth_after(whole, offset),
    decreases count,
{
    if count > 0 {
        lemma_depth_of_part(whole, part, offset, count - 1);
    }
}

/// The depth never exceeds the number of opcodes counted.
pub proof fn lemma_depth_bound(ops: Seq<OpCode>, count: int)
    requires
        0 <= count,
    ensures
        depth_after(ops, count) <= count,
    decreases count,
{
    if count > 0 {
        lemma_depth_bound(ops, count - 1);
    }
}

/// Two balanced sequences joined are balanced.
pub proof fn lemma_balanced_concat(first: Seq<OpCode>, second: Seq<OpCode>)
    requires
        balanced(first),
        balanced(second),
    ensures
        balanced(first + second),
{
    let joined = first + second;
    assert forall|k: int| 0 <= k <= joined.len() implies depth_after(joined, k) >= 0 by {
        if k <= first.len() {
            lemma_depth_of_part(joined, first, 0, k);
        } else {
            lemma_depth_of_part(joined, first, 0, first.len() as int);
            lemma_depth_of_part(joined, second, first.len() as int, k - first.len());
        }
    }
    lemma_depth_of_part(joined, first, 0, first.len() as int);
    lemma_depth_of_part(joined, second, first.len() as int, second.len() as int);
}

/// Inside a loop's opcodes the depth stays positive, from behind the
/// `LoopBegin` up to the `LoopEnd`.
pub proof fn lemma_depth_inside_loop(body: Seq<OpCode>, count: int)
    requires
        balanced(body),
        1 <= count <= body.len() + 1,
    ensures
        depth_after(seq![OpCode::LoopBegin] + body + seq![OpCode::LoopEnd], count) == 1
            + depth_after(body, count - 1),
        depth_after(seq![OpCode::LoopBegin] + body + seq![OpCode::LoopEnd], count) >= 1,
{
    let whole = seq![OpCode::LoopBegin] + body + seq![OpCode::LoopEnd];
    assert(depth_after(whole, 1) == depth_after(whole, 0) + nesting_change(whole[0]));
    lemma_depth_of_part(whole, body, 1, count - 1);
}

/// What a node flattens to is balanced and not empty.
pub proof fn lemma_flatten_node_balanced(node: Node)
    ensures
        balanced(flatten_node(node)),
        flatten_node(node).len() >= 1,
    decreases node,
{
    match node {
        Node::Loop(body) => {
            lemma_flatten_balanced(body);
            let inner = flatten(body);
            let whole = flatten_node(node);
            let last = whole.len() as int;
            assert forall|k: int| 0 <= k <= whole.len() implies depth_after(whole, k) >= 0 by {
                if 1 <= k < last {
                    lemma_depth_inside_loop(inner, k);
                } else if k == last {
                    lemma_depth_inside_loop(inner, last - 1);
                }
            }
            lemma_depth_inside_loop(inner, last - 1);
        },
        _ => {
            let whole = flatten_node(node);
            assert(depth_after(whole, 1) == depth_after(whole, 0) + nesting_change(whole[0]));
        },
    }
}

/// What a tree flattens to is balanced.
pub proof fn lemma_flatten_balanced(program: Seq<Node>)
    ensures
        balanced(flatten(program)),
    decreases program,
{
    if program.len() > 0 {
        lemma_flatten_balanced(program.drop_last());
        lemma_flatten_node_balanced(program.last());
        lemma_balanced_concat(flatten(program.drop_last()), flatten_node(program.last()));
    }
}

/// Strictly inside the opcodes of a node that follows a balanced sequence,
/// the depth is positive.
pub proof fn lemma_depth_inside_node(front: Seq<OpCode>, node: Node, cut: int)
    requires
        balanced(front),
        front.len() < cut < front.len() + flatten_node(node).len(),
    ensures
        depth_after(front + flatten_node(node), cut) >= 1,
{
    let whole = front + flatten_node(node);
    let tail = flatten_node(node);
    let inside = cut - front.len();
    lemma_depth_of_part(whole, front, 0, front.len() as int);
    lemma_depth_of_part(whole, tail, front.len() as int, inside);
    match node {
        Node::Loop(body) => {
            lemma_flatten_balanced(body);
            lemma_depth_inside_loop(flatten(body), inside);
        },
        _ => {},
    }
}

/// A loop of a tree flattens to a `LoopBegin`, the opcodes of its body and
/// a `LoopEnd`, behind the opcodes of what stands before it: the body is
/// exactly what the two enclose.
pub proof fn lemma_loop_encloses_body(program: Seq<Node>, at: int, body: Seq<Node>)
    requires
        0 <= at < program.len(),
        program[at] == Node::Loop(body),
    ensures
        ({
            let ops = flatten(program);
            let begin = flatten(program.take(at)).len() as int;
            let end = begin + 1 + flatten(body).len();
            &&& end < ops.len()
            &&& ops[begin] == OpCode::LoopBegin
            &&& ops[end] == OpCode::LoopEnd
            &&& ops.subrange(begin + 1, end) == flatten(body)
        }),
{
    let front = program.take(at);
    let back = program.skip(at + 1);
    assert(program =~= front.push(program[at]) + back);
    lemma_flatten_concat(front.push(program[at]), back);
    lemma_flatten_push(front, program[at]);
}

/// Flattening loses nothing: two trees that flatten to the same opcodes are
/// the same tree.
pub proof fn lemma_flatten_injective(first: Seq<Node>, second: Seq<Node>)
    requires
        flatten(first) == flatten(second),
    ensures
        first == second,
    decreases flatten(first).len(),
{
    let ops = flatten(first);
    if first.len() == 0 {
        if second.len() > 0 {
            lemma_flatten_node_balanced(second.last());
        }
    } else if second.len() == 0 {
        lemma_flatten_node_balanced(first.last());
    } else {
        let front1 = first.drop_last();
        let front2 = second.drop_last();
        let tail1 = flatten_node(first.last());
        let tail2 = flatten_node(second.last());
        let cut1 = flatten(front1).len() as int;
        let cut2 = flatten(front2).len() as int;
        lemma_flatten_node_balanced(first.last());
        lemma_flatten_node_balanced(second.last());
        lemma_flatten_balanced(front1);
        lemma_flatten_balanced(front2);
        if cut1 < cut2 {
            lemma_depth_inside_node(flatten(front1), first.last(), cut2);
            lemma_depth_of_part(ops, flatten(front2), 0, cut2);
        } else if cut2 < cut1 {
            lemma_depth_inside_node(flatten(front2), second.last(), cut1);
            lemma_depth_of_part(ops, flatten(front1), 0, cut1);
        }
        assert(flatten(front1) =~= ops.take(cut1));
        assert(flatten(front2) =~= ops.take(cut1));
        assert(tail1 =~= ops.skip(cut1));
        assert(tail2 =~= ops.skip(cut1));
        lemma_flatten_injective(front1, front2);
        match (first.last(), second.last()) {
            (Node::Loop(body1), Node::Loop(body2)) => {
                assert(flatten(body1) =~= tail1.subrange(1, tail1.len() - 1));
                assert(flatten(body2) =~= tail2.subrange(1, tail2.len() - 1));
                lemma_flatten_injective(body1, body2);
            },
            _ => {},
        }
        assert(second =~= front2.push(second.last()));
    }
}

/// The instruction that an opcode other than a loop opcode stands for.
pub open spec fn plain_node(op: OpCode) -> Node {
    match op {
        OpCode::IncrementPointer => Node::IncrementPointer,
        OpCode::DecrementPointer => Node::DecrementPointer,
        OpCode::Increment => Node::Increment,
        OpCode::Decrement => Node::Decrement,
        OpCode::Write => Node::Write,
        _ => Node::Read,
    }
}

/// The last position up to `upto` at which no loop is open.
pub proof fn lemma_last_depth_zero(ops: Seq<OpCode>, upto: int) -> (position: int)
    requires
        0 <= upto,
    ensures
        0 <= position <= upto,
        depth_after(ops, position) == 0,
        forall|k: int| position < k <= upto ==> depth_after(ops, k) != 0,
    decreases upto,
{
    if depth_after(ops, upto) == 0 {
        upto
    } else {
        lemma_last_depth_zero(ops, upto - 1)
    }
}

/// Every balanced sequence has a tree: one that flattens to it.
pub proof fn lemma_balanced_has_tree(ops: Seq<OpCode>) -> (tree: Seq<Node>)
    requires
        balanced(ops),
    ensures
        flatten(tree) == ops,
    decreases ops.len(),
{
    let count = ops.len() as int;
    if count == 0 {
        Seq::empty()
    } else if ops.last() == OpCode::LoopEnd {
        // the loop that this opcode closes was opened where the depth was last zero
        let opened = lemma_last_depth_zero(ops, count - 1);
        assert(depth_after(ops, opened + 1) >= 1);
        let front = ops.take(opened);
        let inner = ops.subrange(opened + 1, count - 1);
        assert forall|k: int| 0 <= k <= front.len() implies depth_after(front, k) == depth_after(
            ops,
            k,
        ) by {
            lemma_depth_of_part(ops, front, 0, k);
        }
        assert forall|k: int| 0 <= k <= inner.len() implies depth_after(inner, k) == depth_after(
            ops,
            opened + 1 + k,
        ) - 1 by {
            lemma_depth_of_part(ops, inner, opened + 1, k);
        }
        let before = lemma_balanced_has_tree(front);
        let body = lemma_balanced_has_tree(inner);
        lemma_flatten_push(before, Node::Loop(body));
        before.push(Node::Loop(body))
    } else {
        let front = ops.drop_last();
        assert(depth_after(ops, count - 1) >= 0);
        assert forall|k: int| 0 <= k <= front.len() implies depth_after(front, k) == depth_after(
            ops,
            k,
        ) by {
            lemma_depth_of_part(ops, front, 0, k);
        }
        let before = lemma_balanced_has_tree(front);
        lemma_flatten_push(before, plain_node(ops.last()));
        before.push(plain_node(ops.last()))
    }
}

/// A balanced sequence calls for no error.
pub proof fn lemma_balanced_has_no_error(ops: Seq<OpCode>, error: ParseError)
    requires
        balanced(ops),
    ensures
        !structures_to(ops, Err(error)),
{
    match error {
        ParseError::UnmatchedLoopEnd { position } => {
            if stray_end_at(ops, position as int) {
                assert(depth_after(ops, position as int + 1) == -1);
            }
        },
        ParseError::UnterminatedLoop { position } => {},
    }
}

/// A balanced sequence has a tree: what structuring owes for it is no
/// error, and the tree flattens back to the sequence.
pub proof fn lemma_balanced_structures(ops: Seq<OpCode>, outcome: Result<Seq<Node>, ParseError>)
    requires
        balanced(ops),
        structures_to(ops, outcome),
    ensures
        outcome matches Ok(tree) && flatten(tree) == ops,
{
    if let Err(error) = outcome {
        lemma_balanced_has_no_error(ops, error);
    }
}

/// A sequence calls for at most one error.
pub proof fn lemma_error_unique(ops: Seq<OpCode>, first: ParseError, second: ParseError)
    requires
        structures_to(ops, Err(first)),
        structures_to(ops, Err(second)),
    ensures
        first == second,
{
    match (first, second) {
        (
            ParseError::UnmatchedLoopEnd { position: p },
            ParseError::UnmatchedLoopEnd { position: q },
        ) => {
            assert(depth_after(ops, p as int + 1) == -1);
            assert(depth_after(ops, q as int + 1) == -1);
        },
        (
            ParseError::UnmatchedLoopEnd { position: p },
            ParseError::UnterminatedLoop { position: q },
        ) => {
            assert(depth_after(ops, p as int + 1) == -1);
        },
        (
            ParseError::UnterminatedLoop { position: p },
            ParseError::UnmatchedLoopEnd { position: q },
        ) => {
            assert(depth_after(ops, q as int + 1) == -1);
        },
        (
            ParseError::UnterminatedLoop { position: p },
            ParseError::UnterminatedLoop { position: q },
        ) => {},
    }
}

/// Structuring is a function: a sequence has one outcome.
pub proof fn lemma_structure_unique(
    ops: Seq<OpCode>,
    first: Result<Seq<Node>, ParseError>,
    second: Result<Seq<Node>, ParseError>,
)
    requires
        structures_to(ops, first),
        structures_to(ops, second),
    ensures
        first == second,
{
    match (first, second) {
        (Ok(tree1), Ok(tree2)) => {
            lemma_flatten_injective(tree1, tree2);
        },
        (Ok(tree), Err(error)) => {
            lemma_flatten_balanced(tree);
            lemma_balanced_has_no_error(ops, error);
        },
        (Err(error), Ok(tree)) => {
            lemma_flatten_balanced(tree);
            lemma_balanced_has_no_error(ops, error);
        },
        (Err(error1), Err(error2)) => {
            lemma_error_unique(ops, error1, error2);
        },
    }
}

/// Where the depth is negative after `count` opcodes, some `LoopEnd` among
/// them is unmatched.
pub proof fn lemma_negative_depth_has_unmatched_end(ops: Seq<OpCode>, count: int) -> (position: int)
    requires
        0 <= count <= ops.len(),
        depth_after(ops, count) < 0,
    ensures
        0 <= position < count,
        unmatched_end_at(ops, position),
    decreases count,
{
    if exists|k: int| 0 <= k < count && depth_after(ops, k) < 0 {
        let k = choose|k: int| 0 <= k < count && depth_after(ops, k) < 0;
        lemma_negative_depth_has_unmatched_end(ops, k)
    } else {
        assert(depth_after(ops, count - 1) >= 0);
        count - 1
    }
}

/// A sequence with an unmatched `LoopEnd` has no tree: structuring fails
/// with `UnmatchedLoopEnd`, at the first such opcode.
pub proof fn lemma_unmatched_end_fails(
    ops: Seq<OpCode>,
    at: int,
    outcome: Result<Seq<Node>, ParseError>,
)
    requires
        unmatched_end_at(ops, at),
        structures_to(ops, outcome),
    ensures
        outcome matches Err(ParseError::UnmatchedLoopEnd { position }) && position <= at
            && unmatched_end_at(ops, position as int),
{
    assert(depth_after(ops, 0) == 0);
    match outcome {
        Ok(tree) => {
            lemma_flatten_balanced(tree);
        },
        _ => {},
    }
}

/// A sequence in which every `LoopEnd` is matched and some `LoopBegin` is
/// not has no tree: structuring fails with `UnterminatedLoop`, at the first
/// such opcode.
pub proof fn lemma_unmatched_begin_fails(
    ops: Seq<OpCode>,
    at: int,
    outcome: Result<Seq<Node>, ParseError>,
)
    requires
        forall|p: int| !unmatched_end_at(ops, p),
        unmatched_begin_at(ops, at),
        structures_to(ops, outcome),
    ensures
        outcome matches Err(ParseError::UnterminatedLoop { position }) && position <= at
            && unmatched_begin_at(ops, position as int),
{
    assert forall|k: int| 0 <= k <= ops.len() implies depth_after(ops, k) >= 0 by {
        if depth_after(ops, k) < 0 {
            lemma_negative_depth_has_unmatched_end(ops, k);
        }
    }
    match outcome {
        Ok(tree) => {
            lemma_flatten_balanced(tree);
        },
        Err(ParseError::UnmatchedLoopEnd { position }) => {
            assert(depth_after(ops, position as int + 1) == -1);
        },
        _ => {},
    }
}

/// Structures the opcodes from `start` up to `end`. Positions in an error
/// count from `start`.
fn parse_range(opcodes: &Vec<OpCode>, start: usize, end: usize) -> (result: Result<
    Vec<Instruction>,
    ParseError,
>)
    requires
        start <= end <= opcodes.len(),
    ensures
        structures_to(opcodes@.subrange(start as int, end as int), outcome_of(result)),
    decreases end - start,
{
    let ghost ops = opcodes@.subrange(start as int, end as int);
    let mut program: Vec<Instruction> = Vec::new();
    let mut loop_stack: usize = 0;
    let mut loop_start: usize = start;
    let mut i: usize = start;
    while i < end
        invariant
            start <= i <= end <= opcodes.len(),
            ops == opcodes@.subrange(start as int, end as int),
            loop_stack == depth_after(ops, i - start),
            never_negative(ops, i - start),
            loop_stack == 0 ==> flatten(nodes(program@)) == ops.take(i - start),
            loop_stack > 0 ==> {
                &&& start <= loop_start < i
                &&& ops[loop_start - start] == OpCode::LoopBegin
                &&& depth_after(ops, loop_start - start) == 0
                &&& flatten(nodes(program@)) == ops.take(loop_start - start)
                &&& forall|k: int| loop_start - start < k <= i - start ==> depth_after(ops, k) > 0
            },
        decreases end - i,
    {
        let op = opcodes[i];
        let ghost at = i - start;
        let ghost before = program@;
        proof {
            lemma_depth_bound(ops, at);
        }
        if loop_stack == 0 {
            let instr = match op {
                OpCode::IncrementPointer => Some(Instruction::IncrementPointer),
                OpCode::DecrementPointer => Some(Instruction::DecrementPointer),
                OpCode::Increment => Some(Instruction::Increment),
                OpCode::Decrement => Some(Instruction::Decrement),
                OpCode::Write => Some(Instruction::Write),
                OpCode::Read => Some(Instruction::Read),
                OpCode::LoopBegin => {
                    loop_start = i;
                    loop_stack += 1;
                    None
                },
                OpCode::LoopEnd => {
                    return Err(ParseError::UnmatchedLoopEnd { position: i - start });
                },
            };
            match instr {
                Some(instr) => {
                    program.push(instr);
                    proof {
                        lemma_nodes_push(before, instr);
                        lemma_flatten_push(nodes(before), instr@);
                    }
                },
                None => (),
            }
        } else {
            match op {
                OpCode::LoopBegin => {
                    loop_stack += 1;
                },
                OpCode::LoopEnd => {
                    loop_stack -= 1;
                    if loop_stack == 0 {
                        let ghost opened = loop_start - start;
                        let ghost inner = opcodes@.subrange(loop_start + 1, i as int);
                        proof {
                            assert forall|k: int| 0 <= k <= inner.len() implies depth_after(
                                inner,
                                k,
                            ) == depth_after(ops, opened + 1 + k) - 1 by {
                                lemma_depth_of_part(ops, inner, opened + 1, k);
                            }
                        }
                        match parse_range(opcodes, loop_start + 1, i) {
                            Ok(body) => {
                                let instr = Instruction::Loop(body);
                                program.push(instr);
                                proof {
                                    lemma_nodes_push(before, instr);
                                    lemma_flatten_push(nodes(before), instr@);
                                }
                            },
                            Err(error) => {
                                // cannot happen: what a loop encloses is balanced
                                proof {
                                    lemma_balanced_has_no_error(inner, error);
                                }
                                return Err(error);
                            },
                        }
                    }
                },
                _ => (),
            }
        }
        i += 1;
    }
    if loop_stack != 0 {
        return Err(ParseError::UnterminatedLoop { position: loop_start - start });
    }
    assert(ops.take(ops.len() as int) =~= ops);
    Ok(program)
}

/// Structures an opcode sequence into its instruction tree.
///
/// Succeeds exactly when the loop opcodes are balanced, with the one tree
/// that flattens to `opcodes`. Otherwise reports the first `LoopEnd` without
/// an open loop, or else the outermost loop that is left open.
pub fn parse(opcodes: Vec<OpCode>) -> (result: Result<Vec<Instruction>, ParseError>)
    ensures
        structures_to(opcodes@, outcome_of(result)),
        result is Ok <==> balanced(opcodes@),
{
    let result = parse_range(&opcodes, 0, opcodes.len());
    proof {
        assert(opcodes@.subrange(0, opcodes.len() as int) =~= opcodes@);
        match outcome_of(result) {
            Ok(tree) => {
                lemma_flatten_balanced(tree);
            },
            Err(error) => {
                if balanced(opcodes@) {
                    lemma_balanced_has_no_error(opcodes@, error);
                }
            },
        }
    }
    result
}

} // verus!
