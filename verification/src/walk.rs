//! What a program means, told as a walk over its tree, and the proof that
//! the machine computes it.
//!
//! The walk executes a block instruction by instruction and a loop by
//! walking its body again and again while the cell under the pointer is not
//! zero. It is the plainest account of the language. A loop need not end,
//! so the walk is given a number of passes that it may nest. The machine
//! of [`crate::machine`] reaches, turn by turn, every result that the walk
//! reaches, and no other.
use crate::machine::{
    decremented, incremented, lemma_settled_stays, Cursor, Execution, RunError, State, Status,
};
use crate::syntax::Node;
use vstd::prelude::*;

verus! {

/// The tape, the data pointer and the streams, as a walk sees them: how
/// many bytes of the input have been read, and the bytes written so far.
#[verifier::ext_equal]
pub struct Store {
    pub tape: Seq<u8>,
    pub pointer: int,
    pub consumed: int,
    pub output: Seq<u8>,
}

/// How a walk ends.
pub enum Outcome {
    /// Every instruction was executed. The store is what they left.
    Done(Store),
    /// An instruction failed. The store is what was there when it did.
    Failed(RunError, Store),
    /// The passes that were allowed did not suffice.
    Unfinished,
}

impl Store {
    /// The cell under the data pointer.
    pub open spec fn cell(self) -> u8 {
        self.tape[self.pointer]
    }

    /// The store with `value` in the cell under the data pointer.
    pub open spec fn put(self, value: u8) -> Store {
        Store { tape: self.tape.update(self.pointer, value), ..self }
    }
}

/// The walk over one instruction.
///
/// A loop whose cell is zero is done. Otherwise its body is walked once,
/// and the loop is then walked again from the store that the body left,
/// each with one pass fewer.
pub open spec fn walk_node(node: Node, store: Store, input: Seq<u8>, passes: nat) -> Outcome
    decreases passes, node, 0int,
{
    match node {
        Node::IncrementPointer => if store.pointer + 1 < store.tape.len() {
            Outcome::Done(Store { pointer: store.pointer + 1, ..store })
        } else {
            Outcome::Failed(RunError::PointerOutOfBounds, store)
        },
        Node::DecrementPointer => if store.pointer >= 1 {
            Outcome::Done(Store { pointer: store.pointer - 1, ..store })
        } else {
            Outcome::Failed(RunError::PointerOutOfBounds, store)
        },
        Node::Increment => Outcome::Done(store.put(incremented(store.cell()))),
        Node::Decrement => Outcome::Done(store.put(decremented(store.cell()))),
        Node::Write => Outcome::Done(Store { output: store.output.push(store.cell()), ..store }),
        Node::Read => if 0 <= store.consumed < input.len() {
            Outcome::Done(
                Store { consumed: store.consumed + 1, ..store.put(input[store.consumed]) },
            )
        } else {
            Outcome::Failed(RunError::InputExhausted, store)
        },
        Node::Loop(body) => if store.cell() == 0 {
            Outcome::Done(store)
        } else if passes == 0 {
            Outcome::Unfinished
        } else {
            match walk_block(body, 0, store, input, (passes - 1) as nat) {
                Outcome::Done(next) => walk_node(node, next, input, (passes - 1) as nat),
                other => other,
            }
        },
    }
}

/// The walk over the instructions of `block` from position `from` on, in
/// order. It ends with the first instruction that does not get done.
pub open spec fn walk_block(
    block: Seq<Node>,
    from: int,
    store: Store,
    input: Seq<u8>,
    passes: nat,
) -> Outcome
    decreases passes, block, block.len() - from,
{
    if from < 0 || from >= block.len() {
        Outcome::Done(store)
    } else {
        match walk_node(block[from], store, input, passes) {
            Outcome::Done(next) => walk_block(block, from + 1, next, input, passes),
            other => other,
        }
    }
}

/// The walk over a whole program, from a tape and a pointer, with nothing
/// read or written yet.
pub open spec fn walk(
    program: Seq<Node>,
    tape: Seq<u8>,
    pointer: int,
    input: Seq<u8>,
    passes: nat,
) -> Outcome {
    walk_block(
        program,
        0,
        Store { tape, pointer, consumed: 0, output: Seq::empty() },
        input,
        passes,
    )
}

/// A walk over an instruction that came to an end comes to the same end
/// with more passes.
pub proof fn lemma_node_more_passes(
    node: Node,
    store: Store,
    input: Seq<u8>,
    passes: nat,
    more: nat,
)
    requires
        passes <= more,
        !(walk_node(node, store, input, passes) is Unfinished),
    ensures
        walk_node(node, store, input, more) == walk_node(node, store, input, passes),
    decreases passes, node, 0int,
{
    match node {
        Node::Loop(body) => {
            if store.cell() != 0 {
                let fewer = (passes - 1) as nat;
                let most = (more - 1) as nat;
                lemma_block_more_passes(body, 0, store, input, fewer, most);
                match walk_block(body, 0, store, input, fewer) {
                    Outcome::Done(next) => {
                        lemma_node_more_passes(node, next, input, fewer, most);
                    },
                    _ => {},
                }
            }
        },
        _ => {},
    }
}

/// A walk over a block that came to an end comes to the same end with more
/// passes.
pub proof fn lemma_block_more_passes(
    block: Seq<Node>,
    from: int,
    store: Store,
    input: Seq<u8>,
    passes: nat,
    more: nat,
)
    requires
        passes <= more,
        !(walk_block(block, from, store, input, passes) is Unfinished),
    ensures
        walk_block(block, from, store, input, more) == walk_block(block, from, store, input, passes),
    decreases passes, block, block.len() - from,
{
    if 0 <= from < block.len() {
        lemma_node_more_passes(block[from], store, input, passes, more);
        match walk_node(block[from], store, input, passes) {
            Outcome::Done(next) => {
                lemma_block_more_passes(block, from + 1, next, input, passes, more);
            },
            _ => {},
        }
    }
}

/// The store of an execution.
pub open spec fn store_of(execution: Execution) -> Store {
    Store {
        tape: execution.state.tape,
        pointer: execution.state.pointer,
        consumed: execution.consumed,
        output: execution.output,
    }
}

/// The running execution with the stack of `execution`, its innermost
/// cursor at `index`, and the given store.
pub open spec fn placed(execution: Execution, index: int, store: Store) -> Execution {
    let top = execution.state.stack.last();
    Execution {
        state: State {
            stack: execution.state.stack.drop_last().push(Cursor { block: top.block, index }),
            tape: store.tape,
            pointer: store.pointer,
        },
        consumed: store.consumed,
        output: store.output,
        status: Status::Running,
    }
}

/// Whether an execution has reached what a walk came to: for a walk that
/// was done, the same store with the innermost cursor at `index`; for a
/// walk that failed, the same failure with the same store.
pub open spec fn reached(
    execution: Execution,
    end: Execution,
    index: int,
    outcome: Outcome,
) -> bool {
    match outcome {
        Outcome::Done(store) => end == placed(execution, index, store),
        Outcome::Failed(error, store) => end.status == Status::Failed(error) && store_of(end)
            == store,
        Outcome::Unfinished => true,
    }
}

/// Turns add up: an execution after `first + second` turns is the
/// execution after `first` turns, after `second` more.
pub proof fn lemma_after_add(execution: Execution, input: Seq<u8>, first: nat, second: nat)
    ensures
        execution.after(input, first + second) == execution.after(input, first).after(
            input,
            second,
        ),
    decreases second,
{
    if second > 0 {
        lemma_after_add(execution, input, first, (second - 1) as nat);
    }
}

/// One turn is the execution after one turn.
pub proof fn lemma_after_one(execution: Execution, input: Seq<u8>)
    ensures
        execution.after(input, 1) == execution.turn(input),
{
    assert(execution.after(input, 0) == execution);
}

/// The machine follows the walk over one instruction: from a running
/// execution that stands at `node`, some number of turns leads to what the
/// walk over `node` comes to, with the cursor behind the instruction.
pub proof fn lemma_node_agrees(
    execution: Execution,
    node: Node,
    input: Seq<u8>,
    passes: nat,
) -> (turns: nat)
    requires
        execution.status == Status::Running,
        execution.state.stack.len() >= 1,
        execution.state.current() == Some(node),
    ensures
        reached(
            execution,
            execution.after(input, turns),
            execution.state.stack.last().index + 1,
            walk_node(node, store_of(execution), input, passes),
        ),
    decreases passes, node, 0int,
{
    let store = store_of(execution);
    let top = execution.state.stack.last();
    let next = execution.turn(input);
    lemma_after_one(execution, input);
    match node {
        Node::Loop(body) => {
            if store.cell() == 0 {
                // one step passes over the loop
                1
            } else if passes == 0 {
                0
            } else {
                // one step enters the body, the body is walked, one step
                // goes back to the loop, and the loop is walked again
                let fewer = (passes - 1) as nat;
                let inside = lemma_block_agrees(next, body, 0, input, fewer);
                lemma_after_add(execution, input, 1, inside);
                match walk_block(body, 0, store, input, fewer) {
                    Outcome::Done(after_body) => {
                        let ended = placed(next, body.len() as int, after_body);
                        let back = ended.turn(input);
                        let again = lemma_node_agrees(back, node, input, fewer);
                        lemma_after_one(ended, input);
                        lemma_after_add(execution, input, 1 + inside, 1);
                        lemma_after_add(execution, input, 1 + inside + 1, again);
                        match walk_node(node, after_body, input, fewer) {
                            Outcome::Done(last) => {
                                assert(placed(back, top.index + 1, last) =~= placed(
                                    execution,
                                    top.index + 1,
                                    last,
                                ));
                            },
                            _ => {},
                        }
                        1 + inside + 1 + again
                    },
                    _ => 1 + inside,
                }
            }
        },
        // every other instruction is one step of the machine
        _ => 1,
    }
}

/// The machine follows the walk over a block: from a running execution
/// whose innermost cursor is at position `from` of `block`, some number of
/// turns leads to what the walk from there comes to, with the cursor at the
/// end of the block.
pub proof fn lemma_block_agrees(
    execution: Execution,
    block: Seq<Node>,
    from: int,
    input: Seq<u8>,
    passes: nat,
) -> (turns: nat)
    requires
        execution.status == Status::Running,
        execution.state.stack.len() >= 1,
        execution.state.stack.last() == (Cursor { block, index: from }),
        0 <= from <= block.len(),
    ensures
        reached(
            execution,
            execution.after(input, turns),
            block.len() as int,
            walk_block(block, from, store_of(execution), input, passes),
        ),
    decreases passes, block, block.len() - from,
{
    let store = store_of(execution);
    if from >= block.len() {
        assert(execution =~= placed(execution, block.len() as int, store));
        0
    } else {
        let first = lemma_node_agrees(execution, block[from], input, passes);
        match walk_node(block[from], store, input, passes) {
            Outcome::Done(after_first) => {
                let next = placed(execution, from + 1, after_first);
                let rest = lemma_block_agrees(next, block, from + 1, input, passes);
                lemma_after_add(execution, input, first, rest);
                match walk_block(block, from + 1, after_first, input, passes) {
                    Outcome::Done(last) => {
                        assert(placed(next, block.len() as int, last) =~= placed(
                            execution,
                            block.len() as int,
                            last,
                        ));
                    },
                    _ => {},
                }
                first + rest
            },
            _ => first,
        }
    }
}

/// The machine computes what the walk computes.
///
/// Where the walk over a program is done, the machine started on that
/// program halts after some number of turns, with the tape, the pointer,
/// the input read and the output written that the walk came to. Where the
/// walk fails, the machine fails in the same way, with the same four.
pub proof fn lemma_machine_agrees_with_walk(
    program: Seq<Node>,
    tape: Seq<u8>,
    pointer: int,
    input: Seq<u8>,
    passes: nat,
) -> (turns: nat)
    ensures
        match walk(program, tape, pointer, input, passes) {
            Outcome::Done(store) => {
                let end = Execution::begin(State::start(program, tape, pointer)).after(
                    input,
                    turns,
                );
                end.status == Status::Halted && store_of(end) == store
            },
            Outcome::Failed(error, store) => {
                let end = Execution::begin(State::start(program, tape, pointer)).after(
                    input,
                    turns,
                );
                end.status == Status::Failed(error) && store_of(end) == store
            },
            Outcome::Unfinished => true,
        },
{
    let execution = Execution::begin(State::start(program, tape, pointer));
    let walked = lemma_block_agrees(execution, program, 0, input, passes);
    match walk(program, tape, pointer, input, passes) {
        Outcome::Done(store) => {
            let ended = placed(execution, program.len() as int, store);
            lemma_after_one(ended, input);
            lemma_after_add(execution, input, walked, 1);
            walked + 1
        },
        _ => walked,
    }
}

/// An execution that is running after some turns was running after every
/// earlier turn.
pub proof fn lemma_running_before(execution: Execution, input: Seq<u8>, earlier: nat, turns: nat)
    requires
        earlier <= turns,
        execution.after(input, turns).status == Status::Running,
    ensures
        execution.after(input, earlier).status == Status::Running,
{
    if execution.after(input, earlier).status != Status::Running {
        lemma_settled_stays(execution, input, earlier, turns);
    }
}

/// A walk over an instruction that runs out of passes keeps the machine
/// busy: the execution is still running after at least as many turns as
/// there were passes.
pub proof fn lemma_node_unfinished(
    execution: Execution,
    node: Node,
    input: Seq<u8>,
    passes: nat,
) -> (turns: nat)
    requires
        execution.status == Status::Running,
        execution.state.stack.len() >= 1,
        execution.state.current() == Some(node),
        walk_node(node, store_of(execution), input, passes) is Unfinished,
    ensures
        turns >= passes,
        execution.after(input, turns).status == Status::Running,
    decreases passes, node, 0int,
{
    let store = store_of(execution);
    match node {
        Node::Loop(body) => {
            if passes == 0 {
                0
            } else {
                let fewer = (passes - 1) as nat;
                let next = execution.turn(input);
                lemma_after_one(execution, input);
                match walk_block(body, 0, store, input, fewer) {
                    Outcome::Done(after_body) => {
                        let inside = lemma_block_agrees(next, body, 0, input, fewer);
                        lemma_after_add(execution, input, 1, inside);
                        let ended = placed(next, body.len() as int, after_body);
                        let back = ended.turn(input);
                        let again = lemma_node_unfinished(back, node, input, fewer);
                        lemma_after_one(ended, input);
                        lemma_after_add(execution, input, 1 + inside, 1);
                        lemma_after_add(execution, input, 1 + inside + 1, again);
                        1 + inside + 1 + again
                    },
                    _ => {
                        let inside = lemma_block_unfinished(next, body, 0, input, fewer);
                        lemma_after_add(execution, input, 1, inside);
                        1 + inside
                    },
                }
            }
        },
        _ => 0,
    }
}

/// A walk over a block that runs out of passes keeps the machine busy: the
/// execution is still running after at least as many turns as there were
/// passes.
pub proof fn lemma_block_unfinished(
    execution: Execution,
    block: Seq<Node>,
    from: int,
    input: Seq<u8>,
    passes: nat,
) -> (turns: nat)
    requires
        execution.status == Status::Running,
        execution.state.stack.len() >= 1,
        execution.state.stack.last() == (Cursor { block, index: from }),
        0 <= from <= block.len(),
        walk_block(block, from, store_of(execution), input, passes) is Unfinished,
    ensures
        turns >= passes,
        execution.after(input, turns).status == Status::Running,
    decreases passes, block, block.len() - from,
{
    let store = store_of(execution);
    match walk_node(block[from], store, input, passes) {
        Outcome::Done(after_first) => {
            let first = lemma_node_agrees(execution, block[from], input, passes);
            let next = placed(execution, from + 1, after_first);
            let rest = lemma_block_unfinished(next, block, from + 1, input, passes);
            lemma_after_add(execution, input, first, rest);
            first + rest
        },
        _ => lemma_node_unfinished(execution, block[from], input, passes),
    }
}

/// The machine computes nothing but what the walk computes.
///
/// Where the machine started on a program has halted or failed after
/// `turns` turns, the walk over that program with as many passes comes to
/// an end, and to the same one: done where the machine halted, failed in
/// the same way where it failed, with the tape, the pointer, the input read
/// and the output written that the machine has.
pub proof fn lemma_walk_agrees_with_machine(
    program: Seq<Node>,
    tape: Seq<u8>,
    pointer: int,
    input: Seq<u8>,
    turns: nat,
)
    requires
        Execution::begin(State::start(program, tape, pointer)).after(input, turns).status
            != Status::Running,
    ensures
        ({
            let end = Execution::begin(State::start(program, tape, pointer)).after(input, turns);
            match end.status {
                Status::Halted => walk(program, tape, pointer, input, turns) == Outcome::Done(
                    store_of(end),
                ),
                Status::Failed(error) => walk(program, tape, pointer, input, turns)
                    == Outcome::Failed(error, store_of(end)),
                Status::Running => true,
            }
        }),
{
    let execution = Execution::begin(State::start(program, tape, pointer));
    match walk(program, tape, pointer, input, turns) {
        Outcome::Unfinished => {
            let busy = lemma_block_unfinished(execution, program, 0, input, turns);
            lemma_running_before(execution, input, turns, busy);
        },
        _ => {
            let walked = lemma_machine_agrees_with_walk(program, tape, pointer, input, turns);
            if walked <= turns {
                lemma_settled_stays(execution, input, walked, turns);
            } else {
                lemma_settled_stays(execution, input, turns, walked);
            }
        },
    }
}

} // verus!
