//! The evaluator: an instruction tree executed against a tape of byte cells.
//!
//! Execution is a walk over the tree, depth first and left to right. The
//! machine makes that walk one step at a time and never touches the outside
//! world itself: a step that writes hands the byte out, and a step that
//! reads is given the byte. Whoever drives the machine decides where bytes
//! go to and come from, and whether to go on.
use crate::syntax::{nodes, Instruction, Node};
use vstd::prelude::*;

verus! {

/// The number of cells of the tape that [`Machine::new`] provides.
pub const TAPE_LENGTH: usize = 1024;

/// The cell that the data pointer of [`Machine::new`] starts at.
pub const START_OFFSET: usize = 512;

/// Why execution cannot go on.
#[derive(Debug, Clone, Copy, PartialEq, Eq, Structural)]
pub enum RunError {
    /// The data pointer would leave the tape.
    PointerOutOfBounds,
    /// A byte was to be read and the input has none left.
    InputExhausted,
}

/// What the driver tells the machine when it asks for a step.
#[derive(Debug, Clone, Copy, PartialEq, Eq, Structural)]
pub enum Event {
    /// Nothing: go on.
    Resume,
    /// The byte that was read for the machine.
    Input(u8),
    /// No byte could be read: the input has ended.
    EndOfInput,
}

/// What the machine tells the driver after a step.
#[derive(Debug, Clone, Copy, PartialEq, Eq, Structural)]
pub enum Action {
    /// The step is done and asks nothing of the driver.
    Continue,
    /// The step wrote this byte: emit it.
    Output(u8),
    /// The machine stands at a read: answer with `Input` or `EndOfInput`.
    AwaitInput,
    /// The program has ended.
    Halt,
    /// The step failed. The machine is as it was before.
    Fault(RunError),
}

/// A place in a block of instructions.
#[verifier::ext_equal]
pub struct Cursor {
    pub block: Seq<Node>,
    pub index: int,
}

/// The mathematical model of a machine.
///
/// The stack holds one cursor for the program and one for each loop that is
/// being executed, innermost last. A cursor below the top stands at the
/// loop whose body the next cursor walks.
#[verifier::ext_equal]
pub struct State {
    pub stack: Seq<Cursor>,
    pub tape: Seq<u8>,
    pub pointer: int,
}

/// A cell after an increment: 255 wraps to 0.
pub open spec fn incremented(cell: u8) -> u8 {
    if cell == 255 {
        0
    } else {
        (cell + 1) as u8
    }
}

/// A cell after a decrement: 0 wraps to 255.
pub open spec fn decremented(cell: u8) -> u8 {
    if cell == 0 {
        255
    } else {
        (cell - 1) as u8
    }
}

impl State {
    /// The state before the first step of `program`.
    pub open spec fn start(program: Seq<Node>, tape: Seq<u8>, pointer: int) -> State {
        State { stack: seq![Cursor { block: program, index: 0 }], tape, pointer }
    }

    /// Whether the state can arise: the pointer is on the tape, every
    /// cursor is within its block, and every cursor below the top stands at
    /// the loop that the next one walks.
    pub open spec fn wf(self) -> bool {
        &&& self.stack.len() >= 1
        &&& 0 <= self.pointer < self.tape.len()
        &&& forall|k: int|
            0 <= k < self.stack.len() ==> 0 <= (#[trigger] self.stack[k]).index
                <= self.stack[k].block.len()
        &&& forall|k: int|
            0 <= k < self.stack.len() - 1 ==> {
                &&& (#[trigger] self.stack[k]).index < self.stack[k].block.len()
                &&& self.stack[k].block[self.stack[k].index] == Node::Loop(self.stack[k + 1].block)
            }
    }

    /// The cell under the data pointer.
    pub open spec fn cell(self) -> u8 {
        self.tape[self.pointer]
    }

    /// The instruction that the next step executes, if the innermost block
    /// has not ended.
    pub open spec fn current(self) -> Option<Node> {
        let top = self.stack.last();
        if 0 <= top.index < top.block.len() {
            Some(top.block[top.index])
        } else {
            None
        }
    }

    /// The state with the innermost cursor moved past its instruction.
    pub open spec fn advance(self) -> State {
        let top = self.stack.last();
        State {
            stack: self.stack.drop_last().push(Cursor { block: top.block, index: top.index + 1 }),
            ..self
        }
    }

    /// The state with `value` in the cell under the data pointer.
    pub open spec fn store(self, value: u8) -> State {
        State { tape: self.tape.update(self.pointer, value), ..self }
    }

    /// The state with the data pointer at `pointer`.
    pub open spec fn point(self, pointer: int) -> State {
        State { pointer, ..self }
    }

    /// The state with a cursor at the start of `body` on the stack.
    pub open spec fn enter(self, body: Seq<Node>) -> State {
        State { stack: self.stack.push(Cursor { block: body, index: 0 }), ..self }
    }

    /// The state with the innermost cursor taken off the stack.
    pub open spec fn leave(self) -> State {
        State { stack: self.stack.drop_last(), ..self }
    }

    /// One step: the state that follows, and what the driver is told.
    ///
    /// At the end of the program the machine halts. At the end of a loop
    /// body it goes back to the loop, which then tests the cell again. A
    /// loop is entered while the cell under the pointer is not zero and
    /// passed over once it is. A move that would leave the tape fails. A
    /// read takes the byte of an `Input` event, fails on `EndOfInput`, and
    /// on `Resume` asks for input without moving on. Every other instruction
    /// does the same whatever the event.
    pub open spec fn step(self, event: Event) -> (State, Action) {
        match self.current() {
            None => if self.stack.len() <= 1 {
                (self, Action::Halt)
            } else {
                (self.leave(), Action::Continue)
            },
            Some(Node::IncrementPointer) => if self.pointer + 1 < self.tape.len() {
                (self.point(self.pointer + 1).advance(), Action::Continue)
            } else {
                (self, Action::Fault(RunError::PointerOutOfBounds))
            },
            Some(Node::DecrementPointer) => if self.pointer >= 1 {
                (self.point(self.pointer - 1).advance(), Action::Continue)
            } else {
                (self, Action::Fault(RunError::PointerOutOfBounds))
            },
            Some(Node::Increment) => (
                self.store(incremented(self.cell())).advance(),
                Action::Continue,
            ),
            Some(Node::Decrement) => (
                self.store(decremented(self.cell())).advance(),
                Action::Continue,
            ),
            Some(Node::Write) => (self.advance(), Action::Output(self.cell())),
            Some(Node::Read) => match event {
                Event::Input(byte) => (self.store(byte).advance(), Action::Continue),
                Event::EndOfInput => (self, Action::Fault(RunError::InputExhausted)),
                Event::Resume => (self, Action::AwaitInput),
            },
            Some(Node::Loop(body)) => if self.cell() != 0 {
                (self.enter(body), Action::Continue)
            } else {
                (self.advance(), Action::Continue)
            },
        }
    }
}

/// How an execution stands.
#[derive(Debug, Clone, Copy, PartialEq, Eq, Structural)]
pub enum Status {
    /// More steps can follow.
    Running,
    /// The program has ended.
    Halted,
    /// A step failed.
    Failed(RunError),
}

/// The mathematical model of an execution whose input is known in advance:
/// a machine state, how many input bytes have been read, and the bytes
/// written so far.
#[verifier::ext_equal]
pub struct Execution {
    pub state: State,
    pub consumed: int,
    pub output: Seq<u8>,
    pub status: Status,
}

impl Execution {
    /// An execution that starts in `state`, with nothing read or written.
    pub open spec fn begin(state: State) -> Execution {
        Execution { state, consumed: 0, output: Seq::empty(), status: Status::Running }
    }

    /// The event that the driver owes the machine: at a read the next byte
    /// of `input`, or the news that there is none.
    pub open spec fn event(self, input: Seq<u8>) -> Event {
        if self.state.current() == Some(Node::Read) {
            if 0 <= self.consumed < input.len() {
                Event::Input(input[self.consumed])
            } else {
                Event::EndOfInput
            }
        } else {
            Event::Resume
        }
    }

    /// One turn of the driver: a step of the machine on the event owed, and
    /// the bookkeeping that its answer asks for. An execution that has
    /// halted or failed stays as it is.
    pub open spec fn turn(self, input: Seq<u8>) -> Execution {
        if self.status != Status::Running {
            self
        } else {
            let event = self.event(input);
            let (state, action) = self.state.step(event);
            match action {
                Action::Continue => Execution {
                    state,
                    consumed: if event is Input {
                        self.consumed + 1
                    } else {
                        self.consumed
                    },
                    ..self
                },
                Action::Output(byte) => Execution { state, output: self.output.push(byte), ..self },
                Action::AwaitInput => self,
                Action::Halt => Execution { status: Status::Halted, ..self },
                Action::Fault(error) => Execution { status: Status::Failed(error), ..self },
            }
        }
    }

    /// The execution after `turns` turns.
    pub open spec fn after(self, input: Seq<u8>, turns: nat) -> Execution
        decreases turns,
    {
        if turns == 0 {
            self
        } else {
            self.after(input, (turns - 1) as nat).turn(input)
        }
    }
}

/// A step leads from a state that can arise to one that can arise.
pub proof fn lemma_step_preserves_wf(state: State, event: Event)
    requires
        state.wf(),
    ensures
        state.step(event).0.wf(),
{
}

/// Whatever is executed, the machine stays in a state that can arise and
/// the tape keeps its length.
pub proof fn lemma_tape_length_is_fixed(execution: Execution, input: Seq<u8>, turns: nat)
    requires
        execution.state.wf(),
    ensures
        execution.after(input, turns).state.wf(),
        execution.after(input, turns).state.tape.len() == execution.state.tape.len(),
    decreases turns,
{
    if turns > 0 {
        let before = execution.after(input, (turns - 1) as nat);
        lemma_tape_length_is_fixed(execution, input, (turns - 1) as nat);
        lemma_step_preserves_wf(before.state, before.event(input));
    }
}

/// Whatever is executed, the streams only move forward: no byte of the
/// input is read twice or beyond its end, and what was written stays
/// written.
pub proof fn lemma_streams_only_grow(execution: Execution, input: Seq<u8>, turns: nat)
    requires
        0 <= execution.consumed <= input.len(),
    ensures
        execution.consumed <= execution.after(input, turns).consumed <= input.len(),
        execution.output.is_prefix_of(execution.after(input, turns).output),
    decreases turns,
{
    if turns > 0 {
        lemma_streams_only_grow(execution, input, (turns - 1) as nat);
    }
}

/// An execution that has halted or failed after some turns is the same
/// after any later turn.
pub proof fn lemma_settled_stays(execution: Execution, input: Seq<u8>, turns: nat, later: nat)
    requires
        turns <= later,
        execution.after(input, turns).status != Status::Running,
    ensures
        execution.after(input, later) == execution.after(input, turns),
    decreases later,
{
    if turns < later {
        lemma_settled_stays(execution, input, turns, (later - 1) as nat);
    }
}

/// A cell after `count` increments.
pub open spec fn incremented_by(cell: u8, count: nat) -> u8 {
    ((cell + count) % 256) as u8
}

/// A cell after `count` decrements.
pub open spec fn decremented_by(cell: u8, count: nat) -> u8 {
    ((cell - count) % 256) as u8
}

/// Whether the next `count` instructions of the innermost block are all
/// `node`.
pub open spec fn repeats(state: State, node: Node, count: nat) -> bool {
    let top = state.stack.last();
    &&& 0 <= top.index
    &&& top.index + count <= top.block.len()
    &&& forall|j: int| top.index <= j < top.index + count ==> top.block[j] == node
}

/// The state with the innermost cursor moved on by `count` instructions.
pub open spec fn moved_on(state: State, count: nat) -> State {
    let top = state.stack.last();
    State {
        stack: state.stack.drop_last().push(Cursor { block: top.block, index: top.index + count }),
        ..state
    }
}

/// A run of increments takes one turn each, reads and writes nothing, and
/// leaves the cell under the pointer raised by their number, modulo 256.
pub proof fn lemma_increments(state: State, input: Seq<u8>, count: nat)
    requires
        state.wf(),
        repeats(state, Node::Increment, count),
    ensures
        Execution::begin(state).after(input, count) == Execution::begin(
            moved_on(state.store(incremented_by(state.cell(), count)), count),
        ),
    decreases count,
{
    if count > 0 {
        lemma_increments(state, input, (count - 1) as nat);
    }
}

/// A run of decrements takes one turn each, reads and writes nothing, and
/// leaves the cell under the pointer lowered by their number, modulo 256.
pub proof fn lemma_decrements(state: State, input: Seq<u8>, count: nat)
    requires
        state.wf(),
        repeats(state, Node::Decrement, count),
    ensures
        Execution::begin(state).after(input, count) == Execution::begin(
            moved_on(state.store(decremented_by(state.cell(), count)), count),
        ),
    decreases count,
{
    if count > 0 {
        lemma_decrements(state, input, (count - 1) as nat);
    }
}

/// 256 increments in a row bring the cell under the pointer back to the
/// value it had, whatever that value was: the tape is as before.
pub proof fn lemma_increment_wraps_around(state: State, input: Seq<u8>)
    requires
        state.wf(),
        repeats(state, Node::Increment, 256),
    ensures
        Execution::begin(state).after(input, 256) == Execution::begin(moved_on(state, 256)),
        Execution::begin(state).after(input, 256).state.tape == state.tape,
{
    lemma_increments(state, input, 256);
}

/// 256 decrements in a row bring the cell under the pointer back to the
/// value it had, whatever that value was: the tape is as before.
pub proof fn lemma_decrement_wraps_around(state: State, input: Seq<u8>)
    requires
        state.wf(),
        repeats(state, Node::Decrement, 256),
    ensures
        Execution::begin(state).after(input, 256) == Execution::begin(moved_on(state, 256)),
        Execution::begin(state).after(input, 256).state.tape == state.tape,
{
    lemma_decrements(state, input, 256);
}

/// What [`Machine::run`] found.
#[derive(Debug, PartialEq, Eq)]
pub struct Report {
    /// How the execution stands.
    pub status: Status,
    /// How many bytes of the input were read.
    pub consumed: usize,
    /// The bytes that were written, in order.
    pub output: Vec<u8>,
}

/// A place in a block of instructions of a program.
struct Frame<'a> {
    block: &'a Vec<Instruction>,
    index: usize,
}

impl<'a> View for Frame<'a> {
    type V = Cursor;

    closed spec fn view(&self) -> Cursor {
        Cursor { block: nodes(self.block@), index: self.index as int }
    }
}

/// A machine that executes a borrowed program.
pub struct Machine<'a> {
    frames: Vec<Frame<'a>>,
    tape: Vec<u8>,
    pointer: usize,
}

impl<'a> View for Machine<'a> {
    type V = State;

    closed spec fn view(&self) -> State {
        State {
            stack: Seq::new(self.frames@.len(), |k: int| self.frames@[k]@),
            tape: self.tape@,
            pointer: self.pointer as int,
        }
    }
}

impl<'a> Machine<'a> {
    /// Whether the machine is in a state that can arise. Every constructor
    /// establishes this and every method keeps it.
    pub open spec fn wf(&self) -> bool {
        self@.wf()
    }

    /// A machine at the start of `program`, with a tape of
    /// [`TAPE_LENGTH`] zero cells and the data pointer at
    /// [`START_OFFSET`].
    pub fn new(program: &'a Vec<Instruction>) -> (machine: Machine<'a>)
        ensures
            machine.wf(),
            machine@ == State::start(
                nodes(program@),
                Seq::new(TAPE_LENGTH as nat, |i: int| 0u8),
                START_OFFSET as int,
            ),
    {
        let mut frames: Vec<Frame<'a>> = Vec::new();
        frames.push(Frame { block: program, index: 0 });
        Machine { frames, tape: vec![0u8; TAPE_LENGTH], pointer: START_OFFSET }
    }

    /// A machine at the start of `program` on the given tape, or `None`
    /// where `pointer` is not a cell of `tape`.
    pub fn with_tape(program: &'a Vec<Instruction>, tape: Vec<u8>, pointer: usize) -> (result:
        Option<Machine<'a>>)
        ensures
            result is Some <==> pointer < tape@.len(),
            result matches Some(machine) ==> machine.wf() && machine@ == State::start(
                nodes(program@),
                tape@,
                pointer as int,
            ),
    {
        if pointer >= tape.len() {
            return None;
        }
        let mut frames: Vec<Frame<'a>> = Vec::new();
        frames.push(Frame { block: program, index: 0 });
        Some(Machine { frames, tape, pointer })
    }

    /// The tape.
    pub fn tape(&self) -> (tape: &Vec<u8>)
        ensures
            tape@ == self@.tape,
    {
        &self.tape
    }

    /// The data pointer.
    pub fn pointer(&self) -> (pointer: usize)
        ensures
            pointer == self@.pointer,
    {
        self.pointer
    }

    /// The number of loops that are being executed.
    pub fn depth(&self) -> (depth: usize)
        requires
            self.wf(),
        ensures
            depth == self@.stack.len() - 1,
    {
        self.frames.len() - 1
    }

    /// Moves the innermost cursor past its instruction.
    fn advance(&mut self)
        requires
            old(self).wf(),
            old(self)@.current() is Some,
        ensures
            final(self)@ == old(self)@.advance(),
    {
        let top = self.frames.len() - 1;
        let block: &'a Vec<Instruction> = self.frames[top].block;
        let index = self.frames[top].index;
        assert(index < block.len());
        self.frames.set(top, Frame { block, index: index + 1 });
    }

    /// Executes one step and tells the driver what it did.
    ///
    /// Where the answer is `AwaitInput`, the driver reads a byte and calls
    /// again with `Input` or `EndOfInput`. A machine that has halted stays
    /// halted. A step that fails leaves the machine as it was, so that the
    /// same step fails again.
    pub fn step(&mut self, event: Event) -> (action: Action)
        requires
            old(self).wf(),
        ensures
            final(self).wf(),
            (final(self)@, action) == old(self)@.step(event),
    {
        proof {
            lemma_step_preserves_wf(self@, event);
        }
        let top = self.frames.len() - 1;
        let block: &'a Vec<Instruction> = self.frames[top].block;
        let index = self.frames[top].index;
        if index >= block.len() {
            if top == 0 {
                return Action::Halt;
            }
            self.frames.pop();
            assert(self@ =~= old(self)@.leave());
            return Action::Continue;
        }
        assert(self.pointer < self.tape.len());
        match &block[index] {
            Instruction::IncrementPointer => {
                if self.pointer + 1 >= self.tape.len() {
                    return Action::Fault(RunError::PointerOutOfBounds);
                }
                self.pointer += 1;
                self.advance();
                Action::Continue
            },
            Instruction::DecrementPointer => {
                if self.pointer == 0 {
                    return Action::Fault(RunError::PointerOutOfBounds);
                }
                self.pointer -= 1;
                self.advance();
                Action::Continue
            },
            Instruction::Increment => {
                let cell = self.tape[self.pointer];
                self.tape.set(self.pointer, cell.wrapping_add(1));
                self.advance();
                Action::Continue
            },
            Instruction::Decrement => {
                let cell = self.tape[self.pointer];
                self.tape.set(self.pointer, cell.wrapping_sub(1));
                self.advance();
                Action::Continue
            },
            Instruction::Write => {
                let cell = self.tape[self.pointer];
                self.advance();
                Action::Output(cell)
            },
            Instruction::Read => match event {
                Event::Input(byte) => {
                    self.tape.set(self.pointer, byte);
                    self.advance();
                    Action::Continue
                },
                Event::EndOfInput => Action::Fault(RunError::InputExhausted),
                Event::Resume => Action::AwaitInput,
            },
            Instruction::Loop(body) => {
                if self.tape[self.pointer] != 0 {
                    self.frames.push(Frame { block: body, index: 0 });
                    assert(self@ =~= old(self)@.enter(nodes(body@)));
                } else {
                    self.advance();
                }
                Action::Continue
            },
        }
    }

    /// Drives the machine for at most `limit` turns, reading from `input`
    /// and collecting what is written.
    ///
    /// The report tells whether the program halted, failed, or was still
    /// running when the turns were used up. A machine that is still running
    /// can be driven further with the rest of the input.
    pub fn run(&mut self, input: &[u8], limit: usize) -> (report: Report)
        requires
            old(self).wf(),
        ensures
            final(self).wf(),
            Execution::begin(old(self)@).after(input@, limit as nat) == (Execution {
                state: final(self)@,
                consumed: report.consumed as int,
                output: report.output@,
                status: report.status,
            }),
            report.consumed <= input@.len(),
    {
        let mut consumed: usize = 0;
        let mut output: Vec<u8> = Vec::new();
        let mut turns: usize = 0;
        while turns < limit
            invariant
                turns <= limit,
                self.wf(),
                consumed <= input@.len(),
                Execution::begin(old(self)@).after(input@, turns as nat) == (Execution {
                    state: self@,
                    consumed: consumed as int,
                    output: output@,
                    status: Status::Running,
                }),
            decreases limit - turns,
        {
            let mut used: usize = 0;
            let mut action = self.step(Event::Resume);
            if action == Action::AwaitInput {
                if consumed < input.len() {
                    action = self.step(Event::Input(input[consumed]));
                    used = 1;
                } else {
                    action = self.step(Event::EndOfInput);
                }
            }
            turns += 1;
            match action {
                Action::Continue => {
                    consumed += used;
                },
                Action::Output(byte) => {
                    output.push(byte);
                },
                Action::AwaitInput => {},
                Action::Halt => {
                    proof {
                        lemma_settled_stays(
                            Execution::begin(old(self)@),
                            input@,
                            turns as nat,
                            limit as nat,
                        );
                    }
                    return Report { status: Status::Halted, consumed, output };
                },
                Action::Fault(error) => {
                    proof {
                        lemma_settled_stays(
                            Execution::begin(old(self)@),
                            input@,
                            turns as nat,
                            limit as nat,
                        );
                    }
                    return Report { status: Status::Failed(error), consumed, output };
                },
            }
        }
        Report { status: Status::Running, consumed, output }
    }
}

} // verus!
