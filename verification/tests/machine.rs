use svolang::machine::{
    Action, Event, Machine, Report, RunError, Status, START_OFFSET, TAPE_LENGTH,
};
use svolang::scanner::lex;
use svolang::structurer::parse;
use svolang::syntax::Instruction;

fn program_of(source: &str) -> Vec<Instruction> {
    parse(lex(source.to_string())).unwrap()
}

#[test]
fn new_machine_has_a_zero_tape_and_the_pointer_in_the_middle() {
    let program = vec![];
    let machine = Machine::new(&program);
    assert_eq!(TAPE_LENGTH, 1024);
    assert_eq!(START_OFFSET, 512);
    assert_eq!(machine.tape(), &vec![0u8; 1024]);
    assert_eq!(machine.pointer(), 512);
    assert_eq!(machine.depth(), 0);
}

#[test]
fn with_tape_takes_a_pointer_on_the_tape_only() {
    let program = vec![];
    assert!(Machine::with_tape(&program, vec![0, 0, 0], 2).is_some());
    assert!(Machine::with_tape(&program, vec![0, 0, 0], 3).is_none());
    assert!(Machine::with_tape(&program, vec![], 0).is_none());
    let machine = Machine::with_tape(&program, vec![7, 8, 9], 1).unwrap();
    assert_eq!(machine.tape(), &vec![7, 8, 9]);
    assert_eq!(machine.pointer(), 1);
}

#[test]
fn empty_program_halts_at_once() {
    let program = vec![];
    let mut machine = Machine::new(&program);
    assert_eq!(machine.step(Event::Resume), Action::Halt);
    assert_eq!(machine.step(Event::Resume), Action::Halt);
}

#[test]
fn increment_then_write_outputs_one() {
    let program = program_of("svo svooooooo");
    let mut machine = Machine::new(&program);
    let report = machine.run(&[], 100);
    assert_eq!(report, Report { status: Status::Halted, consumed: 0, output: vec![1] });
    assert_eq!(machine.tape()[512], 1);
    assert_eq!(machine.pointer(), 512);
}

#[test]
fn increment_then_write_step_by_step() {
    let program = vec![Instruction::Increment, Instruction::Write];
    let mut machine = Machine::new(&program);
    assert_eq!(machine.step(Event::Resume), Action::Continue);
    assert_eq!(machine.step(Event::Resume), Action::Output(1));
    assert_eq!(machine.step(Event::Resume), Action::Halt);
}

#[test]
fn loop_counts_a_cell_of_five_down_in_five_passes() {
    let program = program_of("svooo svoo svoooo");
    let mut tape = vec![0u8; 1024];
    tape[512] = 5;
    let mut machine = Machine::with_tape(&program, tape, 512).unwrap();
    let mut passes = 0;
    let mut steps = 0;
    loop {
        let depth_before = machine.depth();
        match machine.step(Event::Resume) {
            Action::Halt => break,
            Action::Continue => {}
            other => panic!("unexpected {:?}", other),
        }
        if machine.depth() > depth_before {
            passes += 1;
        }
        steps += 1;
        assert!(steps < 1000);
    }
    assert_eq!(passes, 5);
    assert_eq!(machine.tape()[512], 0);
    // each pass enters the loop, decrements and leaves; one last test of the cell passes over the loop
    assert_eq!(steps, 16);
}

#[test]
fn run_stops_when_its_turns_are_used_up() {
    let program = program_of("svooo svoo svoooo");
    let mut tape = vec![0u8; 1024];
    tape[512] = 5;
    let mut machine = Machine::with_tape(&program, tape.clone(), 512).unwrap();
    let report = machine.run(&[], 16);
    assert_eq!(report.status, Status::Running);
    assert_eq!(machine.tape()[512], 0);
    let mut machine = Machine::with_tape(&program, tape, 512).unwrap();
    let report = machine.run(&[], 17);
    assert_eq!(report.status, Status::Halted);
}

#[test]
fn run_of_zero_turns_does_nothing() {
    let program = vec![Instruction::Increment];
    let mut machine = Machine::new(&program);
    let report = machine.run(&[], 0);
    assert_eq!(report, Report { status: Status::Running, consumed: 0, output: vec![] });
    assert_eq!(machine.tape()[512], 0);
}

#[test]
fn run_can_be_taken_up_again() {
    let program = program_of("svo svooooooo svo svooooooo svo svooooooo");
    let mut machine = Machine::new(&program);
    let first = machine.run(&[], 3);
    assert_eq!(first, Report { status: Status::Running, consumed: 0, output: vec![1] });
    let second = machine.run(&[], 100);
    assert_eq!(second, Report { status: Status::Halted, consumed: 0, output: vec![2, 3] });
}

#[test]
fn moving_left_513_times_fails_on_the_last_move() {
    let program = (0..513).map(|_| Instruction::DecrementPointer).collect::<Vec<Instruction>>();
    let mut machine = Machine::new(&program);
    for moved in 1..=512 {
        assert_eq!(machine.step(Event::Resume), Action::Continue);
        assert_eq!(machine.pointer(), 512 - moved);
    }
    assert_eq!(machine.step(Event::Resume), Action::Fault(RunError::PointerOutOfBounds));
    assert_eq!(machine.pointer(), 0);
    // the fault is final
    assert_eq!(machine.step(Event::Resume), Action::Fault(RunError::PointerOutOfBounds));
}

#[test]
fn moving_left_513_times_fails_the_run() {
    let program = program_of(&"svooooo ".repeat(513));
    let mut machine = Machine::new(&program);
    let report = machine.run(&[], 512);
    assert_eq!(report.status, Status::Running);
    let report = machine.run(&[], 1);
    assert_eq!(report.status, Status::Failed(RunError::PointerOutOfBounds));
}

#[test]
fn moving_right_off_the_tape_fails() {
    let program = program_of(&"svoooooo ".repeat(512));
    let mut machine = Machine::new(&program);
    for moved in 1..=511 {
        assert_eq!(machine.step(Event::Resume), Action::Continue);
        assert_eq!(machine.pointer(), 512 + moved);
    }
    assert_eq!(machine.step(Event::Resume), Action::Fault(RunError::PointerOutOfBounds));
    assert_eq!(machine.pointer(), 1023);
}

#[test]
fn increment_wraps_from_255_to_zero() {
    let program = vec![Instruction::Increment];
    let mut machine = Machine::with_tape(&program, vec![255], 0).unwrap();
    assert_eq!(machine.step(Event::Resume), Action::Continue);
    assert_eq!(machine.tape(), &vec![0]);
}

#[test]
fn decrement_wraps_from_zero_to_255() {
    let program = vec![Instruction::Decrement];
    let mut machine = Machine::with_tape(&program, vec![0], 0).unwrap();
    assert_eq!(machine.step(Event::Resume), Action::Continue);
    assert_eq!(machine.tape(), &vec![255]);
}

#[test]
fn increments_256_times_give_the_cell_back() {
    let program = (0..256).map(|_| Instruction::Increment).collect::<Vec<Instruction>>();
    for start in 0..=255u8 {
        let mut machine = Machine::with_tape(&program, vec![9, start, 9], 1).unwrap();
        let report = machine.run(&[], 256);
        assert_eq!(report, Report { status: Status::Running, consumed: 0, output: vec![] });
        assert_eq!(machine.tape(), &vec![9, start, 9]);
        assert_eq!(machine.step(Event::Resume), Action::Halt);
    }
}

#[test]
fn decrements_256_times_give_the_cell_back() {
    let program = (0..256).map(|_| Instruction::Decrement).collect::<Vec<Instruction>>();
    for start in 0..=255u8 {
        let mut machine = Machine::with_tape(&program, vec![start], 0).unwrap();
        let report = machine.run(&[], 257);
        assert_eq!(report.status, Status::Halted);
        assert_eq!(machine.tape(), &vec![start]);
    }
}

#[test]
fn increments_add_up_modulo_256() {
    let program = (0..300).map(|_| Instruction::Increment).collect::<Vec<Instruction>>();
    let mut machine = Machine::with_tape(&program, vec![200], 0).unwrap();
    machine.run(&[], 300);
    assert_eq!(machine.tape(), &vec![244]);
}

#[test]
fn read_asks_for_input_and_stores_it() {
    let program = vec![Instruction::Read];
    let mut machine = Machine::new(&program);
    assert_eq!(machine.step(Event::Resume), Action::AwaitInput);
    assert_eq!(machine.step(Event::Resume), Action::AwaitInput);
    assert_eq!(machine.tape()[512], 0);
    assert_eq!(machine.step(Event::Input(65)), Action::Continue);
    assert_eq!(machine.tape()[512], 65);
    assert_eq!(machine.step(Event::Resume), Action::Halt);
}

#[test]
fn read_without_input_fails() {
    let program = vec![Instruction::Read];
    let mut machine = Machine::new(&program);
    assert_eq!(machine.step(Event::Resume), Action::AwaitInput);
    assert_eq!(machine.step(Event::EndOfInput), Action::Fault(RunError::InputExhausted));
    assert_eq!(machine.tape()[512], 0);
}

#[test]
fn input_offered_where_none_is_read_is_ignored() {
    let program = vec![Instruction::Increment, Instruction::Write];
    let mut machine = Machine::new(&program);
    assert_eq!(machine.step(Event::Input(65)), Action::Continue);
    assert_eq!(machine.step(Event::EndOfInput), Action::Output(1));
    assert_eq!(machine.step(Event::Input(65)), Action::Halt);
}

#[test]
fn run_echoes_its_input() {
    let program = program_of("svoooooooo svooooooo svoooooooo svooooooo");
    let mut machine = Machine::new(&program);
    let report = machine.run(&[104, 105, 33], 100);
    assert_eq!(report, Report { status: Status::Halted, consumed: 2, output: vec![104, 105] });
}

#[test]
fn run_fails_when_the_input_runs_out() {
    let program = program_of("svoooooooo svooooooo svoooooooo svooooooo");
    let mut machine = Machine::new(&program);
    let report = machine.run(&[104], 100);
    assert_eq!(
        report,
        Report { status: Status::Failed(RunError::InputExhausted), consumed: 1, output: vec![104] }
    );
}

#[test]
fn loop_is_passed_over_when_the_cell_is_zero() {
    let program = vec![Instruction::Loop(vec![Instruction::Write]), Instruction::Increment];
    let mut machine = Machine::new(&program);
    let report = machine.run(&[], 100);
    assert_eq!(report, Report { status: Status::Halted, consumed: 0, output: vec![] });
    assert_eq!(machine.tape()[512], 1);
}

#[test]
fn loop_tests_the_cell_that_the_pointer_is_at_after_each_pass() {
    // move right until a zero cell is found
    let program = vec![Instruction::Loop(vec![Instruction::IncrementPointer])];
    let mut machine = Machine::with_tape(&program, vec![3, 2, 1, 0, 5], 0).unwrap();
    let report = machine.run(&[], 100);
    assert_eq!(report.status, Status::Halted);
    assert_eq!(machine.pointer(), 3);
    assert_eq!(machine.tape(), &vec![3, 2, 1, 0, 5]);
}

#[test]
fn loop_body_runs_in_full_before_the_cell_is_tested_again() {
    // the cell is zero in the middle of the pass and not at its end
    let program = vec![Instruction::Loop(vec![
        Instruction::Decrement,
        Instruction::Write,
        Instruction::Increment,
        Instruction::IncrementPointer,
    ])];
    let mut machine = Machine::with_tape(&program, vec![1, 0], 0).unwrap();
    let report = machine.run(&[], 100);
    assert_eq!(report, Report { status: Status::Halted, consumed: 0, output: vec![0] });
    assert_eq!(machine.tape(), &vec![1, 0]);
    assert_eq!(machine.pointer(), 1);
}

#[test]
fn nested_loops_multiply() {
    // 2 * 3, left in the cell to the right
    let program = program_of(
        "svo svo svooo svoooooo svo svo svo svooooo svoo svoooo svoooooo svooooooo",
    );
    let mut machine = Machine::new(&program);
    let report = machine.run(&[], 1000);
    assert_eq!(report, Report { status: Status::Halted, consumed: 0, output: vec![6] });
    assert_eq!(machine.tape()[512], 0);
    assert_eq!(machine.tape()[513], 6);
}

#[test]
fn loops_within_loops_run_to_the_end() {
    // clear three cells, each by a loop inside the outer loop
    let program = vec![Instruction::Loop(vec![
        Instruction::Loop(vec![Instruction::Decrement]),
        Instruction::IncrementPointer,
    ])];
    let mut machine = Machine::with_tape(&program, vec![2, 200, 1, 0], 0).unwrap();
    let report = machine.run(&[], 10_000);
    assert_eq!(report.status, Status::Halted);
    assert_eq!(machine.tape(), &vec![0, 0, 0, 0]);
    assert_eq!(machine.pointer(), 3);
    assert_eq!(machine.depth(), 0);
}

#[test]
fn endless_loop_keeps_running() {
    let program = vec![Instruction::Increment, Instruction::Loop(vec![])];
    let mut machine = Machine::new(&program);
    let report = machine.run(&[], 100_000);
    assert_eq!(report, Report { status: Status::Running, consumed: 0, output: vec![] });
    assert_eq!(machine.tape()[512], 1);
}

#[test]
fn fault_inside_a_loop_stops_the_run() {
    let program = vec![
        Instruction::Increment,
        Instruction::Loop(vec![Instruction::Write, Instruction::DecrementPointer, Instruction::Increment]),
    ];
    let mut machine = Machine::with_tape(&program, vec![0, 0, 0], 2).unwrap();
    let report = machine.run(&[], 1000);
    assert_eq!(
        report,
        Report {
            status: Status::Failed(RunError::PointerOutOfBounds),
            consumed: 0,
            output: vec![1, 1, 1]
        }
    );
    assert_eq!(machine.tape(), &vec![1, 1, 1]);
    assert_eq!(machine.pointer(), 0);
}

#[test]
fn whole_pipeline_prints_a_letter() {
    // 8 * 8 + 1 = 65
    let source = "svo svo svo svo svo svo svo svo \
                  svooo svoooooo svo svo svo svo svo svo svo svo svooooo svoo svoooo \
                  svoooooo svo svooooooo";
    let program = program_of(source);
    let mut machine = Machine::new(&program);
    let report = machine.run(&[], 10_000);
    assert_eq!(report, Report { status: Status::Halted, consumed: 0, output: vec![65] });
}
