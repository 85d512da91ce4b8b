use bf_rust::{
    interpret, parse, run, tokenize, Instruction, InterpretError, ParseError, RunError, Tape,
};

struct Finished {
    result: Result<(), InterpretError>,
    tape: Tape,
    output: Vec<char>,
    budget: u64,
}

fn interpret_on(source: &str, mut tape: Tape, mut budget: u64) -> Finished {
    let mut output = Vec::new();
    let result = interpret(&source.to_string(), &mut tape, &mut output, &mut budget);
    Finished { result, tape, output, budget }
}

fn interpret_fresh(source: &str) -> Finished {
    interpret_on(source, Tape::new(), 1_000_000)
}

#[test]
fn two_increments_then_output() {
    let end = interpret_fresh("++.");
    assert_eq!(end.result, Ok(()));
    assert_eq!(end.output, vec!['\u{2}']);
    assert_eq!(end.tape.get(), 2);
    assert_eq!(end.tape.pointer(), 0);
}

#[test]
fn loop_moves_one_to_the_next_cell() {
    let end = interpret_fresh("+[>+<-]");
    assert_eq!(end.result, Ok(()));
    assert_eq!(end.tape.cells()[0], 0);
    assert_eq!(end.tape.cells()[1], 1);
    assert_eq!(end.tape.pointer(), 0);
    assert_eq!(end.output, Vec::<char>::new());
    assert_eq!(end.budget, 1_000_000 - 1);
}

#[test]
fn unmatched_loop_end_runs_nothing() {
    let mut tape = Tape::with_length(4);
    tape.set(9);
    let end = interpret_on("+.>]", tape, 50);
    assert_eq!(end.result, Err(InterpretError::Parse(ParseError::UnmatchedLoopEnd)));
    assert_eq!(end.output, Vec::<char>::new());
    assert_eq!(end.tape.cells(), &vec![9, 0, 0, 0]);
    assert_eq!(end.tape.pointer(), 0);
    assert_eq!(end.budget, 50);
    let end = interpret_fresh("]");
    assert_eq!(end.result, Err(InterpretError::Parse(ParseError::UnmatchedLoopEnd)));
    assert_eq!(end.output, Vec::<char>::new());
}

#[test]
fn unmatched_loop_start_runs_nothing() {
    let mut tape = Tape::with_length(4);
    tape.set(9);
    let end = interpret_on("+.>[", tape, 50);
    assert_eq!(end.result, Err(InterpretError::Parse(ParseError::UnmatchedLoopStart)));
    assert_eq!(end.output, Vec::<char>::new());
    assert_eq!(end.tape.cells(), &vec![9, 0, 0, 0]);
    assert_eq!(end.tape.pointer(), 0);
    assert_eq!(end.budget, 50);
    let end = interpret_fresh("[");
    assert_eq!(end.result, Err(InterpretError::Parse(ParseError::UnmatchedLoopStart)));
    assert_eq!(end.output, Vec::<char>::new());
}

#[test]
fn zero_then_output_prints_code_zero() {
    let end = interpret_fresh(",.");
    assert_eq!(end.result, Ok(()));
    assert_eq!(end.output, vec!['\0']);
    let mut tape = Tape::new();
    tape.set(65);
    let end = interpret_on(",.", tape, 10);
    assert_eq!(end.result, Ok(()));
    assert_eq!(end.output, vec!['\0']);
    assert_eq!(end.tape.get(), 0);
}

#[test]
fn moving_left_of_the_first_cell_fails() {
    let end = interpret_fresh("<");
    assert_eq!(end.result, Err(InterpretError::Run(RunError::TapeBounds)));
    assert_eq!(end.tape.pointer(), 0);
    assert_eq!(end.output, Vec::<char>::new());
}

#[test]
fn moving_right_of_the_last_cell_fails() {
    let end = interpret_on("+>+>+>+", Tape::with_length(3), 10);
    assert_eq!(end.result, Err(InterpretError::Run(RunError::TapeBounds)));
    assert_eq!(end.tape.cells(), &vec![1, 1, 1]);
    assert_eq!(end.tape.pointer(), 2);
    let end = interpret_on(">>", Tape::with_length(3), 10);
    assert_eq!(end.result, Ok(()));
    assert_eq!(end.tape.pointer(), 2);
}

#[test]
fn default_tape_ends_after_thirty_thousand_cells() {
    let to_last = "+[->+]".to_string();
    let mut tape = Tape::new();
    let mut output = Vec::new();
    let mut budget = 100_000;
    let result = interpret(&to_last, &mut tape, &mut output, &mut budget);
    assert_eq!(result, Err(InterpretError::Run(RunError::TapeBounds)));
    assert_eq!(tape.pointer(), 29999);
    assert_eq!(budget, 100_000 - 30_000);
}

#[test]
fn output_of_a_value_that_is_no_character_fails() {
    let end = interpret_fresh("+.-.-.+.");
    assert_eq!(end.result, Err(InterpretError::Run(RunError::InvalidOutputValue)));
    assert_eq!(end.output, vec!['\u{1}', '\0']);
    assert_eq!(end.tape.get(), u32::MAX);
}

#[test]
fn surrogate_codes_are_no_characters() {
    let mut output = Vec::new();
    let mut budget = 0;
    let program = vec![Instruction::Get];
    for (value, printed) in [
        (0xD7FF, Some('\u{D7FF}')),
        (0xD800, None),
        (0xDFFF, None),
        (0xE000, Some('\u{E000}')),
        (0x10FFFF, Some('\u{10FFFF}')),
        (0x110000, None),
    ] {
        let mut tape = Tape::with_length(1);
        tape.set(value);
        output.clear();
        let result = run(&program, &mut tape, &mut output, &mut budget);
        match printed {
            Some(ch) => {
                assert_eq!(result, Ok(()));
                assert_eq!(output, vec![ch]);
            }
            None => {
                assert_eq!(result, Err(RunError::InvalidOutputValue));
                assert_eq!(output, Vec::<char>::new());
            }
        }
    }
}

#[test]
fn output_is_appended_in_order() {
    let source = "++++++++[>++++++++<-]>+.+.+.";
    let end = interpret_fresh(source);
    assert_eq!(end.result, Ok(()));
    assert_eq!(end.output, vec!['A', 'B', 'C']);
    let mut tape = Tape::new();
    let mut output = vec!['x'];
    let mut budget = 100;
    let result = interpret(&source.to_string(), &mut tape, &mut output, &mut budget);
    assert_eq!(result, Ok(()));
    assert_eq!(output, vec!['x', 'A', 'B', 'C']);
    assert_eq!(budget, 92);
}

#[test]
fn source_without_commands_does_nothing() {
    let mut tape = Tape::with_length(5);
    tape.inc_ptr();
    tape.set(42);
    let end = interpret_on("no commands here at all\n\t!?", tape, 7);
    assert_eq!(end.result, Ok(()));
    assert_eq!(end.tape.cells(), &vec![0, 42, 0, 0, 0]);
    assert_eq!(end.tape.pointer(), 1);
    assert_eq!(end.output, Vec::<char>::new());
    assert_eq!(end.budget, 7);
    assert_eq!(interpret_fresh("").result, Ok(()));
}

#[test]
fn increment_at_the_maximum_gives_zero() {
    let end = interpret_fresh("-+");
    assert_eq!(end.result, Ok(()));
    assert_eq!(end.tape.get(), 0);
    let end = interpret_fresh("-");
    assert_eq!(end.tape.get(), u32::MAX);
}

#[test]
fn loop_equals_its_body_written_out() {
    let looped = interpret_fresh("+++++[>++>+++.<<-]");
    let body = ">++>+++.<<-";
    let straight = interpret_fresh(&format!("+++++{}", body.repeat(5)));
    assert_eq!(looped.result, Ok(()));
    assert_eq!(straight.result, Ok(()));
    assert_eq!(looped.tape.cells(), straight.tape.cells());
    assert_eq!(looped.tape.pointer(), straight.tape.pointer());
    assert_eq!(looped.output, straight.output);
    assert_eq!(looped.tape.cells()[..3], [0, 10, 15]);
    assert_eq!(straight.budget, looped.budget + 5);
    let short = interpret_fresh(&format!("+++++{}", body.repeat(4)));
    assert_eq!(short.tape.get(), 1);
}

#[test]
fn loop_is_skipped_where_the_cell_is_zero() {
    let end = interpret_on("[+.>]", Tape::new(), 0);
    assert_eq!(end.result, Ok(()));
    assert_eq!(end.tape.get(), 0);
    assert_eq!(end.tape.pointer(), 0);
    assert_eq!(end.output, Vec::<char>::new());
}

#[test]
fn nested_loops_multiply() {
    let end = interpret_fresh("+++[>++++[>+++++<-]<-]");
    assert_eq!(end.result, Ok(()));
    assert_eq!(end.tape.cells()[..3], [0, 0, 60]);
    assert_eq!(end.budget, 1_000_000 - 3 - 12);
}

#[test]
fn endless_loop_stops_when_the_budget_is_spent() {
    let end = interpret_on("+[>+.<]", Tape::new(), 3);
    assert_eq!(end.result, Err(InterpretError::Run(RunError::IterationLimit)));
    assert_eq!(end.budget, 0);
    assert_eq!(end.output, vec!['\u{1}', '\u{2}', '\u{3}']);
    assert_eq!(end.tape.cells()[..2], [1, 3]);
    assert_eq!(end.tape.pointer(), 0);
}

#[test]
fn budget_counts_loop_iterations_only() {
    let end = interpret_on("+++++>+++<-", Tape::new(), 0);
    assert_eq!(end.result, Ok(()));
    assert_eq!(end.budget, 0);
    let end = interpret_on("++[-]", Tape::new(), 2);
    assert_eq!(end.result, Ok(()));
    assert_eq!(end.budget, 0);
    let end = interpret_on("++[-]", Tape::new(), 1);
    assert_eq!(end.result, Err(InterpretError::Run(RunError::IterationLimit)));
    assert_eq!(end.tape.get(), 1);
}

#[test]
fn run_stops_at_the_failing_instruction() {
    let program = parse(&tokenize(&"+>+<<+".to_string())).unwrap();
    let mut tape = Tape::with_length(2);
    let mut output = Vec::new();
    let mut budget = 5;
    assert_eq!(run(&program, &mut tape, &mut output, &mut budget), Err(RunError::TapeBounds));
    assert_eq!(tape.cells(), &vec![1, 1]);
    assert_eq!(tape.pointer(), 0);
    assert_eq!(budget, 5);
}

#[test]
fn wrapping_loop_counts_down_through_the_maximum() {
    let end = interpret_on("-[+]", Tape::with_length(1), 10);
    assert_eq!(end.result, Ok(()));
    assert_eq!(end.tape.get(), 0);
    assert_eq!(end.budget, 9);
}
