use bf_rust::{parse, run, tokenize, Instruction, Machine, RunError, Step, Tape};

fn program_of(source: &str) -> Vec<Instruction> {
    parse(&tokenize(&source.to_string())).unwrap()
}

struct Driven {
    last: Step,
    steps: usize,
    output: Vec<char>,
    cells: Vec<u32>,
    pointer: usize,
}

fn drive(program: &Vec<Instruction>, tape: Tape) -> Driven {
    let mut machine = Machine::new(program, tape);
    let mut output = Vec::new();
    let mut steps = 0;
    loop {
        match machine.step() {
            Step::Continue => steps += 1,
            Step::Output(ch) => {
                steps += 1;
                output.push(ch);
            }
            last => {
                return Driven {
                    last,
                    steps,
                    output,
                    cells: machine.tape().cells().clone(),
                    pointer: machine.tape().pointer(),
                };
            }
        }
    }
}

#[test]
fn machine_reports_each_step() {
    let program = program_of("+.+.");
    let mut machine = Machine::new(&program, Tape::with_length(1));
    assert_eq!(machine.step(), Step::Continue);
    assert_eq!(machine.tape().get(), 1);
    assert_eq!(machine.step(), Step::Output('\u{1}'));
    assert_eq!(machine.step(), Step::Continue);
    assert_eq!(machine.step(), Step::Output('\u{2}'));
    assert_eq!(machine.step(), Step::Halt);
    assert_eq!(machine.step(), Step::Halt);
    assert_eq!(machine.tape().get(), 2);
}

#[test]
fn machine_halts_at_once_on_the_empty_program() {
    let program = Vec::new();
    let mut machine = Machine::new(&program, Tape::with_length(2));
    assert_eq!(machine.step(), Step::Halt);
    assert_eq!(machine.tape().cells(), &vec![0, 0]);
}

#[test]
fn machine_passes_a_loop_whose_cell_is_zero() {
    let program = program_of("[+]>");
    let mut machine = Machine::new(&program, Tape::with_length(2));
    assert_eq!(machine.step(), Step::Continue);
    assert_eq!(machine.step(), Step::Continue);
    assert_eq!(machine.tape().pointer(), 0);
    assert_eq!(machine.step(), Step::Continue);
    assert_eq!(machine.tape().pointer(), 1);
    assert_eq!(machine.step(), Step::Halt);
    assert_eq!(machine.tape().cells(), &vec![0, 0]);
}

#[test]
fn machine_takes_the_steps_of_the_tree() {
    let end = drive(&program_of("+[>+<-]"), Tape::new());
    assert_eq!(end.last, Step::Halt);
    assert_eq!(end.steps, 8);
    assert_eq!(end.cells[..2], [0, 1]);
    assert_eq!(end.pointer, 0);
    let end = drive(&program_of("++[-]"), Tape::new());
    assert_eq!(end.steps, 2 + 1 + 2 * 2 + 1);
}

#[test]
fn machine_fault_leaves_it_in_place() {
    let program = program_of("+<+");
    let mut machine = Machine::new(&program, Tape::with_length(3));
    assert_eq!(machine.step(), Step::Continue);
    assert_eq!(machine.step(), Step::Fault(RunError::TapeBounds));
    assert_eq!(machine.step(), Step::Fault(RunError::TapeBounds));
    assert_eq!(machine.tape().cells(), &vec![1, 0, 0]);
    assert_eq!(machine.tape().pointer(), 0);
}

#[test]
fn machine_faults_at_the_right_edge() {
    let end = drive(&program_of(">>+>"), Tape::with_length(3));
    assert_eq!(end.last, Step::Fault(RunError::TapeBounds));
    assert_eq!(end.cells, vec![0, 0, 1]);
    assert_eq!(end.pointer, 2);
}

#[test]
fn machine_faults_on_a_value_that_is_no_character() {
    let end = drive(&program_of("+.-.-."), Tape::new());
    assert_eq!(end.last, Step::Fault(RunError::InvalidOutputValue));
    assert_eq!(end.output, vec!['\u{1}', '\0']);
    assert_eq!(end.cells[0], u32::MAX);
}

#[test]
fn machine_prints_inside_a_loop_that_never_ends() {
    let program = program_of("+[.]");
    let mut machine = Machine::new(&program, Tape::with_length(1));
    let mut printed = 0;
    for _ in 0..1000 {
        match machine.step() {
            Step::Output(ch) => {
                assert_eq!(ch, '\u{1}');
                printed += 1;
            }
            Step::Continue => {}
            other => panic!("{:?}", other),
        }
    }
    assert_eq!(printed, 499);
}

#[test]
fn machine_runs_long_loops() {
    let mut tape = Tape::with_length(2);
    tape.set(100_000);
    let end = drive(&program_of("[->+<]"), tape);
    assert_eq!(end.last, Step::Halt);
    assert_eq!(end.cells, vec![0, 100_000]);
    assert_eq!(end.steps, 1 + 100_000 * 5 + 1);
}

#[test]
fn machine_agrees_with_run() {
    for source in [
        "",
        "++.",
        "+[>+<-]",
        ",.",
        "<",
        "+++[>++++[>+++++<-]<-]>>.",
        "++++++++[>++++++++<-]>+.+.+.",
        "+[>+]",
        "-.",
        "[[[]]]+[[-]]",
        "++>+++[<[>>+>+<<<-]>>>[<<<+>>>-]<<-]>[-]",
    ] {
        let program = program_of(source);
        let mut tape = Tape::with_length(8);
        let mut output = Vec::new();
        let mut budget = 10_000;
        let result = run(&program, &mut tape, &mut output, &mut budget);
        let end = drive(&program, Tape::with_length(8));
        let expected = match result {
            Ok(()) => Step::Halt,
            Err(error) => Step::Fault(error),
        };
        assert_eq!(end.last, expected, "{}", source);
        assert_eq!(&end.cells, tape.cells(), "{}", source);
        assert_eq!(end.pointer, tape.pointer(), "{}", source);
        assert_eq!(end.output, output, "{}", source);
    }
}
