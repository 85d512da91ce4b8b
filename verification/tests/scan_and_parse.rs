use bf_rust::{parse, tokenize, Instruction, ParseError, Token};

fn parse_source(source: &str) -> Result<Vec<Instruction>, ParseError> {
    parse(&tokenize(&source.to_string()))
}

fn nesting(program: &[Instruction]) -> usize {
    let mut deepest = 0;
    for instruction in program {
        if let Instruction::Loop(body) = instruction {
            deepest = deepest.max(1 + nesting(body));
        }
    }
    deepest
}

fn bracket_depth(source: &str) -> usize {
    let mut depth = 0usize;
    let mut peak = 0usize;
    for ch in source.chars() {
        if ch == '[' {
            depth += 1;
            peak = peak.max(depth);
        } else if ch == ']' {
            depth -= 1;
        }
    }
    peak
}

#[test]
fn every_command_character_has_its_token() {
    let tokens = tokenize(&"><+-[],.".to_string());
    assert_eq!(
        tokens,
        vec![
            Token::IncPtr,
            Token::DecPtr,
            Token::IncVal,
            Token::DecVal,
            Token::LoopStart,
            Token::LoopEnd,
            Token::Zero,
            Token::Get,
        ]
    );
}

#[test]
fn other_characters_become_ignore_tokens() {
    let tokens = tokenize(&"a +\n\u{e9}.".to_string());
    assert_eq!(
        tokens,
        vec![
            Token::Ignore,
            Token::Ignore,
            Token::IncVal,
            Token::Ignore,
            Token::Ignore,
            Token::Get,
        ]
    );
}

#[test]
fn one_token_for_each_character() {
    let source = "héllo [wörld] +-".to_string();
    assert_eq!(tokenize(&source).len(), source.chars().count());
    assert_eq!(tokenize(&String::new()), Vec::<Token>::new());
}

#[test]
fn commands_become_instructions_in_order() {
    assert_eq!(
        parse_source("><+-,."),
        Ok(vec![
            Instruction::IncPtr,
            Instruction::DecPtr,
            Instruction::IncVal,
            Instruction::DecVal,
            Instruction::Zero,
            Instruction::Get,
        ])
    );
}

#[test]
fn ignored_tokens_leave_no_instruction() {
    assert_eq!(parse_source("hello world"), Ok(vec![]));
    assert_eq!(parse_source(""), Ok(vec![]));
    assert_eq!(
        parse_source("a+b[c-d]e"),
        Ok(vec![Instruction::IncVal, Instruction::Loop(vec![Instruction::DecVal])])
    );
}

#[test]
fn a_loop_owns_the_instructions_between_its_brackets() {
    assert_eq!(
        parse_source("+[>+<-]"),
        Ok(vec![
            Instruction::IncVal,
            Instruction::Loop(vec![
                Instruction::IncPtr,
                Instruction::IncVal,
                Instruction::DecPtr,
                Instruction::DecVal,
            ]),
        ])
    );
    assert_eq!(parse_source("[]"), Ok(vec![Instruction::Loop(vec![])]));
}

#[test]
fn nested_loops_nest_in_the_tree() {
    assert_eq!(
        parse_source("[+[-[.]]>]"),
        Ok(vec![Instruction::Loop(vec![
            Instruction::IncVal,
            Instruction::Loop(vec![
                Instruction::DecVal,
                Instruction::Loop(vec![Instruction::Get]),
            ]),
            Instruction::IncPtr,
        ])])
    );
}

#[test]
fn sibling_loops_have_bodies_of_their_own() {
    assert_eq!(
        parse_source("[+][-]<[[.]]"),
        Ok(vec![
            Instruction::Loop(vec![Instruction::IncVal]),
            Instruction::Loop(vec![Instruction::DecVal]),
            Instruction::DecPtr,
            Instruction::Loop(vec![Instruction::Loop(vec![Instruction::Get])]),
        ])
    );
}

#[test]
fn tree_nests_as_deeply_as_the_brackets() {
    for source in ["", "+-", "[]", "[[]]", "[][[]][]", "+[>[-[<]]+[.]]", "[[[[[[[[+]]]]]]]]"] {
        let program = parse_source(source).unwrap();
        assert_eq!(nesting(&program), bracket_depth(source), "{}", source);
    }
    assert_eq!(nesting(&parse_source("[[[[[[[[+]]]]]]]]").unwrap()), 8);
    assert_eq!(nesting(&parse_source("[][[]][]").unwrap()), 2);
}

#[test]
fn lone_loop_end_is_refused() {
    assert_eq!(parse_source("]"), Err(ParseError::UnmatchedLoopEnd));
}

#[test]
fn lone_loop_start_is_refused() {
    assert_eq!(parse_source("["), Err(ParseError::UnmatchedLoopStart));
}

#[test]
fn excess_loop_end_is_refused() {
    assert_eq!(parse_source("+[-]]"), Err(ParseError::UnmatchedLoopEnd));
    assert_eq!(parse_source("[]]["), Err(ParseError::UnmatchedLoopEnd));
    assert_eq!(parse_source("]["), Err(ParseError::UnmatchedLoopEnd));
    assert_eq!(parse_source("[[]]]+"), Err(ParseError::UnmatchedLoopEnd));
}

#[test]
fn excess_loop_start_is_refused() {
    assert_eq!(parse_source("[[+]"), Err(ParseError::UnmatchedLoopStart));
    assert_eq!(parse_source("[-][>"), Err(ParseError::UnmatchedLoopStart));
    assert_eq!(parse_source("+[[[]]"), Err(ParseError::UnmatchedLoopStart));
}

#[test]
fn loop_end_that_closes_nothing_counts_before_an_open_loop() {
    assert_eq!(parse_source("][["), Err(ParseError::UnmatchedLoopEnd));
    assert_eq!(parse_source("[]][[["), Err(ParseError::UnmatchedLoopEnd));
}
