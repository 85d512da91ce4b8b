//! The scanner: one token for every character of the source.

use vstd::prelude::*;

verus! {

/// What one character of the source stands for.
#[derive(Clone, Copy, Debug, PartialEq, Eq)]
pub enum Token {
    IncPtr,
    DecPtr,
    IncVal,
    DecVal,
    LoopStart,
    LoopEnd,
    Zero,
    Get,
    Ignore,
}

/// The token of a character: one of the eight commands, or `Ignore` for any other character.
pub open spec fn token_of(ch: char) -> Token {
    if ch == '>' {
        Token::IncPtr
    } else if ch == '<' {
        Token::DecPtr
    } else if ch == '+' {
        Token::IncVal
    } else if ch == '-' {
        Token::DecVal
    } else if ch == '[' {
        Token::LoopStart
    } else if ch == ']' {
        Token::LoopEnd
    } else if ch == ',' {
        Token::Zero
    } else if ch == '.' {
        Token::Get
    } else {
        Token::Ignore
    }
}

/// The tokens of a source text: the token of each character, in order.
pub open spec fn scan(source: Seq<char>) -> Seq<Token> {
    source.map_values(|ch: char| token_of(ch))
}

/// Turns a source text into its tokens, one for each character.
pub fn tokenize(contents: &String) -> (tokens: Vec<Token>)
    ensures
        tokens@ == scan(contents@),
{
    let mut tokens: Vec<Token> = Vec::new();
    for ch in it: contents.as_str().chars()
        invariant
            it.seq() == contents@,
            tokens@ == scan(contents@.take(it.index() as int)),
    {
        let token: Token = match ch {
            '>' => Token::IncPtr,
            '<' => Token::DecPtr,
            '+' => Token::IncVal,
            '-' => Token::DecVal,
            '[' => Token::LoopStart,
            ']' => Token::LoopEnd,
            ',' => Token::Zero,
            '.' => Token::Get,
            _ => Token::Ignore,
        };
        tokens.push(token);
    }
    tokens
}

} // verus!
