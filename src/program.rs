//! Tokens, instructions, and the lowering of source text to instructions.
use vstd::prelude::*;

verus! {

/// One of the eight instruction symbols of the source language.
#[derive(Clone, Copy, Debug, PartialEq, Eq, Structural)]
pub enum Token {
    Increment,
    Decrement,
    MovePointerLeft,
    MovePointerRight,
    LoopStart,
    LoopEnd,
    Output,
    Input,
}

/// An instruction of a compiled program.
///
/// Offsets are relative to the tape pointer; loop boundaries carry the index
/// of their partner once the program is linked.
#[derive(Clone, Copy, Debug, PartialEq, Eq, Structural)]
pub enum Opcode {
    /// Add a delta (taken modulo 256) to the cell at an offset.
    Increment(isize, isize),
    /// Store a value in the cell at an offset.
    SetCell(isize, u8),
    /// Move the pointer by a step.
    MovePointer(isize),
    /// Jump to the partner when the current cell is zero.
    LoopStart(usize),
    /// Jump to the partner when the current cell is nonzero.
    LoopEnd(usize),
    /// Write the cell at an offset.
    Output(isize),
    /// Read into the cell at an offset.
    Input(isize),
    /// Move the pointer by a step until it rests on a zero cell.
    ScanZero(isize),
    /// Stop the program.
    Eof,
}

/// The token that a source character stands for, if any.
pub open spec fn token_of(c: char) -> Option<Token> {
    if c == '+' {
        Some(Token::Increment)
    } else if c == '-' {
        Some(Token::Decrement)
    } else if c == '<' {
        Some(Token::MovePointerLeft)
    } else if c == '>' {
        Some(Token::MovePointerRight)
    } else if c == '[' {
        Some(Token::LoopStart)
    } else if c == ']' {
        Some(Token::LoopEnd)
    } else if c == '.' {
        Some(Token::Output)
    } else if c == ',' {
        Some(Token::Input)
    } else {
        None
    }
}

/// The tokens of a text: its instruction characters in order, all others dropped.
pub open spec fn tokens_of(s: Seq<char>) -> Seq<Token>
    decreases s.len(),
{
    if s.len() == 0 {
        Seq::empty()
    } else {
        let rest = tokens_of(s.drop_last());
        match token_of(s.last()) {
            Some(t) => rest.push(t),
            None => rest,
        }
    }
}

/// The instruction a token lowers to, with neutral operands.
pub open spec fn lower(t: Token) -> Opcode {
    match t {
        Token::Increment => Opcode::Increment(0, 1),
        Token::Decrement => Opcode::Increment(0, -1isize),
        Token::MovePointerLeft => Opcode::MovePointer(-1isize),
        Token::MovePointerRight => Opcode::MovePointer(1),
        Token::LoopStart => Opcode::LoopStart(0),
        Token::LoopEnd => Opcode::LoopEnd(0),
        Token::Output => Opcode::Output(0),
        Token::Input => Opcode::Input(0),
    }
}

/// The unlinked instruction sequence of a text: its lowered tokens and an end marker.
pub open spec fn parsed(s: Seq<char>) -> Seq<Opcode> {
    tokens_of(s).map_values(|t: Token| lower(t)).push(Opcode::Eof)
}

/// Recognizes one source character.
pub fn token_from_char(c: char) -> (r: Option<Token>)
    ensures
        r == token_of(c),
{
    match c {
        '+' => Some(Token::Increment),
        '-' => Some(Token::Decrement),
        '<' => Some(Token::MovePointerLeft),
        '>' => Some(Token::MovePointerRight),
        '[' => Some(Token::LoopStart),
        ']' => Some(Token::LoopEnd),
        '.' => Some(Token::Output),
        ',' => Some(Token::Input),
        _ => None,
    }
}

/// Scans a text into its tokens; characters that are no instruction are skipped.
pub fn brainfuck_tokens(code: &str) -> (r: Vec<Token>)
    ensures
        r@ == tokens_of(code@),
{
    let mut r: Vec<Token> = Vec::new();
    let ghost s = code@;
    broadcast use vstd::string::axiom_spec_iter;
    for c in it: code.chars()
        invariant
            it.seq() == s,
            r@ == tokens_of(s.take(it.index() as int)),
    {
        proof {
            let k = it.index() as int;
            assert(s.take(k + 1).drop_last() == s.take(k));
        }
        if let Some(t) = token_from_char(c) {
            r.push(t);
        }
    }
    proof {
        assert(s.take(s.len() as int) == s);
    }
    r
}

impl Opcode {
    /// Lowers a token to its instruction with neutral operands.
    pub fn from_token(t: Token) -> (r: Opcode)
        ensures
            r == lower(t),
    {
        match t {
            Token::Increment => Opcode::Increment(0, 1),
            Token::Decrement => Opcode::Increment(0, -1isize),
            Token::MovePointerLeft => Opcode::MovePointer(-1isize),
            Token::MovePointerRight => Opcode::MovePointer(1),
            Token::LoopStart => Opcode::LoopStart(0),
            Token::LoopEnd => Opcode::LoopEnd(0),
            Token::Output => Opcode::Output(0),
            Token::Input => Opcode::Input(0),
        }
    }
}

impl From<Token> for Opcode {
    /// Lowers a token to its instruction with neutral operands.
    fn from(t: Token) -> (r: Opcode) {
        Opcode::from_token(t)
    }
}

impl vstd::std_specs::convert::FromSpecImpl<Token> for Opcode {
    open spec fn obeys_from_spec() -> bool {
        true
    }

    open spec fn from_spec(t: Token) -> Opcode {
        lower(t)
    }
}

/// Lowers a text to its unlinked instructions, ending with the end marker.
pub fn parse(code: &str) -> (r: Vec<Opcode>)
    ensures
        r@ == parsed(code@),
{
    let tokens = brainfuck_tokens(code);
    let mut r: Vec<Opcode> = Vec::new();
    for i in 0..tokens.len()
        invariant
            tokens@ == tokens_of(code@),
            r@ == tokens@.take(i as int).map_values(|t: Token| lower(t)),
    {
        r.push(Opcode::from(tokens[i]));
        proof {
            assert(tokens@.take(i + 1).map_values(|t: Token| lower(t))
                == tokens@.take(i as int).map_values(|t: Token| lower(t)).push(lower(tokens@[i as int])));
        }
    }
    proof {
        assert(tokens@.take(tokens@.len() as int) == tokens@);
    }
    r.push(Opcode::Eof);
    r
}

} // verus!
