use brian::{Brainfuck, CompileError, Opcode, Token, brainfuck_tokens, parse, link_loops, optimize};

fn compiled(code: &str) -> Vec<Opcode> {
    let mut bf = Brainfuck::new();
    bf.compile(code).unwrap();
    bf.program().clone()
}

#[test]
fn tokens_skip_comments() {
    let t = brainfuck_tokens("a+b-c<d>e[f]g.h,i \n");
    assert_eq!(
        t,
        vec![
            Token::Increment,
            Token::Decrement,
            Token::MovePointerLeft,
            Token::MovePointerRight,
            Token::LoopStart,
            Token::LoopEnd,
            Token::Output,
            Token::Input
        ]
    );
    assert!(brainfuck_tokens("hello world").is_empty());
}

#[test]
fn parse_lowers_and_appends_end() {
    let ops = parse("+-<>[].,");
    assert_eq!(
        ops,
        vec![
            Opcode::Increment(0, 1),
            Opcode::Increment(0, -1),
            Opcode::MovePointer(-1),
            Opcode::MovePointer(1),
            Opcode::LoopStart(0),
            Opcode::LoopEnd(0),
            Opcode::Output(0),
            Opcode::Input(0),
            Opcode::Eof
        ]
    );
}

#[test]
fn link_pairs_nested_loops() {
    let mut ops = parse("[[]][]");
    assert_eq!(link_loops(&mut ops), Ok(()));
    assert_eq!(
        ops,
        vec![
            Opcode::LoopStart(3),
            Opcode::LoopStart(2),
            Opcode::LoopEnd(1),
            Opcode::LoopEnd(0),
            Opcode::LoopStart(5),
            Opcode::LoopEnd(4),
            Opcode::Eof
        ]
    );
}

#[test]
fn unclosed_loop_is_rejected() {
    let mut bf = Brainfuck::new();
    assert_eq!(bf.compile("+[>+"), Err(CompileError::UnclosedLoop));
    assert_eq!(bf.compile("[[]"), Err(CompileError::UnclosedLoop));
    assert_eq!(bf.compile_without_optimizations("["), Err(CompileError::UnclosedLoop));
}

#[test]
fn unexpected_loop_end_is_rejected() {
    let mut bf = Brainfuck::new();
    assert_eq!(bf.compile("]"), Err(CompileError::UnexpectedLoopEnd));
    assert_eq!(bf.compile("[]]["), Err(CompileError::UnexpectedLoopEnd));
    assert_eq!(bf.compile_without_optimizations("+]"), Err(CompileError::UnexpectedLoopEnd));
}

#[test]
fn failed_compile_keeps_program() {
    let mut bf = Brainfuck::new();
    bf.compile("+.").unwrap();
    let before = bf.program().clone();
    assert!(bf.compile("[").is_err());
    assert_eq!(bf.program(), &before);
    assert!(bf.compile("]").is_err());
    assert_eq!(bf.program(), &before);
}

#[test]
fn increments_fold_into_one() {
    assert_eq!(compiled("+++"), vec![Opcode::Increment(0, 3), Opcode::Eof]);
    assert_eq!(compiled("+ + comment +-+"), vec![Opcode::Increment(0, 3), Opcode::Eof]);
    assert_eq!(compiled("--"), vec![Opcode::Increment(0, 254), Opcode::Eof]);
    assert_eq!(compiled("+-"), vec![Opcode::Eof]);
    assert_eq!(compiled(&"+".repeat(256)), vec![Opcode::Eof]);
    assert_eq!(compiled(&"+".repeat(257)), vec![Opcode::Increment(0, 1), Opcode::Eof]);
}

#[test]
fn moves_fold_and_offsets_follow() {
    assert_eq!(
        compiled(">>+<<<."),
        vec![Opcode::Output(-1), Opcode::Increment(2, 1), Opcode::MovePointer(-1), Opcode::Eof]
    );
    assert_eq!(compiled("><<>"), vec![Opcode::Eof]);
}

#[test]
fn output_flushes_only_its_cell() {
    assert_eq!(
        compiled("+>++<."),
        vec![Opcode::Increment(0, 1), Opcode::Output(0), Opcode::Increment(1, 2), Opcode::Eof]
    );
}

#[test]
fn clear_loop_becomes_store() {
    assert_eq!(compiled("[-]"), vec![Opcode::SetCell(0, 0), Opcode::Eof]);
    assert_eq!(compiled("[+]"), vec![Opcode::SetCell(0, 0), Opcode::Eof]);
    assert_eq!(compiled("+++[-]."), vec![Opcode::SetCell(0, 0), Opcode::Output(0), Opcode::Eof]);
    assert_eq!(compiled("[-]++"), vec![Opcode::SetCell(0, 2), Opcode::Eof]);
    assert_eq!(compiled(">[-]<"), vec![Opcode::SetCell(1, 0), Opcode::Eof]);
}

#[test]
fn scan_loop_becomes_scan() {
    assert_eq!(compiled("[>>]"), vec![Opcode::ScanZero(2), Opcode::Eof]);
    assert_eq!(compiled("[<]"), vec![Opcode::ScanZero(-1), Opcode::Eof]);
    assert_eq!(
        compiled("+[>]."),
        vec![Opcode::Increment(0, 1), Opcode::ScanZero(1), Opcode::Output(0), Opcode::Eof]
    );
}

#[test]
fn balanced_move_loop_stays_a_loop() {
    assert_eq!(compiled("[><]"), vec![Opcode::LoopStart(1), Opcode::LoopEnd(0), Opcode::Eof]);
}

#[test]
fn loops_are_relinked_after_optimization() {
    let p = compiled("+[->+<]");
    assert_eq!(
        p,
        vec![
            Opcode::Increment(0, 1),
            Opcode::LoopStart(4),
            Opcode::Increment(0, 255),
            Opcode::Increment(1, 1),
            Opcode::LoopEnd(1),
            Opcode::Eof
        ]
    );
}

#[test]
fn optimize_leaves_targets_for_relinking() {
    let mut ops = parse("+[-]>[<]");
    link_loops(&mut ops).unwrap();
    let out = optimize(&ops);
    assert_eq!(out, vec![Opcode::SetCell(0, 0), Opcode::MovePointer(1), Opcode::ScanZero(-1), Opcode::Eof]);
}

#[test]
fn unoptimized_program_is_linked_parse() {
    let mut bf = Brainfuck::new();
    bf.compile_without_optimizations("+[-]").unwrap();
    assert_eq!(
        bf.program(),
        &vec![
            Opcode::Increment(0, 1),
            Opcode::LoopStart(3),
            Opcode::Increment(0, -1),
            Opcode::LoopEnd(1),
            Opcode::Eof
        ]
    );
}

#[test]
fn tokens_lower_with_neutral_operands() {
    assert_eq!(Opcode::from(Token::Increment), Opcode::Increment(0, 1));
    assert_eq!(Opcode::from(Token::Decrement), Opcode::Increment(0, -1));
    assert_eq!(Opcode::from(Token::MovePointerLeft), Opcode::MovePointer(-1));
    assert_eq!(Opcode::from(Token::MovePointerRight), Opcode::MovePointer(1));
    assert_eq!(Opcode::from(Token::LoopStart), Opcode::LoopStart(0));
    assert_eq!(Opcode::from(Token::LoopEnd), Opcode::LoopEnd(0));
    assert_eq!(Opcode::from(Token::Output), Opcode::Output(0));
    assert_eq!(Opcode::from(Token::Input), Opcode::Input(0));
}

#[test]
fn default_interpreter_is_empty() {
    let bf = Brainfuck::default();
    assert!(bf.program().is_empty());
    assert_eq!(bf.state().pointer, 0);
}
