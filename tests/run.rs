use brian::{Action, Brainfuck, BrainfuckState, Opcode, TAPE_LEN, cell_index};

const HELLO: &str = "++++++++[>++++[>++>+++>+++>+<<<<-]>+>+>->>+[<]<-]>>.>---.+++++++..+++.>>.<-.<.+++.------.--------.>>+.>++.";

fn run_code(code: &str, optimized: bool, state: BrainfuckState, input: &[u8]) -> (Vec<u8>, BrainfuckState) {
    let mut bf = Brainfuck::new_with_state(state);
    if optimized {
        bf.compile(code).unwrap();
    } else {
        bf.compile_without_optimizations(code).unwrap();
    }
    let r = bf.run_with_input(&input.to_vec(), 10_000_000);
    assert!(r.halted);
    (r.output, *bf.state())
}

#[test]
fn golden_hello_world() {
    let (out, _) = run_code(HELLO, true, BrainfuckState::new(), &[]);
    assert_eq!(out, b"Hello World!\n".to_vec());
}

#[test]
fn golden_hello_world_unoptimized() {
    let (out, _) = run_code(HELLO, false, BrainfuckState::new(), &[]);
    assert_eq!(out, b"Hello World!\n".to_vec());
}

fn assert_transparent(code: &str, state: BrainfuckState, input: &[u8]) {
    let (o1, s1) = run_code(code, true, state, input);
    let (o2, s2) = run_code(code, false, state, input);
    assert_eq!(o1, o2);
    assert_eq!(s1.pointer, s2.pointer);
    assert!(s1.memory[..] == s2.memory[..]);
}

#[test]
fn optimization_is_transparent() {
    assert_transparent(HELLO, BrainfuckState::new(), &[]);
    assert_transparent(",[.,]", BrainfuckState::new(), b"echo me\0");
    assert_transparent("+++[>++<-]>[-]<<[>>]+.", BrainfuckState::new(), &[]);
    let mut s = BrainfuckState::new();
    for i in 0..10 {
        s.memory[i] = (i as u8) * 7 + 1;
    }
    s.pointer = 3;
    assert_transparent("[>]<[-<]>>>+[<<]--.,.>.", s, b"z");
    let mut w = BrainfuckState::new();
    w.pointer = TAPE_LEN - 2;
    w.memory[TAPE_LEN - 1] = 9;
    assert_transparent(">>>+<<[-]>.<<.", w, &[]);
}

#[test]
fn pointer_wraps_right_at_last_cell() {
    let mut s = BrainfuckState::new();
    s.pointer = TAPE_LEN - 1;
    let (_, end) = run_code(">+", true, s, &[]);
    assert_eq!(end.pointer, 0);
    assert_eq!(end.memory[0], 1);
    let (_, end) = run_code(">+", false, s, &[]);
    assert_eq!(end.pointer, 0);
    assert_eq!(end.memory[0], 1);
}

#[test]
fn pointer_wraps_left_at_first_cell() {
    let (_, end) = run_code("<+", false, BrainfuckState::new(), &[]);
    assert_eq!(end.pointer, TAPE_LEN - 1);
    assert_eq!(end.memory[TAPE_LEN - 1], 1);
}

#[test]
fn cell_wraps_at_255() {
    let mut s = BrainfuckState::new();
    s.memory[0] = 255;
    let (_, end) = run_code("+", true, s, &[]);
    assert_eq!(end.memory[0], 0);
    let (_, end) = run_code("-", false, BrainfuckState::new(), &[]);
    assert_eq!(end.memory[0], 255);
}

#[test]
fn cell_index_wraps() {
    assert_eq!(cell_index(TAPE_LEN - 1, 1), 0);
    assert_eq!(cell_index(0, -1), TAPE_LEN - 1);
    assert_eq!(cell_index(5, 3), 8);
    assert_eq!(cell_index(usize::MAX, 1), 0);
}

#[test]
fn scan_stops_after_k_steps() {
    let mut s = BrainfuckState::new();
    s.memory[0] = 1;
    s.memory[2] = 1;
    s.memory[4] = 1;
    let mut bf = Brainfuck::new_with_state(s);
    bf.compile("[>>]").unwrap();
    assert_eq!(bf.program(), &vec![Opcode::ScanZero(2), Opcode::Eof]);
    let r = bf.run_with_input(&vec![], 100);
    assert!(r.halted);
    assert_eq!(bf.state().pointer, 6);
}

#[test]
fn scan_left_wraps() {
    let mut s = BrainfuckState::new();
    s.memory[0] = 1;
    s.memory[TAPE_LEN - 1] = 1;
    let mut bf = Brainfuck::new_with_state(s);
    bf.compile("[<]").unwrap();
    bf.run_with_input(&vec![], 100);
    assert_eq!(bf.state().pointer, TAPE_LEN - 2);
}

#[test]
fn input_reads_bytes_and_keeps_cell_at_end() {
    let mut s = BrainfuckState::new();
    s.memory[0] = 42;
    let mut bf = Brainfuck::new_with_state(s);
    bf.compile(",>,").unwrap();
    let r = bf.run_with_input(&vec![7], 100);
    assert_eq!(r.consumed, 1);
    assert_eq!(bf.state().memory[0], 7);
    assert_eq!(bf.state().memory[1], 0);
    let mut bf = Brainfuck::new_with_state(s);
    bf.compile(",").unwrap();
    bf.run_with_input(&vec![], 100);
    assert_eq!(bf.state().memory[0], 42);
}

#[test]
fn step_reports_actions() {
    let mut bf = Brainfuck::new();
    bf.compile_without_optimizations("+.,").unwrap();
    assert_eq!(bf.step(0), Action::Continue(1));
    assert_eq!(bf.step(1), Action::Write(1, 2));
    assert_eq!(bf.step(2), Action::Read(2));
    assert_eq!(bf.feed_input(2, Some(9)), 3);
    assert_eq!(bf.state().memory[0], 9);
    assert_eq!(bf.step(3), Action::Halt);
    assert_eq!(bf.step(4), Action::Halt);
}

#[test]
fn fuel_bounds_a_run() {
    let mut bf = Brainfuck::new();
    bf.compile("+[]").unwrap();
    let r = bf.run_with_input(&vec![], 50);
    assert!(!r.halted);
    assert!(r.output.is_empty());
}

#[test]
fn state_mut_changes_tape() {
    let mut bf = Brainfuck::new();
    bf.state_mut().memory[3] = 65;
    bf.state_mut().pointer = 3;
    bf.compile(".").unwrap();
    let r = bf.run_with_input(&vec![], 10);
    assert_eq!(r.output, vec![65]);
}

#[test]
fn new_state_is_zeroed() {
    let s = BrainfuckState::new();
    assert_eq!(s.pointer, 0);
    assert!(s.memory.iter().all(|&c| c == 0));
    let d = BrainfuckState::default();
    assert_eq!(d.pointer, 0);
    assert!(Brainfuck::new().program().is_empty());
}

#[test]
fn compiled_programs_are_well_formed() {
    let mut bf = Brainfuck::new();
    assert!(bf.is_well_formed());
    bf.compile("+[>[-]<-]>[<]").unwrap();
    assert!(bf.is_well_formed());
    bf.compile_without_optimizations("[[]][]").unwrap();
    assert!(bf.is_well_formed());
}

#[test]
fn offsets_a_tape_apart_name_one_cell() {
    let code = format!("<+{}[-]{}+.", ">".repeat(TAPE_LEN), "<".repeat(TAPE_LEN));
    let (o1, s1) = run_code(&code, true, BrainfuckState::new(), &[]);
    let (o2, s2) = run_code(&code, false, BrainfuckState::new(), &[]);
    assert_eq!(o2, vec![1]);
    assert_eq!(o1, vec![1]);
    assert_eq!(s1.pointer, s2.pointer);
    assert!(s1.memory[..] == s2.memory[..]);
}

#[test]
fn long_moves_reduce_to_nearest_offset() {
    let mut bf = Brainfuck::new();
    bf.compile(&format!("{}.", ">".repeat(40000))).unwrap();
    assert_eq!(
        bf.program(),
        &vec![Opcode::Output(-25536), Opcode::MovePointer(-25536), Opcode::Eof]
    );
}

#[test]
fn loop_free_program_is_transparent() {
    let mut s = BrainfuckState::new();
    s.memory[10] = 200;
    s.memory[11] = 3;
    s.pointer = 10;
    assert_transparent(",>+++<.>-.<<+.,,>>>--.<<<<", s, b"ab");
    assert_transparent("+>+<-.>>,<,.", BrainfuckState::new(), b"q");
}
