//! A compiled program together with the state it runs against.
use vstd::prelude::*;
use crate::program::{Opcode, parse};
use crate::linker::{
    CompileError, link_loops, is_linked, balanced, has_unexpected_end, depth, linked, same_shape,
    boundary_linked, lemma_depth_same_shape, lemma_is_linked_form, is_loop_start, is_loop_end,
};
use crate::optimizer::{
    optimize, optimized, lowered, lowered_op, lemma_optimized_balanced, lemma_increment_folding,
    increment_sum, increment_run, merge_add, wrap_u8, opt_from, BlockEffect, effects_ops, effect_ops,
    is_clear_loop, is_scan_loop, commit_ops, merge_clear, move_sum, only_moves,
};
use crate::linker::partners;
use crate::program::{parsed, lower, tokens_of, Token};
use crate::state::BrainfuckState;
use crate::interpreter::{
    Action, machine_of, halted, reads_input, emitted, next, run, targets_in_range,
    cell_index, current,
};

verus! {

/// The program that a text compiles to without optimization: its
/// instructions, linked.
pub open spec fn compiled_unoptimized(code: Seq<char>) -> Seq<Opcode> {
    linked(parsed(code))
}

/// The program that a text compiles to: its linked instructions, optimized,
/// then linked again.
pub open spec fn compiled(code: Seq<char>) -> Seq<Opcode> {
    linked(optimized(linked(parsed(code))))
}

proof fn lemma_linked_in_range(s: Seq<Opcode>)
    requires
        is_linked(s),
    ensures
        targets_in_range(s),
{
    assert forall|i: int| 0 <= i < s.len() implies match #[trigger] s[i] {
        Opcode::LoopStart(t) => t < s.len(),
        Opcode::LoopEnd(t) => t < s.len(),
        _ => true,
    } by {
        assert(boundary_linked(s, s, i));
    }
}

pub proof fn lemma_parsed_lowered(code: Seq<char>, l: Seq<Opcode>)
    requires
        same_shape(parsed(code), l),
    ensures
        lowered(parsed(code)),
        lowered(l),
{
    let p = parsed(code);
    let t = tokens_of(code);
    assert forall|i: int| 0 <= i < p.len() implies lowered_op(#[trigger] p[i]) by {
        if i < t.len() {
            assert(p[i] == lower(t[i]));
        }
    }
    assert forall|i: int| 0 <= i < l.len() implies lowered_op(#[trigger] l[i]) by {
        assert(lowered_op(p[i]));
    }
}

proof fn lemma_balanced_same_shape(a: Seq<Opcode>, b: Seq<Opcode>)
    requires
        same_shape(a, b),
        balanced(a),
    ensures
        balanced(b),
{
    assert forall|k: int|
        #![trigger depth(a, k)]
        #![trigger depth(b, k)]
        0 <= k <= a.len() implies depth(a, k) == depth(b, k) by {
        lemma_depth_same_shape(a, b, k);
    }
}

/// An interpreter: one compiled program and the tape it runs against.
#[derive(Clone)]
pub struct Brainfuck {
    state: BrainfuckState,
    program: Vec<Opcode>,
}

/// What a bounded run hands back.
pub struct Execution {
    /// How many input bytes were read.
    pub consumed: usize,
    /// The bytes written, in order.
    pub output: Vec<u8>,
    /// The counter where the run stopped.
    pub counter: usize,
    /// Whether the program has stopped, rather than the budget run out.
    pub halted: bool,
}

impl Brainfuck {
    /// The compiled program.
    pub closed spec fn prog(&self) -> Seq<Opcode> {
        self.program@
    }

    /// The tape and pointer.
    pub closed spec fn tape_state(&self) -> BrainfuckState {
        self.state
    }

    /// Every loop target of the program lies inside it.
    pub open spec fn wf(&self) -> bool {
        targets_in_range(self.prog())
    }

    /// An interpreter with an empty program and a zeroed tape.
    pub fn new() -> (r: Self)
        ensures
            r.prog() == Seq::<Opcode>::empty(),
            r.tape_state().pointer == 0,
            forall|i: int| 0 <= i < crate::state::TAPE_LEN ==> #[trigger] r.tape_state().memory@[i] == 0,
            r.wf(),
    {
        Brainfuck { state: BrainfuckState::new(), program: Vec::new() }
    }

    /// An interpreter with an empty program over a given state.
    pub fn new_with_state(state: BrainfuckState) -> (r: Self)
        ensures
            r.prog() == Seq::<Opcode>::empty(),
            r.tape_state() == state,
            r.wf(),
    {
        Brainfuck { state: state, program: Vec::new() }
    }

    /// The tape and pointer.
    pub fn state(&self) -> (r: &BrainfuckState)
        ensures
            *r == self.tape_state(),
    {
        &self.state
    }

    /// The tape and pointer, to change in place.
    pub fn state_mut(&mut self) -> (r: &mut BrainfuckState)
        ensures
            *r == old(self).tape_state(),
            final(self).tape_state() == *final(r),
            final(self).prog() == old(self).prog(),
    {
        &mut self.state
    }

    /// The compiled program.
    pub fn program(&self) -> (r: &Vec<Opcode>)
        ensures
            r@ == self.prog(),
    {
        &self.program
    }

    /// Checks that every loop target of the program lies inside it, as every
    /// constructor and compilation guarantees.
    pub fn is_well_formed(&self) -> (r: bool)
        ensures
            r == self.wf(),
    {
        let n = self.program.len();
        for i in 0..n
            invariant
                n == self.program@.len(),
                forall|j: int|
                    0 <= j < i ==> match #[trigger] self.program@[j] {
                        Opcode::LoopStart(t) => t < n,
                        Opcode::LoopEnd(t) => t < n,
                        _ => true,
                    },
        {
            match self.program[i] {
                Opcode::LoopStart(t) | Opcode::LoopEnd(t) => {
                    if t >= n {
                        return false;
                    }
                },
                _ => {},
            }
        }
        true
    }

    /// Compiles a text into an optimized program, replacing the current one.
    ///
    /// Fails, leaving the program as it was, when the loop boundaries of the
    /// text do not pair up: with `UnexpectedLoopEnd` when a loop end has no
    /// open start, and otherwise with `UnclosedLoop`.
    pub fn compile(&mut self, code: &str) -> (r: Result<(), CompileError>)
        requires
            old(self).wf(),
        ensures
            final(self).tape_state() == old(self).tape_state(),
            final(self).wf(),
            r == Err::<(), CompileError>(CompileError::UnexpectedLoopEnd) <==> has_unexpected_end(
                parsed(code@),
            ),
            r == Err::<(), CompileError>(CompileError::UnclosedLoop) <==> (!has_unexpected_end(
                parsed(code@),
            ) && depth(parsed(code@), parsed(code@).len() as int) != 0),
            r is Ok <==> balanced(parsed(code@)),
            r is Ok ==> final(self).prog() == compiled(code@),
            r is Err ==> final(self).prog() == old(self).prog(),
    {
        let mut ops = parse(code);
        let ghost p = ops@;
        match link_loops(&mut ops) {
            Err(e) => {
                return Err(e);
            },
            Ok(()) => {},
        }
        proof {
            lemma_parsed_lowered(code@, ops@);
            lemma_balanced_same_shape(p, ops@);
            lemma_optimized_balanced(ops@);
        }
        let mut optimized_ops = optimize(&ops);
        let ghost q = optimized_ops@;
        let relinked = link_loops(&mut optimized_ops);
        proof {
            assert(relinked is Ok);
            lemma_linked_in_range(optimized_ops@);
        }
        self.program = optimized_ops;
        Ok(())
    }

    /// Compiles a text without optimization, replacing the current program.
    ///
    /// Fails exactly as `compile` does.
    pub fn compile_without_optimizations(&mut self, code: &str) -> (r: Result<(), CompileError>)
        requires
            old(self).wf(),
        ensures
            final(self).tape_state() == old(self).tape_state(),
            final(self).wf(),
            r == Err::<(), CompileError>(CompileError::UnexpectedLoopEnd) <==> has_unexpected_end(
                parsed(code@),
            ),
            r == Err::<(), CompileError>(CompileError::UnclosedLoop) <==> (!has_unexpected_end(
                parsed(code@),
            ) && depth(parsed(code@), parsed(code@).len() as int) != 0),
            r is Ok <==> balanced(parsed(code@)),
            r is Ok ==> final(self).prog() == compiled_unoptimized(code@),
            r is Err ==> final(self).prog() == old(self).prog(),
    {
        let mut ops = parse(code);
        match link_loops(&mut ops) {
            Err(e) => {
                return Err(e);
            },
            Ok(()) => {},
        }
        proof {
            lemma_linked_in_range(ops@);
        }
        self.program = ops;
        Ok(())
    }

    /// Executes the instruction at `pc`, except an input instruction, which is
    /// left to `feed_input`.
    pub fn step(&mut self, pc: usize) -> (r: Action)
        requires
            old(self).wf(),
        ensures
            final(self).prog() == old(self).prog(),
            final(self).wf(),
            ({
                let prog = old(self).prog();
                let m = machine_of(pc as int, old(self).tape_state());
                match r {
                    Action::Halt => halted(prog, m) && final(self).tape_state() == old(self).tape_state(),
                    Action::Read(p) => p == pc && reads_input(prog, m) && final(self).tape_state()
                        == old(self).tape_state(),
                    Action::Continue(p) => !halted(prog, m) && !reads_input(prog, m) && emitted(prog, m)
                        is None && machine_of(p as int, final(self).tape_state()) == next(prog, m, None),
                    Action::Write(b, p) => !halted(prog, m) && emitted(prog, m) == Some(b)
                        && machine_of(p as int, final(self).tape_state()) == next(prog, m, None),
                }
            }),
    {
        if pc >= self.program.len() {
            return Action::Halt;
        }
        let ghost m = machine_of(pc as int, self.state);
        let ghost prog = self.program@;
        proof {
            assert(match prog[pc as int] {
                Opcode::LoopStart(t) => t < prog.len(),
                Opcode::LoopEnd(t) => t < prog.len(),
                _ => true,
            });
        }
        let ptr = self.state.pointer;
        match self.program[pc] {
            Opcode::Increment(o, d) => {
                let c = cell_index(ptr, o);
                let v = self.state.memory[c];
                let nv = v.wrapping_add(d as u8);
                proof {
                    assert(nv == crate::interpreter::add_wrapping(v, d as int)) by {
                        lemma_add_byte(v, d);
                    }
                }
                self.state.memory[c] = nv;
                proof {
                    assert(self.state.memory@ == m.tape.update(c as int, nv));
                }
                Action::Continue(pc + 1)
            },
            Opcode::SetCell(o, v) => {
                let c = cell_index(ptr, o);
                self.state.memory[c] = v;
                Action::Continue(pc + 1)
            },
            Opcode::MovePointer(d) => {
                self.state.pointer = cell_index(ptr, d);
                Action::Continue(pc + 1)
            },
            Opcode::LoopStart(t) => {
                let c = cell_index(ptr, 0);
                if self.state.memory[c] == 0 {
                    Action::Continue(t + 1)
                } else {
                    Action::Continue(pc + 1)
                }
            },
            Opcode::LoopEnd(t) => {
                let c = cell_index(ptr, 0);
                if self.state.memory[c] != 0 {
                    Action::Continue(t + 1)
                } else {
                    Action::Continue(pc + 1)
                }
            },
            Opcode::ScanZero(d) => {
                let c = cell_index(ptr, 0);
                if self.state.memory[c] != 0 {
                    self.state.pointer = cell_index(ptr, d);
                    Action::Continue(pc)
                } else {
                    Action::Continue(pc + 1)
                }
            },
            Opcode::Output(o) => {
                let c = cell_index(ptr, o);
                Action::Write(self.state.memory[c], pc + 1)
            },
            Opcode::Input(_) => Action::Read(pc),
            Opcode::Eof => Action::Halt,
        }
    }

    /// Completes the input instruction at `pc` with the byte read, or with
    /// `None` at the end of input, which leaves the cell as it is.
    pub fn feed_input(&mut self, pc: usize, byte: Option<u8>) -> (r: usize)
        requires
            old(self).wf(),
            reads_input(old(self).prog(), machine_of(pc as int, old(self).tape_state())),
        ensures
            final(self).prog() == old(self).prog(),
            final(self).wf(),
            machine_of(r as int, final(self).tape_state()) == next(
                old(self).prog(),
                machine_of(pc as int, old(self).tape_state()),
                byte,
            ),
    {
        assert(pc < self.program.len());
        if let Opcode::Input(o) = self.program[pc] {
            if let Some(b) = byte {
                let c = cell_index(self.state.pointer, o);
                self.state.memory[c] = b;
            }
        }
        pc + 1
    }
    /// Runs the program from its first instruction for at most `fuel` steps,
    /// reading from `input` and collecting what it writes. At the end of
    /// input, an input instruction leaves its cell as it is.
    pub fn run_with_input(&mut self, input: &Vec<u8>, fuel: usize) -> (r: Execution)
        requires
            old(self).wf(),
        ensures
            final(self).prog() == old(self).prog(),
            final(self).wf(),
            ({
                let res = run(
                    old(self).prog(),
                    machine_of(0, old(self).tape_state()),
                    input@,
                    fuel as nat,
                );
                &&& machine_of(r.counter as int, final(self).tape_state()) == res.m
                &&& r.output@ == res.output
                &&& r.consumed <= input@.len()
                &&& res.input == input@.skip(r.consumed as int)
                &&& r.halted == halted(old(self).prog(), res.m)
            }),
    {
        let ghost prog = self.program@;
        let ghost total = run(prog, machine_of(0, self.state), input@, fuel as nat);
        let mut out: Vec<u8> = Vec::new();
        let mut pc: usize = 0;
        let mut pos: usize = 0;
        let mut left: usize = fuel;
        proof {
            assert(input@.skip(0) == input@);
        }
        while left > 0
            invariant
                self.wf(),
                self.prog() == prog,
                pos <= input@.len(),
                ({
                    let rest = run(
                        prog,
                        machine_of(pc as int, self.tape_state()),
                        input@.skip(pos as int),
                        left as nat,
                    );
                    &&& total.m == rest.m
                    &&& total.input == rest.input
                    &&& total.output == out@ + rest.output
                }),
            decreases left,
        {
            let ghost before = machine_of(pc as int, self.state);
            match self.step(pc) {
                Action::Halt => {
                    left = 0;
                },
                Action::Continue(p) => {
                    pc = p;
                    left -= 1;
                },
                Action::Write(b, p) => {
                    proof {
                        let r1 = run(prog, next(prog, before, None), input@.skip(pos as int), (left - 1) as nat);
                        assert(out@.push(b) + r1.output == out@ + (seq![b] + r1.output));
                    }
                    out.push(b);
                    pc = p;
                    left -= 1;
                },
                Action::Read(_) => {
                    if pos < input.len() {
                        let b = input[pos];
                        pc = self.feed_input(pc, Some(b));
                        proof {
                            assert(input@.skip(pos as int)[0] == b);
                            assert(input@.skip(pos as int).drop_first() == input@.skip(pos + 1));
                        }
                        pos += 1;
                    } else {
                        pc = self.feed_input(pc, None);
                    }
                    left -= 1;
                },
            }
        }
        let halted = pc >= self.program.len() || (match self.program[pc] {
            Opcode::Eof => true,
            _ => false,
        });
        proof {
            assert(out@ + Seq::<u8>::empty() == out@);
        }
        Execution { consumed: pos, output: out, counter: pc, halted }
    }
}

impl Default for Brainfuck {
    /// An interpreter with an empty program and a zeroed tape.
    fn default() -> (r: Self)
        ensures
            r.prog() == Seq::<Opcode>::empty(),
            r.tape_state().pointer == 0,
            forall|i: int| 0 <= i < crate::state::TAPE_LEN ==> #[trigger] r.tape_state().memory@[i] == 0,
            r.wf(),
    {
        Self::new()
    }
}


/// A sequence without loop boundaries is its own linked form.
pub proof fn lemma_linked_plain(s: Seq<Opcode>)
    requires
        forall|i: int| 0 <= i < s.len() ==> !is_loop_start(#[trigger] s[i]) && !is_loop_end(s[i]),
    ensures
        linked(s) == s,
{
    assert forall|i: int| 0 <= i < s.len() implies #[trigger] boundary_linked(s, s, i) by {
        assert(!is_loop_start(s[i]) && !is_loop_end(s[i]));
    }
    lemma_is_linked_form(s, s);
}

/// A text whose instructions are only increments and decrements compiles to
/// one increment by their net sum modulo 256, or to nothing when that is zero.
pub proof fn lemma_compiled_increments(code: Seq<char>)
    requires
        tokens_of(code).len() >= 1,
        forall|k: int|
            0 <= k < tokens_of(code).len() ==> #[trigger] tokens_of(code)[k] == Token::Increment
                || tokens_of(code)[k] == Token::Decrement,
    ensures
        ({
            let w = wrap_u8(increment_sum(parsed(code), 0, tokens_of(code).len() as int));
            compiled(code) == if w == 0 {
                seq![Opcode::Eof]
            } else {
                seq![Opcode::Increment(0, w as isize), Opcode::Eof]
            }
        }),
{
    let t = tokens_of(code);
    let n = t.len() as int;
    let s = parsed(code);
    assert forall|k: int| 0 <= k < n implies #[trigger] s[k] == lower(t[k]) by {}
    assert(s[n] == Opcode::Eof);
    assert forall|i: int| 0 <= i < s.len() implies !is_loop_start(#[trigger] s[i]) && !is_loop_end(s[i]) by {
        if i < n {
            assert(s[i] == lower(t[i]));
        }
    }
    lemma_linked_plain(s);
    assert(increment_run(s, 0, n)) by {
        assert forall|k: int| 0 <= k < n implies match #[trigger] s[k] {
            Opcode::Increment(o, _) => o == 0,
            _ => false,
        } by {
            assert(s[k] == lower(t[k]));
        }
    }
    let sum = increment_sum(s, 0, n);
    let w = wrap_u8(sum);
    lemma_increment_folding(s, 0, n, Seq::empty(), 0, Seq::empty());
    let p = merge_add(Seq::empty(), 0, sum);
    assert(p =~= seq![(0isize, BlockEffect::Add(w))]);
    assert(!is_clear_loop(s, n));
    assert(!is_scan_loop(s, n));
    assert(p.drop_last() =~= Seq::<(isize, BlockEffect)>::empty());
    assert(effects_ops(p) == effects_ops(p.drop_last()) + effect_ops(p.last()));
    let r = commit_ops(p, 0).push(Opcode::Eof);
    assert(opt_from(s, n + 1, Seq::empty(), 0, Seq::<Opcode>::empty() + commit_ops(p, 0).push(Opcode::Eof)) == Seq::<Opcode>::empty() + commit_ops(p, 0).push(Opcode::Eof));
    assert(Seq::<Opcode>::empty() + commit_ops(p, 0) =~= commit_ops(p, 0));
    assert(optimized(s) == r);
    if w == 0 {
        assert(r =~= seq![Opcode::Eof]);
    } else {
        assert(r =~= seq![Opcode::Increment(0, w as isize), Opcode::Eof]);
    }
    assert forall|i: int| 0 <= i < r.len() implies !is_loop_start(#[trigger] r[i]) && !is_loop_end(r[i]) by {}
    lemma_linked_plain(r);
}

proof fn lemma_body_depth(l: Seq<Opcode>, m: int, k: int)
    requires
        1 <= m < l.len(),
        is_loop_start(l[0]),
        forall|j: int| 0 < j < m ==> !is_loop_start(#[trigger] l[j]) && !is_loop_end(l[j]),
        1 <= k <= m,
    ensures
        depth(l, k) == 1,
    decreases k,
{
    assert(depth(l, 0) == 0);
    if k > 1 {
        lemma_body_depth(l, m, k - 1);
        assert(!is_loop_start(l[k - 1]) && !is_loop_end(l[k - 1]));
        assert(depth(l, k) == depth(l, k - 1));
    } else {
        assert(depth(l, 1) == depth(l, 0) + 1);
    }
}

/// A single loop around instructions without loop boundaries, followed by
/// the end marker, links its two boundaries to each other.
proof fn lemma_single_loop_linked(s: Seq<Opcode>)
    requires
        4 <= s.len() <= usize::MAX,
        is_loop_start(s[0]),
        is_loop_end(s[s.len() - 2]),
        s[s.len() - 1] == Opcode::Eof,
        forall|j: int| 0 < j < s.len() - 2 ==> !is_loop_start(#[trigger] s[j]) && !is_loop_end(s[j]),
    ensures
        linked(s) == s.update(0, Opcode::LoopStart((s.len() - 2) as usize)).update(
            s.len() - 2,
            Opcode::LoopEnd(0),
        ),
{
    let m = s.len() - 2;
    let l = s.update(0, Opcode::LoopStart(m as usize)).update(m, Opcode::LoopEnd(0));
    assert forall|j: int| 0 < j < m implies !is_loop_start(#[trigger] l[j]) && !is_loop_end(l[j]) by {
        assert(l[j] == s[j]);
    }
    assert forall|k: int| 0 < k <= m implies #[trigger] depth(l, k) > depth(l, 0) by {
        lemma_body_depth(l, m, k);
    }
    lemma_body_depth(l, m, m);
    assert(depth(l, m + 1) == 0);
    assert(partners(l, 0, m));
    assert forall|i: int| 0 <= i < l.len() implies #[trigger] boundary_linked(l, l, i) by {
        if 0 < i < m {
            assert(l[i] == s[i]);
        }
    }
    assert(same_shape(s, l)) by {
        assert forall|i: int| 0 <= i < s.len() implies {
            ||| #[trigger] s[i] == l[i]
            ||| (is_loop_start(s[i]) && is_loop_start(l[i]))
            ||| (is_loop_end(s[i]) && is_loop_end(l[i]))
        } by {}
    }
    lemma_is_linked_form(s, l);
}

/// A text made of one loop around a single increment or decrement compiles
/// to a store of zero: no loop instruction is left.
pub proof fn lemma_compiled_clear_loop(code: Seq<char>)
    requires
        tokens_of(code).len() == 3,
        tokens_of(code)[0] == Token::LoopStart,
        tokens_of(code)[1] == Token::Increment || tokens_of(code)[1] == Token::Decrement,
        tokens_of(code)[2] == Token::LoopEnd,
    ensures
        compiled(code) == seq![Opcode::SetCell(0, 0), Opcode::Eof],
{
    let t = tokens_of(code);
    let s = parsed(code);
    assert(s[0] == lower(t[0]) && s[1] == lower(t[1]) && s[2] == lower(t[2]));
    lemma_single_loop_linked(s);
    let l = linked(s);
    assert(l[0] == Opcode::LoopStart(2) && l[1] == s[1] && l[2] == Opcode::LoopEnd(0) && l[3] == Opcode::Eof);
    assert(is_clear_loop(l, 0));
    let p = merge_clear(Seq::empty(), 0);
    assert(p =~= seq![(0isize, BlockEffect::Store(0))]);
    assert(optimized(l) == opt_from(l, 3, p, 0, Seq::empty()));
    assert(!is_clear_loop(l, 3));
    assert(!is_scan_loop(l, 3));
    assert(p.drop_last() =~= Seq::<(isize, BlockEffect)>::empty());
    assert(effects_ops(p) == effects_ops(p.drop_last()) + effect_ops(p.last()));
    let r = seq![Opcode::SetCell(0, 0), Opcode::Eof];
    assert(Seq::<Opcode>::empty() + commit_ops(p, 0) =~= seq![Opcode::SetCell(0, 0)]);
    assert(seq![Opcode::SetCell(0, 0)].push(Opcode::Eof) =~= r);
    assert(opt_from(l, 4, Seq::empty(), 0, r) == r);
    assert(opt_from(l, 3, p, 0, Seq::empty()) == opt_from(
        l,
        4,
        Seq::empty(),
        0,
        (Seq::<Opcode>::empty() + commit_ops(p, 0)).push(Opcode::Eof),
    ));
    assert(optimized(l) == r);
    assert forall|i: int| 0 <= i < r.len() implies !is_loop_start(#[trigger] r[i]) && !is_loop_end(r[i]) by {}
    lemma_linked_plain(r);
}

proof fn lemma_move_sum_agree(a: Seq<Opcode>, b: Seq<Opcode>, i: int, j: int)
    requires
        0 <= i,
        j <= a.len(),
        j <= b.len(),
        forall|k: int| i <= k < j ==> #[trigger] a[k] == b[k],
    ensures
        move_sum(a, i, j) == move_sum(b, i, j),
        only_moves(a, i, j) == only_moves(b, i, j),
    decreases j - i,
{
    if j > i {
        lemma_move_sum_agree(a, b, i, j - 1);
    }
}

/// A text made of one loop around pointer moves with a nonzero net step
/// compiles to a single scan by that step.
pub proof fn lemma_compiled_scan_loop(code: Seq<char>)
    requires
        3 <= tokens_of(code).len() < usize::MAX,
        tokens_of(code)[0] == Token::LoopStart,
        tokens_of(code).last() == Token::LoopEnd,
        forall|k: int|
            0 < k < tokens_of(code).len() - 1 ==> #[trigger] tokens_of(code)[k] == Token::MovePointerLeft
                || tokens_of(code)[k] == Token::MovePointerRight,
        move_sum(parsed(code), 1, tokens_of(code).len() - 1) != 0,
    ensures
        compiled(code) == seq![
            Opcode::ScanZero(move_sum(parsed(code), 1, tokens_of(code).len() - 1) as isize),
            Opcode::Eof,
        ],
{
    let t = tokens_of(code);
    let s = parsed(code);
    let m = t.len() - 1;
    assert forall|k: int| 0 <= k < t.len() implies #[trigger] s[k] == lower(t[k]) by {}
    assert(s[0] == lower(t[0]));
    assert(s[m] == lower(t[m]));
    assert forall|j: int| 0 < j < s.len() - 2 implies !is_loop_start(#[trigger] s[j]) && !is_loop_end(s[j]) by {
        assert(s[j] == lower(t[j]));
    }
    lemma_single_loop_linked(s);
    let l = linked(s);
    assert(l[0] == Opcode::LoopStart(m as usize));
    assert forall|k: int| 1 <= k < m implies #[trigger] s[k] == l[k] by {}
    lemma_move_sum_agree(s, l, 1, m);
    assert(only_moves(s, 1, m)) by {
        assert forall|k: int| 1 <= k < m implies #[trigger] s[k] is MovePointer by {
            assert(s[k] == lower(t[k]));
        }
    }
    let d = move_sum(s, 1, m);
    assert(is_scan_loop(l, 0));
    lemma_scan_loop_rewrite_compat(l, d);
    let r = seq![Opcode::ScanZero(d as isize), Opcode::Eof];
    assert(optimized(l) == r);
    assert forall|i: int| 0 <= i < r.len() implies !is_loop_start(#[trigger] r[i]) && !is_loop_end(r[i]) by {}
    lemma_linked_plain(r);
}

proof fn lemma_scan_loop_rewrite_compat(l: Seq<Opcode>, d: int)
    requires
        4 <= l.len() <= usize::MAX,
        is_scan_loop(l, 0),
        l[0] == Opcode::LoopStart((l.len() - 2) as usize),
        l[l.len() - 1] == Opcode::Eof,
        d == move_sum(l, 1, l.len() - 2),
    ensures
        optimized(l) == seq![Opcode::ScanZero(d as isize), Opcode::Eof],
{
    let m = l.len() - 2;
    crate::optimizer::lemma_scan_loop_rewrite(l, 0, Seq::empty(), 0, Seq::empty());
    let e = Seq::<(isize, BlockEffect)>::empty();
    assert(commit_ops(e, 0) =~= Seq::<Opcode>::empty());
    let o1 = (Seq::<Opcode>::empty() + commit_ops(e, 0)).push(Opcode::ScanZero(d as isize));
    assert(o1 =~= seq![Opcode::ScanZero(d as isize)]);
    assert(optimized(l) == opt_from(l, m + 1, e, 0, o1));
    assert(opt_from(l, m + 1, e, 0, o1) == opt_from(l, m + 2, e, 0, (o1 + commit_ops(e, 0)).push(Opcode::Eof)));
    assert(!is_clear_loop(l, m + 1));
    assert(!is_scan_loop(l, m + 1));
    let r = seq![Opcode::ScanZero(d as isize), Opcode::Eof];
    assert((o1 + commit_ops(e, 0)).push(Opcode::Eof) =~= r);
    assert(opt_from(l, m + 2, Seq::empty(), 0, r) == r);
}

proof fn lemma_add_byte(v: u8, d: isize)
    ensures
        v.wrapping_add(d as u8) == crate::interpreter::add_wrapping(v, d as int),
{
    assert(((v + (d as u8)) % 256) as u8 == ((v + d) % 256) as u8) by (bit_vector);
}

} // verus!
