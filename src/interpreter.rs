//! Execution of compiled programs, one instruction at a time.
use vstd::prelude::*;
use vstd::arithmetic::div_mod::lemma_mod_multiples_vanish;
use crate::program::Opcode;
use crate::state::{BrainfuckState, TAPE_LEN, MEMORY_MASK};

verus! {

/// A point of execution: the counter, the tape contents and the pointer.
pub struct Machine {
    pub pc: int,
    pub tape: Seq<u8>,
    pub ptr: int,
}

/// The point of execution of a state at a counter.
pub open spec fn machine_of(pc: int, s: BrainfuckState) -> Machine {
    Machine { pc, tape: s.memory@, ptr: s.pointer as int }
}

/// The cell that an offset from the pointer addresses, wrapping around the tape.
pub open spec fn cell_at(ptr: int, offset: int) -> int {
    (ptr + offset) % (TAPE_LEN as int)
}

/// A cell value after adding a delta, modulo 256.
pub open spec fn add_wrapping(v: u8, delta: int) -> u8 {
    ((v + delta) % 256) as u8
}

/// The value of the cell under the pointer.
pub open spec fn current(m: Machine) -> u8 {
    m.tape[cell_at(m.ptr, 0)]
}

/// The program has stopped: the counter left the program or rests on the end marker.
pub open spec fn halted(prog: Seq<Opcode>, m: Machine) -> bool {
    m.pc < 0 || m.pc >= prog.len() || prog[m.pc] is Eof
}

/// The next instruction reads a byte of input.
pub open spec fn reads_input(prog: Seq<Opcode>, m: Machine) -> bool {
    !halted(prog, m) && prog[m.pc] is Input
}

/// The byte that the next instruction writes, if it writes one.
pub open spec fn emitted(prog: Seq<Opcode>, m: Machine) -> Option<u8> {
    if halted(prog, m) {
        None
    } else {
        match prog[m.pc] {
            Opcode::Output(o) => Some(m.tape[cell_at(m.ptr, o as int)]),
            _ => None,
        }
    }
}

/// The point of execution after one step. `input` is the byte that an input
/// instruction reads; at the end of input (`None`) the cell keeps its value.
/// A scan moves the pointer one step per step of execution.
pub open spec fn next(prog: Seq<Opcode>, m: Machine, input: Option<u8>) -> Machine {
    if halted(prog, m) {
        m
    } else {
        match prog[m.pc] {
            Opcode::Increment(o, d) => {
                let c = cell_at(m.ptr, o as int);
                Machine { pc: m.pc + 1, tape: m.tape.update(c, add_wrapping(m.tape[c], d as int)), ..m }
            },
            Opcode::SetCell(o, v) => {
                Machine { pc: m.pc + 1, tape: m.tape.update(cell_at(m.ptr, o as int), v), ..m }
            },
            Opcode::MovePointer(d) => Machine { pc: m.pc + 1, ptr: cell_at(m.ptr, d as int), ..m },
            Opcode::LoopStart(t) => Machine {
                pc: if current(m) == 0 { t + 1 } else { m.pc + 1 },
                ..m
            },
            Opcode::LoopEnd(t) => Machine {
                pc: if current(m) != 0 { t + 1 } else { m.pc + 1 },
                ..m
            },
            Opcode::ScanZero(d) => if current(m) != 0 {
                Machine { ptr: cell_at(m.ptr, d as int), ..m }
            } else {
                Machine { pc: m.pc + 1, ..m }
            },
            Opcode::Output(_) => Machine { pc: m.pc + 1, ..m },
            Opcode::Input(o) => match input {
                Some(b) => Machine {
                    pc: m.pc + 1,
                    tape: m.tape.update(cell_at(m.ptr, o as int), b),
                    ..m
                },
                None => Machine { pc: m.pc + 1, ..m },
            },
            Opcode::Eof => m,
        }
    }
}

/// Where a run with a budget of steps ends: the point of execution, the input
/// left unread and the bytes written.
pub struct Run {
    pub m: Machine,
    pub input: Seq<u8>,
    pub output: Seq<u8>,
}

/// Runs at most `fuel` steps from `m` on an input stream, stopping early on halt.
pub open spec fn run(prog: Seq<Opcode>, m: Machine, input: Seq<u8>, fuel: nat) -> Run
    decreases fuel,
{
    if fuel == 0 || halted(prog, m) {
        Run { m, input, output: Seq::empty() }
    } else {
        let byte = if reads_input(prog, m) && input.len() > 0 { Some(input[0]) } else { None };
        let rest = if reads_input(prog, m) && input.len() > 0 { input.drop_first() } else { input };
        let r = run(prog, next(prog, m, byte), rest, (fuel - 1) as nat);
        let out = match emitted(prog, m) {
            Some(b) => seq![b].add(r.output),
            None => r.output,
        };
        Run { output: out, ..r }
    }
}

/// What one step asks of its caller.
#[derive(Clone, Copy, Debug, PartialEq, Eq, Structural)]
pub enum Action {
    /// Go on at the given counter.
    Continue(usize),
    /// Write the byte, then go on at the given counter.
    Write(u8, usize),
    /// The instruction at the counter reads a byte: hand it over.
    Read(usize),
    /// The program has stopped.
    Halt,
}

/// Loop targets lie inside the program.
pub open spec fn targets_in_range(prog: Seq<Opcode>) -> bool {
    forall|i: int|
        0 <= i < prog.len() ==> match #[trigger] prog[i] {
            Opcode::LoopStart(t) => t < prog.len(),
            Opcode::LoopEnd(t) => t < prog.len(),
            _ => true,
        }
}

proof fn lemma_mask(q: usize)
    ensures
        q & MEMORY_MASK == q % TAPE_LEN,
        q & MEMORY_MASK < TAPE_LEN,
{
    assert(q & 0xffff == q % 0x10000) by (bit_vector);
    assert(q & 0xffff < 0x10000) by (bit_vector);
}

/// The cell index at an offset from a pointer, wrapping around the tape.
pub fn cell_index(ptr: usize, offset: isize) -> (r: usize)
    ensures
        r == cell_at(ptr as int, offset as int),
        r < TAPE_LEN,
{
    let q = ptr.wrapping_add_signed(offset);
    proof {
        lemma_mask(q);
        let a = ptr + offset;
        let w = usize::MAX + 1;
        assert(w % (TAPE_LEN as int) == 0) by {
            assert(usize::MAX == 0xffff_ffff || usize::MAX == 0xffff_ffff_ffff_ffff);
        }
        let k = w / (TAPE_LEN as int);
        assert(w == (TAPE_LEN as int) * k) by (nonlinear_arith)
            requires w % (TAPE_LEN as int) == 0, k == w / (TAPE_LEN as int);
        if a > usize::MAX {
            assert(q == a - w);
            assert((TAPE_LEN as int) * -k + a == a - w) by (nonlinear_arith)
                requires w == (TAPE_LEN as int) * k;
            lemma_mod_multiples_vanish(-k, a, TAPE_LEN as int);
        } else if a < 0 {
            assert(q == a + w);
            lemma_mod_multiples_vanish(k, a, TAPE_LEN as int);
        }
    }
    q & MEMORY_MASK
}

/// Moving right from the last cell reaches the first cell, and adding one to
/// a cell that holds 255 leaves zero.
pub proof fn lemma_wraparound(prog: Seq<Opcode>, m: Machine)
    requires
        !halted(prog, m),
        m.ptr == TAPE_LEN - 1,
        m.tape.len() == TAPE_LEN,
    ensures
        prog[m.pc] == Opcode::MovePointer(1) ==> next(prog, m, None).ptr == 0,
        prog[m.pc] == Opcode::Increment(0, 1) && current(m) == 255 ==> current(next(prog, m, None))
            == 0,
        cell_at(m.ptr, 1) == 0,
{
    if prog[m.pc] == Opcode::Increment(0, 1) && current(m) == 255 {
        let c = cell_at(m.ptr, 0);
        assert(c == TAPE_LEN - 1);
        assert(add_wrapping(255, 1) == 0);
        assert(next(prog, m, None).tape[c] == add_wrapping(255, 1));
    }
}

proof fn lemma_cell_at_shift(ptr: int, d: int, j: int)
    ensures
        cell_at(cell_at(ptr, d), j * d) == cell_at(ptr, (j + 1) * d),
{
    let t = TAPE_LEN as int;
    vstd::arithmetic::div_mod::lemma_add_mod_noop_right(j * d, ptr + d, t);
    assert((ptr + d) % t + j * d == j * d + (ptr + d) % t);
    assert(j * d + (ptr + d) == ptr + (j + 1) * d) by (nonlinear_arith);
}

/// A scan over `k` nonzero cells, spaced by its step, that ends on a zero
/// cell takes `k + 1` steps, writes nothing, and leaves the pointer `k`
/// steps further on.
pub proof fn lemma_scan_advances(prog: Seq<Opcode>, m: Machine, d: isize, k: nat, input: Seq<u8>)
    requires
        0 <= m.pc < prog.len(),
        prog[m.pc] == Opcode::ScanZero(d),
        0 <= m.ptr < TAPE_LEN,
        forall|j: int| 0 <= j < k ==> #[trigger] m.tape[cell_at(m.ptr, j * d)] != 0,
        m.tape[cell_at(m.ptr, k * d)] == 0,
    ensures
        run(prog, m, input, k + 1).m == (Machine { pc: m.pc + 1, ptr: cell_at(m.ptr, k * d), ..m }),
        run(prog, m, input, k + 1).output == Seq::<u8>::empty(),
        run(prog, m, input, k + 1).input == input,
    decreases k,
{
    assert(cell_at(m.ptr, 0) == m.ptr) by {
        vstd::arithmetic::div_mod::lemma_small_mod(m.ptr as nat, TAPE_LEN as nat);
    }
    if k == 0 {
        assert(0 * d == 0);
        let m1 = next(prog, m, None);
        assert(run(prog, m1, input, 0).m == m1);
    } else {
        assert(0 * d == 0);
        assert(m.tape[cell_at(m.ptr, 0 * d)] != 0);
        let m1 = next(prog, m, None);
        assert(m1 == Machine { ptr: cell_at(m.ptr, d as int), ..m });
        let k1 = (k - 1) as nat;
        assert forall|j: int| 0 <= j < k1 implies #[trigger] m1.tape[cell_at(m1.ptr, j * d)] != 0 by {
            lemma_cell_at_shift(m.ptr, d as int, j);
            assert(m.tape[cell_at(m.ptr, (j + 1) * d)] != 0);
        }
        lemma_cell_at_shift(m.ptr, d as int, k1 as int);
        assert((k1 + 1) * d == k * d);
        lemma_scan_advances(prog, m1, d, k1, input);
    }
}

} // verus!
