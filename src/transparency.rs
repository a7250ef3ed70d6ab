//! Optimization keeps the behaviour of programs without loops: the optimized
//! program writes the same bytes, reads the same input and leaves the same
//! tape and pointer as the unoptimized one.
use vstd::prelude::*;
use crate::program::Opcode;
use crate::interpreter::{Machine, Run, next, emitted, reads_input, run, cell_at, add_wrapping};
use crate::state::{TAPE_LEN, BrainfuckState};
use crate::program::{Token, tokens_of, parsed, lower};
use crate::interpreter::{halted, machine_of};
use crate::linker::{is_loop_start, is_loop_end, same_shape};
use crate::brainfuck::{compiled, compiled_unoptimized, lemma_linked_plain, lemma_parsed_lowered};
use crate::optimizer::{
    BlockEffect, effect_ops, effects_ops, unique_keys, small_keys, small, lemma_remove_keys,
    lemma_merge_keys, lemma_key_index_at, lowered, lowered_op, opt_from, merge_add, key_index,
    wrap_u8, norm, commit_ops, is_clear_loop, is_scan_loop,
};

verus! {

/// An instruction that changes cells, the pointer or the streams, and moves on.
pub open spec fn straight_op(op: Opcode) -> bool {
    ||| op is Increment
    ||| op is SetCell
    ||| op is MovePointer
    ||| op is Output
    ||| op is Input
}

/// Every instruction is a straight-line one.
pub open spec fn straight(s: Seq<Opcode>) -> bool {
    forall|i: int| 0 <= i < s.len() ==> straight_op(#[trigger] s[i])
}

/// Executes straight-line instructions one after the other on an input
/// stream; the counter advances by one per instruction.
pub open spec fn exec(ops: Seq<Opcode>, m: Machine, input: Seq<u8>) -> Run
    decreases ops.len(),
{
    if ops.len() == 0 {
        Run { m, input, output: Seq::empty() }
    } else {
        let one = seq![ops[0]];
        let m0 = Machine { pc: 0, ..m };
        let byte = if reads_input(one, m0) && input.len() > 0 { Some(input[0]) } else { None };
        let rest = if reads_input(one, m0) && input.len() > 0 { input.drop_first() } else { input };
        let m1 = next(one, m0, byte);
        let r = exec(ops.drop_first(), Machine { pc: m.pc + 1, ..m1 }, rest);
        let out = match emitted(one, m0) {
            Some(b) => seq![b] + r.output,
            None => r.output,
        };
        Run { output: out, ..r }
    }
}

proof fn lemma_exec_append(a: Seq<Opcode>, b: Seq<Opcode>, m: Machine, input: Seq<u8>)
    ensures
        ({
            let r1 = exec(a, m, input);
            let r2 = exec(b, r1.m, r1.input);
            exec(a + b, m, input) == Run { output: r1.output + r2.output, ..r2 }
        }),
    decreases a.len(),
{
    if a.len() == 0 {
        assert(a + b =~= b);
        let r2 = exec(b, m, input);
        assert(Seq::<u8>::empty() + r2.output =~= r2.output);
    } else {
        assert((a + b)[0] == a[0]);
        assert((a + b).drop_first() =~= a.drop_first() + b);
        let one = seq![a[0]];
        let m0 = Machine { pc: 0, ..m };
        let byte = if reads_input(one, m0) && input.len() > 0 { Some(input[0]) } else { None };
        let rest = if reads_input(one, m0) && input.len() > 0 { input.drop_first() } else { input };
        let m1 = next(one, m0, byte);
        let mm = Machine { pc: m.pc + 1, ..m1 };
        lemma_exec_append(a.drop_first(), b, mm, rest);
        let r1 = exec(a, m, input);
        let r2 = exec(b, r1.m, r1.input);
        let q1 = exec(a.drop_first(), mm, rest);
        match emitted(one, m0) {
            Some(x) => {
                assert(seq![x] + (q1.output + r2.output) =~= (seq![x] + q1.output) + r2.output);
            },
            None => {},
        }
    }
}

/// Running a program from a counter up to an end marker, through
/// straight-line instructions only, is executing those instructions.
proof fn lemma_run_straight(prog: Seq<Opcode>, m: Machine, input: Seq<u8>, fuel: nat, e: int)
    requires
        0 <= m.pc <= e < prog.len(),
        prog[e] is Eof,
        straight(prog.subrange(m.pc, e)),
        fuel >= e - m.pc,
    ensures
        run(prog, m, input, fuel) == exec(prog.subrange(m.pc, e), m, input),
    decreases e - m.pc,
{
    let s = prog.subrange(m.pc, e);
    if m.pc == e {
        assert(s.len() == 0);
    } else {
        assert(straight_op(s[0]));
        assert(s[0] == prog[m.pc]);
        let one = seq![s[0]];
        let m0 = Machine { pc: 0, ..m };
        let byte = if reads_input(one, m0) && input.len() > 0 { Some(input[0]) } else { None };
        let rest = if reads_input(one, m0) && input.len() > 0 { input.drop_first() } else { input };
        let m1 = next(prog, m, byte);
        assert(m1 == Machine { pc: m.pc + 1, ..next(one, m0, byte) });
        assert(prog.subrange(m.pc + 1, e) =~= s.drop_first());
        assert forall|i: int| 0 <= i < s.drop_first().len() implies straight_op(#[trigger] s.drop_first()[i]) by {
            assert(s.drop_first()[i] == s[i + 1]);
        }
        lemma_run_straight(prog, m1, rest, (fuel - 1) as nat, e);
    }
}

/// A cell value after a pending effect.
pub open spec fn effect_val(e: BlockEffect, x: u8) -> u8 {
    match e {
        BlockEffect::Add(a) => add_wrapping(x, a as int),
        BlockEffect::Store(v) => v,
    }
}

/// A tape after the pending effects, with offsets taken from `base`, in order.
pub open spec fn apply(tape: Seq<u8>, base: int, p: Seq<(isize, BlockEffect)>) -> Seq<u8>
    decreases p.len(),
{
    if p.len() == 0 {
        tape
    } else {
        let t = apply(tape, base, p.drop_last());
        let c = cell_at(base, p.last().0 as int);
        t.update(c, effect_val(p.last().1, t[c]))
    }
}

proof fn lemma_cell_in_range(base: int, k: int)
    ensures
        0 <= cell_at(base, k) < TAPE_LEN,
{
    vstd::arithmetic::div_mod::lemma_mod_bound(base + k, TAPE_LEN as int);
}

proof fn lemma_exec_effect(e: (isize, BlockEffect), m: Machine, input: Seq<u8>)
    requires
        m.tape.len() == TAPE_LEN,
    ensures
        ({
            let c = cell_at(m.ptr, e.0 as int);
            exec(effect_ops(e), m, input) == Run {
                m: Machine {
                    pc: m.pc + effect_ops(e).len(),
                    tape: m.tape.update(c, effect_val(e.1, m.tape[c])),
                    ..m
                },
                input,
                output: Seq::empty(),
            }
        }),
{
    let c = cell_at(m.ptr, e.0 as int);
    lemma_cell_in_range(m.ptr, e.0 as int);
    let ops = effect_ops(e);
    match e.1 {
        BlockEffect::Add(a) => {
            if a == 0 {
                let x = m.tape[c];
                vstd::arithmetic::div_mod::lemma_small_mod(x as nat, 256);
                assert(add_wrapping(x, 0) == x);
                assert(m.tape.update(c, x) =~= m.tape);
                assert(ops.len() == 0);
                assert(exec(ops, m, input) == Run { m, input, output: Seq::<u8>::empty() });
                assert(Machine { pc: m.pc + 0, tape: m.tape.update(c, x), ..m } == m);
                assert(exec(effect_ops(e), m, input) == Run {
                    m: Machine {
                        pc: m.pc + effect_ops(e).len(),
                        tape: m.tape.update(c, effect_val(e.1, m.tape[c])),
                        ..m
                    },
                    input,
                    output: Seq::<u8>::empty(),
                });
            } else {
                assert(ops == seq![Opcode::Increment(e.0, a as isize)]);
                assert(ops.drop_first().len() == 0);
                assert((a as isize) as int == a as int);
                let one = seq![ops[0]];
                let m0 = Machine { pc: 0, ..m };
                assert(!reads_input(one, m0));
                assert(emitted(one, m0) is None);
                let m1 = next(one, m0, None);
                assert(m1.tape == m.tape.update(c, add_wrapping(m.tape[c], a as int)));
                assert(m1.ptr == m.ptr);
                assert(exec(ops, m, input) == exec(ops.drop_first(), Machine { pc: m.pc + 1, ..m1 }, input));
                assert(exec(ops, m, input).m == Machine { pc: m.pc + 1, ..m1 });
                assert(exec(ops, m, input).output == Seq::<u8>::empty());
                assert(exec(ops, m, input).input == input);
                assert(exec(effect_ops(e), m, input) == Run {
                    m: Machine {
                        pc: m.pc + effect_ops(e).len(),
                        tape: m.tape.update(c, effect_val(e.1, m.tape[c])),
                        ..m
                    },
                    input,
                    output: Seq::<u8>::empty(),
                });
            }
        },
        BlockEffect::Store(v) => {
            assert(ops == seq![Opcode::SetCell(e.0, v)]);
            assert(ops.drop_first().len() == 0);
            let one = seq![ops[0]];
            let m0 = Machine { pc: 0, ..m };
            assert(!reads_input(one, m0));
            assert(emitted(one, m0) is None);
            let m1 = next(one, m0, None);
            assert(m1.tape == m.tape.update(c, v));
            assert(exec(ops, m, input) == exec(ops.drop_first(), Machine { pc: m.pc + 1, ..m1 }, input));
            assert(exec(effect_ops(e), m, input) == Run {
                m: Machine {
                    pc: m.pc + effect_ops(e).len(),
                    tape: m.tape.update(c, effect_val(e.1, m.tape[c])),
                    ..m
                },
                input,
                output: Seq::<u8>::empty(),
            });
        },
    }
}

/// Executing the flush of pending effects applies them to the tape and
/// changes nothing else.
proof fn lemma_exec_effects(p: Seq<(isize, BlockEffect)>, m: Machine, input: Seq<u8>)
    requires
        m.tape.len() == TAPE_LEN,
    ensures
        exec(effects_ops(p), m, input) == (Run {
            m: Machine { pc: m.pc + effects_ops(p).len(), tape: apply(m.tape, m.ptr, p), ..m },
            input,
            output: Seq::empty(),
        }),
        apply(m.tape, m.ptr, p).len() == TAPE_LEN,
    decreases p.len(),
{
    if p.len() > 0 {
        let q = p.drop_last();
        lemma_exec_effects(q, m, input);
        lemma_exec_append(effects_ops(q), effect_ops(p.last()), m, input);
        let r1 = exec(effects_ops(q), m, input);
        lemma_exec_effect(p.last(), r1.m, input);
        lemma_cell_in_range(m.ptr, p.last().0 as int);
        assert(Seq::<u8>::empty() + Seq::<u8>::empty() =~= Seq::<u8>::empty());
    }
}

proof fn lemma_cells_distinct(base: int, k1: int, k2: int)
    requires
        small(k1),
        small(k2),
        k1 != k2,
    ensures
        cell_at(base, k1) != cell_at(base, k2),
{
    let t = TAPE_LEN as int;
    vstd::arithmetic::div_mod::lemma_mod_equivalence(base + k1, base + k2, t);
    let d = (base + k1) - (base + k2);
    if d > 0 {
        vstd::arithmetic::div_mod::lemma_small_mod(d as nat, t as nat);
    } else {
        vstd::arithmetic::div_mod::lemma_mod_add_multiples_vanish(d, t);
        vstd::arithmetic::div_mod::lemma_small_mod((d + t) as nat, t as nat);
    }
}

/// Pending effects with distinct reduced offsets touch distinct cells, each
/// by its own effect, and leave every other cell alone.
proof fn lemma_apply_at(tape: Seq<u8>, base: int, p: Seq<(isize, BlockEffect)>)
    requires
        tape.len() == TAPE_LEN,
        unique_keys(p),
        small_keys(p),
    ensures
        apply(tape, base, p).len() == TAPE_LEN,
        forall|j: int|
            0 <= j < p.len() ==> apply(tape, base, p)[cell_at(base, #[trigger] p[j].0 as int)]
                == effect_val(p[j].1, tape[cell_at(base, p[j].0 as int)]),
        forall|c: int|
            0 <= c < TAPE_LEN && (forall|j: int| 0 <= j < p.len() ==> cell_at(base, #[trigger] p[j].0 as int) != c)
                ==> #[trigger] apply(tape, base, p)[c] == tape[c],
    decreases p.len(),
{
    if p.len() > 0 {
        let q = p.drop_last();
        let n = p.len() - 1;
        assert forall|j: int| 0 <= j < q.len() implies #[trigger] q[j] == p[j] by {}
        assert(unique_keys(q)) by {
            assert forall|a: int, b: int| 0 <= a < q.len() && 0 <= b < q.len() && a != b implies #[trigger] q[a].0 != #[trigger] q[b].0 by {
                assert(p[a].0 != p[b].0);
            }
        }
        assert(small_keys(q)) by {
            assert forall|a: int| 0 <= a < q.len() implies small(#[trigger] q[a].0 as int) by {
                assert(small(p[a].0 as int));
            }
        }
        lemma_apply_at(tape, base, q);
        let cl = cell_at(base, p[n].0 as int);
        lemma_cell_in_range(base, p[n].0 as int);
        assert forall|j: int| 0 <= j < q.len() implies cell_at(base, #[trigger] q[j].0 as int) != cl by {
            assert(p[j].0 != p[n].0);
            lemma_cells_distinct(base, p[j].0 as int, p[n].0 as int);
        }
        assert(apply(tape, base, q)[cl] == tape[cl]);
        assert forall|j: int| 0 <= j < p.len() implies apply(tape, base, p)[cell_at(base, #[trigger] p[j].0 as int)]
            == effect_val(p[j].1, tape[cell_at(base, p[j].0 as int)]) by {
            if j < n {
                assert(q[j] == p[j]);
                lemma_cell_in_range(base, p[j].0 as int);
            }
        }
        assert forall|c: int|
            0 <= c < TAPE_LEN && (forall|j: int| 0 <= j < p.len() ==> cell_at(base, #[trigger] p[j].0 as int) != c)
            implies #[trigger] apply(tape, base, p)[c] == tape[c] by {
            assert(cell_at(base, p[n].0 as int) != c);
            assert forall|j: int| 0 <= j < q.len() implies cell_at(base, #[trigger] q[j].0 as int) != c by {
                assert(q[j] == p[j]);
            }
        }
    }
}

/// The cell is touched by no pending effect.
pub open spec fn untouched(p: Seq<(isize, BlockEffect)>, base: int, c: int) -> bool {
    forall|j: int| 0 <= j < p.len() ==> cell_at(base, #[trigger] p[j].0 as int) != c
}

proof fn lemma_keys_sub(p: Seq<(isize, BlockEffect)>, q: Seq<(isize, BlockEffect)>)
    requires
        unique_keys(p),
        small_keys(p),
        q.len() == p.len(),
        forall|j: int| 0 <= j < p.len() ==> #[trigger] q[j].0 == p[j].0,
    ensures
        unique_keys(q),
        small_keys(q),
{
    assert forall|a: int, b: int| 0 <= a < q.len() && 0 <= b < q.len() && a != b implies #[trigger] q[a].0 != #[trigger] q[b].0 by {
        assert(p[a].0 != p[b].0);
    }
    assert forall|a: int| 0 <= a < q.len() implies small(#[trigger] q[a].0 as int) by {
        assert(small(p[a].0 as int));
    }
}

/// Changing one pending effect changes its cell only.
proof fn lemma_apply_update(tape: Seq<u8>, base: int, p: Seq<(isize, BlockEffect)>, j: int, e: BlockEffect)
    requires
        tape.len() == TAPE_LEN,
        unique_keys(p),
        small_keys(p),
        0 <= j < p.len(),
    ensures
        ({
            let c = cell_at(base, p[j].0 as int);
            apply(tape, base, p.update(j, (p[j].0, e))) == apply(tape, base, p).update(c, effect_val(e, tape[c]))
        }),
{
    let q = p.update(j, (p[j].0, e));
    let c = cell_at(base, p[j].0 as int);
    lemma_keys_sub(p, q);
    lemma_apply_at(tape, base, p);
    lemma_apply_at(tape, base, q);
    lemma_cell_in_range(base, p[j].0 as int);
    let a = apply(tape, base, q);
    let b = apply(tape, base, p).update(c, effect_val(e, tape[c]));
    assert forall|x: int| 0 <= x < TAPE_LEN implies a[x] == b[x] by {
        if x != c {
            if exists|i: int| 0 <= i < p.len() && cell_at(base, p[i].0 as int) == x {
                let i = choose|i: int| 0 <= i < p.len() && cell_at(base, p[i].0 as int) == x;
                assert(i != j);
                assert(q[i] == p[i]);
                assert(a[cell_at(base, q[i].0 as int)] == effect_val(q[i].1, tape[x]));
                assert(apply(tape, base, p)[cell_at(base, p[i].0 as int)] == effect_val(p[i].1, tape[x]));
            } else {
                assert(untouched(p, base, x));
                assert forall|m: int| 0 <= m < q.len() implies cell_at(base, #[trigger] q[m].0 as int) != x by {
                    assert(q[m].0 == p[m].0);
                }
            }
        } else {
            assert(q[j].1 == e);
            assert(q[j].0 == p[j].0);
            assert(a[cell_at(base, q[j].0 as int)] == effect_val(q[j].1, tape[c]));
        }
    }
    assert(a =~= b);
}

/// Flushing one pending effect into the tape and dropping it changes nothing.
proof fn lemma_apply_flush(tape: Seq<u8>, base: int, p: Seq<(isize, BlockEffect)>, j: int)
    requires
        tape.len() == TAPE_LEN,
        unique_keys(p),
        small_keys(p),
        0 <= j < p.len(),
    ensures
        ({
            let c = cell_at(base, p[j].0 as int);
            &&& apply(tape.update(c, effect_val(p[j].1, tape[c])), base, p.remove(j)) == apply(tape, base, p)
            &&& untouched(p.remove(j), base, c)
        }),
{
    let q = p.remove(j);
    let c = cell_at(base, p[j].0 as int);
    let t2 = tape.update(c, effect_val(p[j].1, tape[c]));
    lemma_remove_keys(p, j);
    lemma_apply_at(tape, base, p);
    lemma_apply_at(t2, base, q);
    lemma_cell_in_range(base, p[j].0 as int);
    assert forall|m: int| 0 <= m < q.len() implies #[trigger] q[m] == p[if m < j { m } else { m + 1 }] by {}
    assert(untouched(q, base, c)) by {
        assert forall|m: int| 0 <= m < q.len() implies cell_at(base, #[trigger] q[m].0 as int) != c by {
            let m1 = if m < j { m } else { m + 1 };
            assert(p[m1].0 != p[j].0);
            lemma_cells_distinct(base, p[m1].0 as int, p[j].0 as int);
        }
    }
    let a = apply(t2, base, q);
    let b = apply(tape, base, p);
    assert forall|x: int| 0 <= x < TAPE_LEN implies a[x] == b[x] by {
        if x != c {
            if exists|i: int| 0 <= i < p.len() && cell_at(base, p[i].0 as int) == x {
                let i = choose|i: int| 0 <= i < p.len() && cell_at(base, p[i].0 as int) == x;
                assert(i != j);
                let i1 = if i < j { i } else { i - 1 };
                assert(q[i1] == p[i]);
            } else {
                assert forall|m: int| 0 <= m < q.len() implies cell_at(base, #[trigger] q[m].0 as int) != x by {
                    let m1 = if m < j { m } else { m + 1 };
                    assert(q[m] == p[m1]);
                }
            }
        }
    }
    assert(a =~= b);
}

/// Writing a cell that no pending effect touches commutes with the effects.
proof fn lemma_apply_fresh(tape: Seq<u8>, base: int, p: Seq<(isize, BlockEffect)>, c: int, v: u8)
    requires
        tape.len() == TAPE_LEN,
        unique_keys(p),
        small_keys(p),
        0 <= c < TAPE_LEN,
        untouched(p, base, c),
    ensures
        apply(tape.update(c, v), base, p) == apply(tape, base, p).update(c, v),
        apply(tape, base, p)[c] == tape[c],
{
    let t2 = tape.update(c, v);
    lemma_apply_at(tape, base, p);
    lemma_apply_at(t2, base, p);
    let a = apply(t2, base, p);
    let b = apply(tape, base, p).update(c, v);
    assert forall|x: int| 0 <= x < TAPE_LEN implies a[x] == b[x] by {
        if x != c {
            if exists|i: int| 0 <= i < p.len() && cell_at(base, p[i].0 as int) == x {
                let i = choose|i: int| 0 <= i < p.len() && cell_at(base, p[i].0 as int) == x;
                lemma_cell_in_range(base, p[i].0 as int);
            } else {
                assert(untouched(p, base, x));
            }
        }
    }
    assert(a =~= b);
}

/// The unoptimized run `u` and the optimized run `o` agree, once the pending
/// effects `p` and the pending pointer move `ptr` are applied to `o`.
pub open spec fn related(u: Run, o: Run, p: Seq<(isize, BlockEffect)>, ptr: int) -> bool {
    &&& u.input == o.input
    &&& u.output == o.output
    &&& 0 <= o.m.ptr < TAPE_LEN
    &&& o.m.tape.len() == TAPE_LEN
    &&& u.m.ptr == cell_at(o.m.ptr, ptr)
    &&& u.m.tape == apply(o.m.tape, o.m.ptr, p)
}

/// A lowered program without loops: straight-line instructions, then the end marker.
pub open spec fn loop_free(ops: Seq<Opcode>) -> bool {
    &&& lowered(ops)
    &&& ops.len() >= 1
    &&& ops.last() is Eof
    &&& forall|k: int| 0 <= k < ops.len() - 1 ==> straight_op(#[trigger] ops[k])
}

proof fn lemma_exec_one(op: Opcode, m: Machine, input: Seq<u8>)
    ensures
        ({
            let one = seq![op];
            let m0 = Machine { pc: 0, ..m };
            let byte = if reads_input(one, m0) && input.len() > 0 { Some(input[0]) } else { None };
            let rest = if reads_input(one, m0) && input.len() > 0 { input.drop_first() } else { input };
            let m1 = next(one, m0, byte);
            exec(one, m, input) == Run {
                m: Machine { pc: m.pc + 1, ..m1 },
                input: rest,
                output: match emitted(one, m0) {
                    Some(b) => seq![b],
                    None => Seq::empty(),
                },
            }
        }),
{
    let one = seq![op];
    assert(one[0] == op);
    assert(one.drop_first().len() == 0);
    let m0 = Machine { pc: 0, ..m };
    let byte = if reads_input(one, m0) && input.len() > 0 { Some(input[0]) } else { None };
    let rest = if reads_input(one, m0) && input.len() > 0 { input.drop_first() } else { input };
    let m1 = next(one, m0, byte);
    let mm = Machine { pc: m.pc + 1, ..m1 };
    assert(exec(one.drop_first(), mm, rest) == Run { m: mm, input: rest, output: Seq::<u8>::empty() });
    match emitted(one, m0) {
        Some(b) => {
            assert(seq![b] + Seq::<u8>::empty() =~= seq![b]);
        },
        None => {},
    }
}

proof fn lemma_small_cell(q: int)
    requires
        0 <= q < TAPE_LEN,
    ensures
        cell_at(q, 0) == q,
{
    vstd::arithmetic::div_mod::lemma_small_mod(q as nat, TAPE_LEN as nat);
}

proof fn lemma_cell_move(b: int, x: int, d: int)
    requires
        small(x),
        -1 <= d <= 1,
    ensures
        cell_at(cell_at(b, x), d) == cell_at(b, norm(x + d)),
{
    let t = TAPE_LEN as int;
    vstd::arithmetic::div_mod::lemma_add_mod_noop_right(d, b + x, t);
    assert((b + x) % t + d == d + (b + x) % t);
    assert(d + (b + x) == b + x + d);
    if x + d >= crate::optimizer::HALF_TAPE as int {
        vstd::arithmetic::div_mod::lemma_mod_add_multiples_vanish(b + norm(x + d), t);
    } else if x + d < -(crate::optimizer::HALF_TAPE as int) {
        vstd::arithmetic::div_mod::lemma_mod_add_multiples_vanish(b + x + d, t);
    }
}

proof fn lemma_byte_arith(x: u8, a: int, d: int)
    ensures
        add_wrapping(x, wrap_u8(d) as int) == add_wrapping(x, d),
        add_wrapping(x, wrap_u8(a + d) as int) == add_wrapping(add_wrapping(x, a), d),
        wrap_u8(x + d) == add_wrapping(x, d),
{
    vstd::arithmetic::div_mod::lemma_mod_bound(d, 256);
    vstd::arithmetic::div_mod::lemma_mod_bound(a + d, 256);
    vstd::arithmetic::div_mod::lemma_mod_bound(x + a, 256);
    assert(wrap_u8(d) as int == d % 256);
    assert(wrap_u8(a + d) as int == (a + d) % 256);
    assert(add_wrapping(x, a) as int == (x + a) % 256);
    vstd::arithmetic::div_mod::lemma_add_mod_noop_right(x as int, d, 256);
    vstd::arithmetic::div_mod::lemma_add_mod_noop_right(x as int, a + d, 256);
    vstd::arithmetic::div_mod::lemma_add_mod_noop_right(d, x + a, 256);
    assert(d + (x + a) % 256 == (x + a) % 256 + d);
    assert(d + (x + a) == x + (a + d));
}

proof fn lemma_straight_append(a: Seq<Opcode>, b: Seq<Opcode>)
    requires
        straight(a),
        straight(b),
    ensures
        straight(a + b),
{
    assert forall|i: int| 0 <= i < (a + b).len() implies straight_op(#[trigger] (a + b)[i]) by {
        if i >= a.len() {
            assert((a + b)[i] == b[i - a.len()]);
        } else {
            assert((a + b)[i] == a[i]);
        }
    }
}

proof fn lemma_commit_straight(p: Seq<(isize, BlockEffect)>, ptr: isize)
    ensures
        straight(effects_ops(p)),
        straight(commit_ops(p, ptr)),
        forall|j: int| 0 <= j < p.len() ==> straight(#[trigger] effect_ops(p[j])),
    decreases p.len(),
{
    assert forall|j: int| 0 <= j < p.len() implies straight(#[trigger] effect_ops(p[j])) by {
        let x = effect_ops(p[j]);
        assert forall|k: int| 0 <= k < x.len() implies straight_op(#[trigger] x[k]) by {}
    }
    if p.len() > 0 {
        lemma_commit_straight(p.drop_last(), ptr);
        assert(straight(effect_ops(p.last())));
        lemma_straight_append(effects_ops(p.drop_last()), effect_ops(p.last()));
    }
    if ptr != 0 {
        assert(straight(seq![Opcode::MovePointer(ptr)]));
        assert(commit_ops(p, ptr) == effects_ops(p) + seq![Opcode::MovePointer(ptr)]);
        lemma_straight_append(effects_ops(p), seq![Opcode::MovePointer(ptr)]);
    }
}

proof fn lemma_sim(
    ops: Seq<Opcode>,
    i: int,
    p: Seq<(isize, BlockEffect)>,
    ptr: isize,
    out: Seq<Opcode>,
    s0: Machine,
    input0: Seq<u8>,
)
    requires
        loop_free(ops),
        0 <= i < ops.len(),
        unique_keys(p),
        small_keys(p),
        small(ptr as int),
        straight(out),
        related(exec(ops.subrange(0, i), s0, input0), exec(out, s0, input0), p, ptr as int),
    ensures
        ({
            let r = opt_from(ops, i, p, ptr, out);
            let e = ops.len() - 1;
            &&& r.len() >= 1
            &&& r.last() is Eof
            &&& straight(r.drop_last())
            &&& related(
                exec(ops.subrange(0, e), s0, input0),
                exec(r.drop_last(), s0, input0),
                Seq::empty(),
                0,
            )
        }),
    decreases ops.len() - i,
{
    let e = ops.len() - 1;
    let u = exec(ops.subrange(0, i), s0, input0);
    let o = exec(out, s0, input0);
    lemma_apply_at(o.m.tape, o.m.ptr, p);
    lemma_cell_in_range(o.m.ptr, ptr as int);
    let cs = cell_at(o.m.ptr, ptr as int);
    lemma_small_cell(cs);
    assert(norm(ptr + 0) == ptr);
    if i == e {
        assert(ops[i] is Eof);
        assert(!is_clear_loop(ops, i));
        assert(!is_scan_loop(ops, i));
        let c = commit_ops(p, ptr);
        let committed = out + c;
        let r = committed.push(Opcode::Eof);
        assert(opt_from(ops, i + 1, Seq::empty(), 0, r) == r);
        assert(opt_from(ops, i, p, ptr, out) == r);
        assert(r.drop_last() =~= committed);
        lemma_commit_straight(p, ptr);
        lemma_straight_append(out, c);
        lemma_exec_append(out, c, s0, input0);
        lemma_exec_effects(p, o.m, o.input);
        let oe = exec(effects_ops(p), o.m, o.input);
        assert(o.output + Seq::<u8>::empty() =~= o.output);
        if ptr == 0 {
            assert(c == effects_ops(p));
            lemma_small_cell(o.m.ptr);
        } else {
            assert(c == effects_ops(p) + seq![Opcode::MovePointer(ptr)]);
            lemma_exec_append(effects_ops(p), seq![Opcode::MovePointer(ptr)], o.m, o.input);
            lemma_exec_one(Opcode::MovePointer(ptr), oe.m, oe.input);
            assert(Seq::<u8>::empty() + Seq::<u8>::empty() =~= Seq::<u8>::empty());
            lemma_small_cell(cs);
        }
        let f = exec(committed, s0, input0);
        assert(apply(f.m.tape, f.m.ptr, Seq::empty()) == f.m.tape);
    } else {
        let op = ops[i];
        assert(straight_op(op));
        assert(lowered_op(op));
        assert(ops.subrange(0, i + 1) =~= ops.subrange(0, i) + seq![op]);
        lemma_exec_append(ops.subrange(0, i), seq![op], s0, input0);
        lemma_exec_one(op, u.m, u.input);
        assert(u.m.ptr == cs);
        let u1 = exec(ops.subrange(0, i + 1), s0, input0);
        match op {
            Opcode::Increment(off, d) => {
                assert(off == 0);
                lemma_merge_keys(p, ptr, d as int);
                let p1 = merge_add(p, ptr, d as int);
                assert(u1.m.tape == u.m.tape.update(cs, add_wrapping(u.m.tape[cs], d as int)));
                assert(u1.output =~= u.output);
                let j = key_index(p, ptr);
                if j < 0 {
                    assert(p1.drop_last() == p);
                    lemma_byte_arith(u.m.tape[cs], 0, d as int);
                } else {
                    assert(p[j].0 == ptr);
                    let x = o.m.tape[cs];
                    assert(u.m.tape[cs] == effect_val(p[j].1, x));
                    match p[j].1 {
                        BlockEffect::Add(a) => {
                            lemma_byte_arith(x, a as int, d as int);
                            lemma_apply_update(o.m.tape, o.m.ptr, p, j, BlockEffect::Add(wrap_u8(a + d)));
                        },
                        BlockEffect::Store(v) => {
                            lemma_byte_arith(v, 0, d as int);
                            lemma_apply_update(o.m.tape, o.m.ptr, p, j, BlockEffect::Store(wrap_u8(v + d)));
                        },
                    }
                }
                lemma_sim(ops, i + 1, p1, ptr, out, s0, input0);
            },
            Opcode::MovePointer(d) => {
                lemma_cell_move(o.m.ptr, ptr as int, d as int);
                assert(u1.m.tape == u.m.tape);
                assert(u1.output =~= u.output);
                let ptr1 = norm(ptr + d) as isize;
                lemma_sim(ops, i + 1, p, ptr1, out, s0, input0);
            },
            Opcode::Output(off) => {
                assert(off == 0);
                assert(u1.m.tape == u.m.tape);
                assert(u1.output =~= u.output + seq![u.m.tape[cs]]);
                let j = key_index(p, ptr);
                if j < 0 {
                    let out1 = out.push(Opcode::Output(ptr));
                    assert(out1 == out + seq![Opcode::Output(ptr)]);
                    lemma_straight_append(out, seq![Opcode::Output(ptr)]);
                    lemma_exec_append(out, seq![Opcode::Output(ptr)], s0, input0);
                    lemma_exec_one(Opcode::Output(ptr), o.m, o.input);
                    assert(untouched(p, o.m.ptr, cs)) by {
                        assert forall|m: int| 0 <= m < p.len() implies cell_at(o.m.ptr, #[trigger] p[m].0 as int) != cs by {
                            assert(p[m].0 != ptr);
                            lemma_cells_distinct(o.m.ptr, p[m].0 as int, ptr as int);
                        }
                    }
                    lemma_sim(ops, i + 1, p, ptr, out1, s0, input0);
                } else {
                    assert(p[j].0 == ptr);
                    lemma_remove_keys(p, j);
                    let ef = effect_ops(p[j]);
                    let out0 = out + ef;
                    let out1 = out0.push(Opcode::Output(ptr));
                    assert(out1 == out0 + seq![Opcode::Output(ptr)]);
                    lemma_commit_straight(p, ptr);
                    lemma_straight_append(out, ef);
                    lemma_straight_append(out0, seq![Opcode::Output(ptr)]);
                    lemma_exec_append(out, ef, s0, input0);
                    lemma_exec_effect(p[j], o.m, o.input);
                    let o0 = exec(out0, s0, input0);
                    lemma_exec_append(out0, seq![Opcode::Output(ptr)], s0, input0);
                    lemma_exec_one(Opcode::Output(ptr), o0.m, o0.input);
                    lemma_apply_flush(o.m.tape, o.m.ptr, p, j);
                    assert(o.output + Seq::<u8>::empty() =~= o.output);
                    lemma_sim(ops, i + 1, p.remove(j), ptr, out1, s0, input0);
                }
            },
            Opcode::Input(off) => {
                assert(off == 0);
                assert(u1.output =~= u.output);
                let j = key_index(p, ptr);
                if j < 0 {
                    let out1 = out.push(Opcode::Input(ptr));
                    assert(out1 == out + seq![Opcode::Input(ptr)]);
                    lemma_straight_append(out, seq![Opcode::Input(ptr)]);
                    lemma_exec_append(out, seq![Opcode::Input(ptr)], s0, input0);
                    lemma_exec_one(Opcode::Input(ptr), o.m, o.input);
                    assert(untouched(p, o.m.ptr, cs)) by {
                        assert forall|m: int| 0 <= m < p.len() implies cell_at(o.m.ptr, #[trigger] p[m].0 as int) != cs by {
                            assert(p[m].0 != ptr);
                            lemma_cells_distinct(o.m.ptr, p[m].0 as int, ptr as int);
                        }
                    }
                    if o.input.len() > 0 {
                        lemma_apply_fresh(o.m.tape, o.m.ptr, p, cs, o.input[0]);
                    }
                    assert(o.output + Seq::<u8>::empty() =~= o.output);
                    lemma_sim(ops, i + 1, p, ptr, out1, s0, input0);
                } else {
                    assert(p[j].0 == ptr);
                    lemma_remove_keys(p, j);
                    let ef = effect_ops(p[j]);
                    let out0 = out + ef;
                    let out1 = out0.push(Opcode::Input(ptr));
                    assert(out1 == out0 + seq![Opcode::Input(ptr)]);
                    lemma_commit_straight(p, ptr);
                    lemma_straight_append(out, ef);
                    lemma_straight_append(out0, seq![Opcode::Input(ptr)]);
                    lemma_exec_append(out, ef, s0, input0);
                    lemma_exec_effect(p[j], o.m, o.input);
                    let o0 = exec(out0, s0, input0);
                    lemma_exec_append(out0, seq![Opcode::Input(ptr)], s0, input0);
                    lemma_exec_one(Opcode::Input(ptr), o0.m, o0.input);
                    lemma_apply_flush(o.m.tape, o.m.ptr, p, j);
                    if o.input.len() > 0 {
                        let b = o.input[0];
                        lemma_apply_fresh(o0.m.tape, o.m.ptr, p.remove(j), cs, b);
                        assert(o0.m.tape.update(cs, b) =~= o.m.tape.update(cs, b));
                    }
                    assert(o.output + Seq::<u8>::empty() + Seq::<u8>::empty() =~= o.output);
                    lemma_sim(ops, i + 1, p.remove(j), ptr, out1, s0, input0);
                }
            },
            _ => {},
        }
    }
}

proof fn lemma_exec_pc(ops: Seq<Opcode>, m: Machine, input: Seq<u8>)
    ensures
        exec(ops, m, input).m.pc == m.pc + ops.len(),
    decreases ops.len(),
{
    if ops.len() > 0 {
        let one = seq![ops[0]];
        let m0 = Machine { pc: 0, ..m };
        let byte = if reads_input(one, m0) && input.len() > 0 { Some(input[0]) } else { None };
        let rest = if reads_input(one, m0) && input.len() > 0 { input.drop_first() } else { input };
        let m1 = next(one, m0, byte);
        lemma_exec_pc(ops.drop_first(), Machine { pc: m.pc + 1, ..m1 }, rest);
    }
}

/// Running a loop-free program to its end marker is executing its body.
proof fn lemma_run_loop_free(ops: Seq<Opcode>, m: Machine, input: Seq<u8>)
    requires
        ops.len() >= 1,
        ops.last() is Eof,
        straight(ops.drop_last()),
        m.pc == 0,
    ensures
        run(ops, m, input, ops.len() as nat) == exec(ops.drop_last(), m, input),
        halted(ops, exec(ops.drop_last(), m, input).m),
{
    let e = ops.len() - 1;
    assert(ops.subrange(0, e) =~= ops.drop_last());
    lemma_run_straight(ops, m, input, ops.len() as nat, e);
    lemma_exec_pc(ops.drop_last(), m, input);
}

/// For a text without loop boundaries, the optimized program behaves as the
/// unoptimized one: from any state whose pointer lies on the tape and on any
/// input, both halt, writing the same bytes, leaving the same input unread,
/// and leaving the same tape and pointer.
pub proof fn lemma_loop_free_transparent(code: Seq<char>, st: BrainfuckState, input: Seq<u8>)
    requires
        forall|k: int|
            0 <= k < tokens_of(code).len() ==> #[trigger] tokens_of(code)[k] != Token::LoopStart
                && tokens_of(code)[k] != Token::LoopEnd,
        st.pointer < TAPE_LEN,
    ensures
        ({
            let l = compiled_unoptimized(code);
            let o = compiled(code);
            let m0 = machine_of(0, st);
            let ru = run(l, m0, input, l.len() as nat);
            let ro = run(o, m0, input, o.len() as nat);
            &&& halted(l, ru.m)
            &&& halted(o, ro.m)
            &&& ru.output == ro.output
            &&& ru.input == ro.input
            &&& ru.m.tape == ro.m.tape
            &&& ru.m.ptr == ro.m.ptr
        }),
{
    let t = tokens_of(code);
    let s = parsed(code);
    let n = t.len() as int;
    assert forall|k: int| 0 <= k < n implies #[trigger] s[k] == lower(t[k]) by {}
    assert forall|k: int| 0 <= k < s.len() implies !is_loop_start(#[trigger] s[k]) && !is_loop_end(s[k]) by {
        if k < n {
            assert(s[k] == lower(t[k]));
        }
    }
    lemma_linked_plain(s);
    assert(same_shape(parsed(code), s)) by {
        assert forall|i: int| 0 <= i < s.len() implies {
            ||| #[trigger] s[i] == s[i]
            ||| (is_loop_start(s[i]) && is_loop_start(s[i]))
            ||| (is_loop_end(s[i]) && is_loop_end(s[i]))
        } by {}
    }
    lemma_parsed_lowered(code, s);
    assert forall|k: int| 0 <= k < s.len() - 1 implies straight_op(#[trigger] s[k]) by {
        assert(s[k] == lower(t[k]));
    }
    assert(loop_free(s));
    let m0 = machine_of(0, st);
    assert(m0.tape.len() == TAPE_LEN);
    lemma_small_cell(m0.ptr);
    assert(s.subrange(0, 0) =~= Seq::<Opcode>::empty());
    assert(apply(m0.tape, m0.ptr, Seq::empty()) == m0.tape);
    lemma_sim(s, 0, Seq::empty(), 0, Seq::empty(), m0, input);
    let r = crate::optimizer::optimized(s);
    assert forall|k: int| 0 <= k < r.len() implies !is_loop_start(#[trigger] r[k]) && !is_loop_end(r[k]) by {
        if k < r.len() - 1 {
            assert(r.drop_last()[k] == r[k]);
            assert(straight_op(r.drop_last()[k]));
        }
    }
    lemma_linked_plain(r);
    assert forall|k: int| 0 <= k < s.drop_last().len() implies straight_op(#[trigger] s.drop_last()[k]) by {
        assert(s.drop_last()[k] == s[k]);
    }
    assert(s.subrange(0, s.len() - 1) =~= s.drop_last());
    lemma_run_loop_free(s, m0, input);
    lemma_run_loop_free(r, m0, input);
    let ro = exec(r.drop_last(), m0, input);
    lemma_small_cell(ro.m.ptr);
    assert(apply(ro.m.tape, ro.m.ptr, Seq::empty()) == ro.m.tape);
}

} // verus!
