//! The peephole optimizer: a single forward scan that merges cell and pointer
//! updates between commit points and rewrites two loop idioms.
use vstd::prelude::*;
use crate::program::Opcode;
use crate::linker::{depth, balanced, is_linked, boundary_linked, is_loop_start, is_loop_end, has_unexpected_end};
use crate::state::TAPE_LEN;
use vstd::arithmetic::div_mod::lemma_add_mod_noop;

verus! {

/// A cell update that has been seen but not yet emitted.
#[derive(Clone, Copy, Debug, PartialEq, Eq, Structural)]
pub enum BlockEffect {
    /// Add a value, modulo 256.
    Add(u8),
    /// Store a value.
    Store(u8),
}

/// Half the tape length: reduced offsets lie in `[-HALF_TAPE, HALF_TAPE)`.
pub const HALF_TAPE: usize = 0x8000;

/// An offset reduced to its representative in `[-HALF_TAPE, HALF_TAPE)`, for
/// offsets at most one tape length outside that range. Addresses are taken
/// modulo the tape length, so this keeps their meaning, and two reduced
/// offsets name the same cell only when they are equal.
pub open spec fn norm(x: int) -> int {
    if x >= HALF_TAPE as int {
        x - TAPE_LEN as int
    } else if x < -(HALF_TAPE as int) {
        x + TAPE_LEN as int
    } else {
        x
    }
}

/// The offset is reduced.
pub open spec fn small(x: int) -> bool {
    -(HALF_TAPE as int) <= x < HALF_TAPE as int
}

/// The instructions that lowering produces: unit steps and deltas, zero offsets.
pub open spec fn lowered_op(op: Opcode) -> bool {
    match op {
        Opcode::Increment(o, d) => o == 0 && (d == 1 || d == -1),
        Opcode::MovePointer(d) => d == 1 || d == -1,
        Opcode::Output(o) => o == 0,
        Opcode::Input(o) => o == 0,
        Opcode::SetCell(_, _) => false,
        Opcode::ScanZero(_) => false,
        _ => true,
    }
}

/// Every instruction is one that lowering produces.
pub open spec fn lowered(s: Seq<Opcode>) -> bool {
    forall|i: int| 0 <= i < s.len() ==> lowered_op(#[trigger] s[i])
}

/// The pending effects name each offset at most once.
pub open spec fn unique_keys(p: Seq<(isize, BlockEffect)>) -> bool {
    forall|i: int, j: int| 0 <= i < p.len() && 0 <= j < p.len() && i != j ==> #[trigger] p[i].0 != #[trigger] p[j].0
}

/// The pending effects have reduced offsets.
pub open spec fn small_keys(p: Seq<(isize, BlockEffect)>) -> bool {
    forall|i: int| 0 <= i < p.len() ==> small(#[trigger] p[i].0 as int)
}

/// The position of the pending effect at offset `k`, or -1.
pub open spec fn key_index(p: Seq<(isize, BlockEffect)>, k: isize) -> int {
    if exists|i: int| 0 <= i < p.len() && #[trigger] p[i].0 == k {
        choose|i: int| 0 <= i < p.len() && #[trigger] p[i].0 == k
    } else {
        -1
    }
}

/// An integer taken modulo 256, as a byte.
pub open spec fn wrap_u8(x: int) -> u8 {
    (x % 256) as u8
}

/// Pending effects after an increment by `d` at offset `k`.
pub open spec fn merge_add(p: Seq<(isize, BlockEffect)>, k: isize, d: int) -> Seq<(isize, BlockEffect)> {
    let i = key_index(p, k);
    if i < 0 {
        p.push((k, BlockEffect::Add(wrap_u8(d))))
    } else {
        match p[i].1 {
            BlockEffect::Add(a) => p.update(i, (k, BlockEffect::Add(wrap_u8(a + d)))),
            BlockEffect::Store(v) => p.update(i, (k, BlockEffect::Store(wrap_u8(v + d)))),
        }
    }
}

/// Pending effects after a store of zero at offset `k`.
pub open spec fn merge_clear(p: Seq<(isize, BlockEffect)>, k: isize) -> Seq<(isize, BlockEffect)> {
    let i = key_index(p, k);
    if i < 0 {
        p.push((k, BlockEffect::Store(0)))
    } else {
        p.update(i, (k, BlockEffect::Store(0)))
    }
}

/// The instruction that applies one pending effect; adding zero needs none.
pub open spec fn effect_ops(e: (isize, BlockEffect)) -> Seq<Opcode> {
    match e.1 {
        BlockEffect::Add(a) => if a == 0 {
            Seq::empty()
        } else {
            seq![Opcode::Increment(e.0, a as isize)]
        },
        BlockEffect::Store(v) => seq![Opcode::SetCell(e.0, v)],
    }
}

/// The instructions that apply all pending effects, in the order they were first recorded.
pub open spec fn effects_ops(p: Seq<(isize, BlockEffect)>) -> Seq<Opcode>
    decreases p.len(),
{
    if p.len() == 0 {
        Seq::empty()
    } else {
        effects_ops(p.drop_last()) + effect_ops(p.last())
    }
}

/// The instructions of a full commit: every pending effect, then the pending pointer move.
pub open spec fn commit_ops(p: Seq<(isize, BlockEffect)>, ptr: isize) -> Seq<Opcode> {
    if ptr == 0 {
        effects_ops(p)
    } else {
        effects_ops(p).push(Opcode::MovePointer(ptr))
    }
}

/// The loop at `i` holds exactly one increment at offset zero by an odd delta.
pub open spec fn is_clear_loop(ops: Seq<Opcode>, i: int) -> bool {
    &&& 0 <= i && i + 2 < ops.len()
    &&& ops[i] is LoopStart
    &&& ops[i + 2] is LoopEnd
    &&& match ops[i + 1] {
        Opcode::Increment(o, d) => o == 0 && d % 2 == 1,
        _ => false,
    }
}

/// The instructions from `a` up to `b` are all pointer moves.
pub open spec fn only_moves(ops: Seq<Opcode>, a: int, b: int) -> bool {
    forall|k: int| a <= k < b ==> #[trigger] ops[k] is MovePointer
}

/// The reduced sum of the pointer moves from `a` up to `b`.
pub open spec fn move_sum(ops: Seq<Opcode>, a: int, b: int) -> int
    decreases b - a,
{
    if b <= a {
        0
    } else {
        norm(move_sum(ops, a, b - 1) + match ops[b - 1] {
            Opcode::MovePointer(d) => d as int,
            _ => 0,
        })
    }
}

/// The loop at `i`, ending at its target, only moves the pointer, by a nonzero step.
pub open spec fn is_scan_loop(ops: Seq<Opcode>, i: int) -> bool {
    &&& 0 <= i < ops.len()
    &&& match ops[i] {
        Opcode::LoopStart(end) => i < end < ops.len() && only_moves(ops, i + 1, end as int)
            && move_sum(ops, i + 1, end as int) != 0,
        _ => false,
    }
}

/// The optimizer's scan from position `i`, with pending effects `p`, an
/// uncommitted pointer offset `ptr`, and the instructions `out` emitted so far.
pub open spec fn opt_from(
    ops: Seq<Opcode>,
    i: int,
    p: Seq<(isize, BlockEffect)>,
    ptr: isize,
    out: Seq<Opcode>,
) -> Seq<Opcode>
    decreases ops.len() - i,
{
    if i < 0 || i >= ops.len() {
        out
    } else {
        match ops[i] {
            Opcode::Increment(o, d) => opt_from(
                ops,
                i + 1,
                merge_add(p, norm(ptr + o) as isize, d as int),
                ptr,
                out,
            ),
            Opcode::MovePointer(d) => opt_from(ops, i + 1, p, norm(ptr + d) as isize, out),
            Opcode::Output(o) => {
                let k = norm(ptr + o) as isize;
                let j = key_index(p, k);
                if j < 0 {
                    opt_from(ops, i + 1, p, ptr, out.push(Opcode::Output(k)))
                } else {
                    opt_from(ops, i + 1, p.remove(j), ptr, (out + effect_ops(p[j])).push(Opcode::Output(k)))
                }
            },
            Opcode::Input(o) => {
                let k = norm(ptr + o) as isize;
                let j = key_index(p, k);
                if j < 0 {
                    opt_from(ops, i + 1, p, ptr, out.push(Opcode::Input(k)))
                } else {
                    opt_from(ops, i + 1, p.remove(j), ptr, (out + effect_ops(p[j])).push(Opcode::Input(k)))
                }
            },
            _ => if is_clear_loop(ops, i) {
                opt_from(ops, i + 3, merge_clear(p, ptr), ptr, out)
            } else {
                let committed = out + commit_ops(p, ptr);
                if is_scan_loop(ops, i) {
                    let end = ops[i]->LoopStart_0;
                    opt_from(
                        ops,
                        end + 1,
                        Seq::empty(),
                        0,
                        committed.push(Opcode::ScanZero(move_sum(ops, i + 1, end as int) as isize)),
                    )
                } else {
                    opt_from(ops, i + 1, Seq::empty(), 0, committed.push(ops[i]))
                }
            },
        }
    }
}

/// The optimized form of an instruction sequence.
pub open spec fn optimized(ops: Seq<Opcode>) -> Seq<Opcode> {
    opt_from(ops, 0, Seq::empty(), 0, Seq::empty())
}

fn norm_offset(x: isize) -> (r: isize)
    requires
        -((TAPE_LEN + HALF_TAPE) as int) <= x < (TAPE_LEN + HALF_TAPE) as int,
    ensures
        r == norm(x as int),
        small(r as int),
{
    if x >= 0x8000 {
        x - 0x10000
    } else if x < -0x8000 {
        x + 0x10000
    } else {
        x
    }
}

/// The byte `a + d`, modulo 256.
fn add_byte(a: u8, d: isize) -> (r: u8)
    ensures
        r == wrap_u8(a + d),
{
    let m = d.checked_rem_euclid(256).unwrap();
    let r = a.wrapping_add(m as u8);
    proof {
        lemma_add_mod_noop(a as int, d as int, 256);
        assert(a as int % 256 == a);
        assert((a + m) % 256 == (a + d) % 256);
        if a + m >= 256 {
            assert((a + m) % 256 == a + m - 256) by (nonlinear_arith)
                requires 256 <= a + m < 512;
        } else {
            assert((a + m) % 256 == a + m) by (nonlinear_arith)
                requires 0 <= a + m < 256;
        }
    }
    r
}

fn find_key(p: &Vec<(isize, BlockEffect)>, k: isize) -> (r: Option<usize>)
    requires
        unique_keys(p@),
    ensures
        match r {
            Some(i) => i < p@.len() && i == key_index(p@, k) && p@[i as int].0 == k,
            None => key_index(p@, k) == -1,
        },
{
    let mut j: usize = 0;
    while j < p.len()
        invariant
            j <= p@.len(),
            unique_keys(p@),
            forall|m: int| 0 <= m < j ==> #[trigger] p@[m].0 != k,
        decreases p@.len() - j,
    {
        if p[j].0 == k {
            proof {
                assert(p@[j as int].0 == k);
                let c = key_index(p@, k);
                assert(0 <= c < p@.len() && p@[c].0 == k);
                if c != j as int {
                    assert(p@[j as int].0 != p@[c].0);
                }
            }
            return Some(j);
        }
        j += 1;
    }
    None
}

fn push_effect(out: &mut Vec<Opcode>, e: (isize, BlockEffect))
    ensures
        final(out)@ == old(out)@ + effect_ops(e),
{
    match e.1 {
        BlockEffect::Add(a) => {
            if a != 0 {
                out.push(Opcode::Increment(e.0, a as isize));
            }
        },
        BlockEffect::Store(v) => {
            out.push(Opcode::SetCell(e.0, v));
        },
    }
    proof {
        assert(final(out)@ =~= old(out)@ + effect_ops(e));
    }
}

fn commit(out: &mut Vec<Opcode>, p: &Vec<(isize, BlockEffect)>, ptr: isize)
    ensures
        final(out)@ == old(out)@ + commit_ops(p@, ptr),
{
    let ghost start = out@;
    let mut j: usize = 0;
    while j < p.len()
        invariant
            j <= p@.len(),
            out@ == start + effects_ops(p@.take(j as int)),
        decreases p@.len() - j,
    {
        proof {
            assert(p@.take(j + 1).drop_last() == p@.take(j as int));
        }
        push_effect(out, p[j]);
        proof {
            assert(start + effects_ops(p@.take(j as int)) + effect_ops(p@[j as int])
                == start + effects_ops(p@.take(j + 1)));
        }
        j += 1;
    }
    proof {
        assert(p@.take(p@.len() as int) == p@);
    }
    if ptr != 0 {
        out.push(Opcode::MovePointer(ptr));
    }
    proof {
        assert(out@ =~= start + commit_ops(p@, ptr));
    }
}

/// The step of the loop from `i` to its end at `end`, if it only moves the
/// pointer and its reduced step is nonzero.
fn scan_step(ops: &Vec<Opcode>, i: usize, end: usize) -> (r: Option<isize>)
    requires
        i < end <= ops@.len(),
        lowered(ops@),
    ensures
        match r {
            Some(d) => only_moves(ops@, i + 1, end as int) && d == move_sum(ops@, i + 1, end as int)
                && d != 0,
            None => !(only_moves(ops@, i + 1, end as int) && move_sum(ops@, i + 1, end as int) != 0),
        },
{
    let mut sum: isize = 0;
    let mut k: usize = i + 1;
    while k < end
        invariant
            i + 1 <= k <= end <= ops@.len(),
            lowered(ops@),
            only_moves(ops@, i + 1, k as int),
            sum == move_sum(ops@, i + 1, k as int),
            small(sum as int),
        decreases end - k,
    {
        match ops[k] {
            Opcode::MovePointer(d) => {
                proof {
                    assert(lowered_op(ops@[k as int]));
                }
                sum = norm_offset(sum + d);
            },
            _ => {
                return None;
            },
        }
        k += 1;
    }
    if sum == 0 {
        None
    } else {
        Some(sum)
    }
}

pub proof fn lemma_merge_keys(p: Seq<(isize, BlockEffect)>, k: isize, d: int)
    requires
        unique_keys(p),
        small_keys(p),
        small(k as int),
    ensures
        unique_keys(merge_add(p, k, d)),
        small_keys(merge_add(p, k, d)),
        unique_keys(merge_clear(p, k)),
        small_keys(merge_clear(p, k)),
{
    let i = key_index(p, k);
    if i >= 0 {
        assert(p[i].0 == k);
    } else {
        assert(forall|m: int| 0 <= m < p.len() ==> #[trigger] p[m].0 != k);
        let q = p.push((k, BlockEffect::Store(0)));
        assert(forall|m: int| 0 <= m < p.len() ==> #[trigger] q[m] == p[m]);
        let q2 = p.push((k, BlockEffect::Add(wrap_u8(d))));
        assert(forall|m: int| 0 <= m < p.len() ==> #[trigger] q2[m] == p[m]);
    }
}

pub proof fn lemma_remove_keys(p: Seq<(isize, BlockEffect)>, j: int)
    requires
        unique_keys(p),
        small_keys(p),
        0 <= j < p.len(),
    ensures
        unique_keys(p.remove(j)),
        small_keys(p.remove(j)),
{
    let q = p.remove(j);
    assert forall|m: int| 0 <= m < q.len() implies #[trigger] q[m] == p[if m < j { m } else { m + 1 }] by {}
    assert forall|a: int, b: int| 0 <= a < q.len() && 0 <= b < q.len() && a != b implies #[trigger] q[a].0 != #[trigger] q[b].0 by {
        let a1 = if a < j { a } else { a + 1 };
        let b1 = if b < j { b } else { b + 1 };
        assert(q[a] == p[a1] && q[b] == p[b1]);
        assert(p[a1].0 != p[b1].0);
    }
    assert forall|m: int| 0 <= m < q.len() implies small(#[trigger] q[m].0 as int) by {
        let m1 = if m < j { m } else { m + 1 };
        assert(q[m] == p[m1]);
    }
}

/// Optimizes a lowered, linked instruction sequence. Loop targets in the
/// result are stale; the result must be linked again.
pub fn optimize(ops: &Vec<Opcode>) -> (r: Vec<Opcode>)
    requires
        lowered(ops@),
    ensures
        r@ == optimized(ops@),
{
    let ghost s = ops@;
    let len = ops.len();
    let mut out: Vec<Opcode> = Vec::new();
    let mut pending: Vec<(isize, BlockEffect)> = Vec::new();
    let mut ptr: isize = 0;
    let mut index: usize = 0;
    while index < len
        invariant
            s == ops@,
            len == s.len(),
            lowered(s),
            index <= len,
            unique_keys(pending@),
            small_keys(pending@),
            small(ptr as int),
            opt_from(s, index as int, pending@, ptr, out@) == optimized(s),
        decreases len - index,
    {
        proof {
            assert(lowered_op(s[index as int]));
        }
        let op = ops[index];
        match op {
            Opcode::Increment(o, d) => {
                let k = norm_offset(ptr + o);
                proof {
                    lemma_merge_keys(pending@, k, d as int);
                }
                match find_key(&pending, k) {
                    None => {
                        let b = add_byte(0, d);
                        pending.push((k, BlockEffect::Add(b)));
                    },
                    Some(i) => {
                        match pending[i].1 {
                            BlockEffect::Add(a) => {
                                let b = add_byte(a, d);
                                pending.set(i, (k, BlockEffect::Add(b)));
                            },
                            BlockEffect::Store(v) => {
                                let b = add_byte(v, d);
                                pending.set(i, (k, BlockEffect::Store(b)));
                            },
                        }
                    },
                }
                index += 1;
            },
            Opcode::MovePointer(d) => {
                ptr = norm_offset(ptr + d);
                index += 1;
            },
            Opcode::Output(o) | Opcode::Input(o) => {
                let k = norm_offset(ptr + o);
                match find_key(&pending, k) {
                    None => {},
                    Some(j) => {
                        proof {
                            lemma_remove_keys(pending@, j as int);
                        }
                        let e = pending[j];
                        push_effect(&mut out, e);
                        pending.remove(j);
                    },
                }
                if let Opcode::Output(_) = op {
                    out.push(Opcode::Output(k));
                } else {
                    out.push(Opcode::Input(k));
                }
                index += 1;
            },
            _ => {
                let clear: bool = match op {
                    Opcode::LoopStart(_) => len - index > 2 && (match ops[index + 2] {
                        Opcode::LoopEnd(_) => true,
                        _ => false,
                    }) && (match ops[index + 1] {
                        Opcode::Increment(o, d) => o == 0 && d.checked_rem_euclid(2) == Some(1),
                        _ => false,
                    }),
                    _ => false,
                };
                proof {
                    assert(clear == is_clear_loop(s, index as int));
                }
                if clear {
                    proof {
                        lemma_merge_keys(pending@, ptr, 0);
                    }
                    match find_key(&pending, ptr) {
                        None => {
                            pending.push((ptr, BlockEffect::Store(0)));
                        },
                        Some(i) => {
                            pending.set(i, (ptr, BlockEffect::Store(0)));
                        },
                    }
                    index += 3;
                } else {
                    commit(&mut out, &pending, ptr);
                    pending = Vec::new();
                    ptr = 0;
                    let mut scanned = false;
                    if let Opcode::LoopStart(end) = op {
                        if index < end && end < len {
                            if let Some(d) = scan_step(ops, index, end) {
                                out.push(Opcode::ScanZero(d));
                                index = end + 1;
                                scanned = true;
                            }
                        }
                    }
                    if !scanned {
                        out.push(op);
                        index += 1;
                    }
                }
            },
        }
    }
    out
}

/// No prefix closes more loops than it opens.
pub open spec fn nonneg_depth(s: Seq<Opcode>) -> bool {
    forall|k: int| 0 <= k <= s.len() ==> #[trigger] depth(s, k) >= 0
}

/// The sequence holds no loop boundary.
pub open spec fn plain(x: Seq<Opcode>) -> bool {
    forall|k: int| 0 <= k < x.len() ==> !is_loop_start(#[trigger] x[k]) && !is_loop_end(x[k])
}

proof fn lemma_depth_prefix(a: Seq<Opcode>, b: Seq<Opcode>, n: int)
    requires
        0 <= n <= a.len(),
        n <= b.len(),
        forall|k: int| 0 <= k < n ==> #[trigger] a[k] == b[k],
    ensures
        depth(a, n) == depth(b, n),
    decreases n,
{
    if n > 0 {
        lemma_depth_prefix(a, b, n - 1);
    }
}

proof fn lemma_depth_append(a: Seq<Opcode>, x: Seq<Opcode>)
    ensures
        forall|k: int| 0 <= k <= a.len() ==> #[trigger] depth(a + x, k) == depth(a, k),
{
    assert forall|k: int| 0 <= k <= a.len() implies #[trigger] depth(a + x, k) == depth(a, k) by {
        lemma_depth_prefix(a + x, a, k);
    }
}

proof fn lemma_depth_append_plain(a: Seq<Opcode>, x: Seq<Opcode>, k: int)
    requires
        plain(x),
        a.len() <= k <= a.len() + x.len(),
    ensures
        depth(a + x, k) == depth(a, a.len() as int),
    decreases k,
{
    lemma_depth_append(a, x);
    if k > a.len() {
        assert((a + x)[k - 1] == x[k - 1 - a.len()]);
        lemma_depth_append_plain(a, x, k - 1);
    }
}

/// Appending instructions without loop boundaries keeps every prefix depth.
proof fn lemma_append_plain(a: Seq<Opcode>, x: Seq<Opcode>)
    requires
        plain(x),
        nonneg_depth(a),
    ensures
        nonneg_depth(a + x),
        depth(a + x, (a + x).len() as int) == depth(a, a.len() as int),
{
    lemma_depth_append(a, x);
    assert forall|k: int| 0 <= k <= (a + x).len() implies #[trigger] depth(a + x, k) >= 0 by {
        if k > a.len() {
            lemma_depth_append_plain(a, x, k);
        }
    }
    lemma_depth_append_plain(a, x, (a + x).len() as int);
}

proof fn lemma_effects_plain(p: Seq<(isize, BlockEffect)>, ptr: isize)
    ensures
        plain(effects_ops(p)),
        plain(commit_ops(p, ptr)),
        forall|j: int| 0 <= j < p.len() ==> plain(#[trigger] effect_ops(p[j])),
    decreases p.len(),
{
    assert forall|j: int| 0 <= j < p.len() implies plain(#[trigger] effect_ops(p[j])) by {}
    if p.len() > 0 {
        lemma_effects_plain(p.drop_last(), ptr);
        assert(plain(effect_ops(p.last())));
        let a = effects_ops(p.drop_last());
        let b = effect_ops(p.last());
        assert forall|k: int| 0 <= k < (a + b).len() implies !is_loop_start(#[trigger] (a + b)[k])
            && !is_loop_end((a + b)[k]) by {
            if k >= a.len() {
                assert((a + b)[k] == b[k - a.len()]);
            }
        }
    }
    let e = effects_ops(p);
    if ptr != 0 {
        assert forall|k: int| 0 <= k < e.push(Opcode::MovePointer(ptr)).len() implies !is_loop_start(
            #[trigger] e.push(Opcode::MovePointer(ptr))[k],
        ) && !is_loop_end(e.push(Opcode::MovePointer(ptr))[k]) by {}
    }
}

proof fn lemma_opt_balanced(
    ops: Seq<Opcode>,
    i: int,
    p: Seq<(isize, BlockEffect)>,
    ptr: isize,
    out: Seq<Opcode>,
)
    requires
        is_linked(ops),
        balanced(ops),
        0 <= i <= ops.len(),
        nonneg_depth(out),
        depth(out, out.len() as int) == depth(ops, i),
    ensures
        balanced(opt_from(ops, i, p, ptr, out)),
    decreases ops.len() - i,
{
    if i >= ops.len() {
        assert(!has_unexpected_end(out));
    } else {
        assert(!has_unexpected_end(ops));
        assert(depth(ops, i + 1) >= 0);
        match ops[i] {
            Opcode::Increment(o, d) => {
                lemma_opt_balanced(ops, i + 1, merge_add(p, norm(ptr + o) as isize, d as int), ptr, out);
            },
            Opcode::MovePointer(d) => {
                lemma_opt_balanced(ops, i + 1, p, norm(ptr + d) as isize, out);
            },
            Opcode::Output(o) | Opcode::Input(o) => {
                let k = norm(ptr + o) as isize;
                let j = key_index(p, k);
                let last = if ops[i] is Output { Opcode::Output(k) } else { Opcode::Input(k) };
                assert(plain(seq![last]));
                lemma_effects_plain(p, ptr);
                if j < 0 {
                    lemma_append_plain(out, seq![last]);
                    assert(out.push(last) == out + seq![last]);
                    lemma_opt_balanced(ops, i + 1, p, ptr, out.push(last));
                } else {
                    let o1 = out + effect_ops(p[j]);
                    lemma_append_plain(out, effect_ops(p[j]));
                    lemma_append_plain(o1, seq![last]);
                    assert(o1.push(last) == o1 + seq![last]);
                    lemma_opt_balanced(ops, i + 1, p.remove(j), ptr, o1.push(last));
                }
            },
            _ => {
                if is_clear_loop(ops, i) {
                    assert(depth(ops, i + 1) == depth(ops, i) + 1);
                    assert(depth(ops, i + 2) == depth(ops, i + 1));
                    assert(depth(ops, i + 3) == depth(ops, i + 2) - 1);
                    lemma_opt_balanced(ops, i + 3, merge_clear(p, ptr), ptr, out);
                } else {
                    let committed = out + commit_ops(p, ptr);
                    lemma_effects_plain(p, ptr);
                    lemma_append_plain(out, commit_ops(p, ptr));
                    if is_scan_loop(ops, i) {
                        let end = ops[i]->LoopStart_0;
                        let x = Opcode::ScanZero(move_sum(ops, i + 1, end as int) as isize);
                        assert(plain(seq![x]));
                        lemma_append_plain(committed, seq![x]);
                        assert(committed.push(x) == committed + seq![x]);
                        assert(boundary_linked(ops, ops, i));
                        lemma_opt_balanced(ops, end + 1, Seq::empty(), 0, committed.push(x));
                    } else {
                        let o2 = committed.push(ops[i]);
                        lemma_depth_append(committed, seq![ops[i]]);
                        assert(o2 == committed + seq![ops[i]]);
                        let n = committed.len() as int;
                        assert(o2[n] == ops[i]);
                        assert(depth(o2, n) == depth(committed, n));
                        assert(depth(o2, n + 1) == depth(ops, i + 1));
                        assert(nonneg_depth(o2));
                        lemma_opt_balanced(ops, i + 1, Seq::empty(), 0, o2);
                    }
                }
            },
        }
    }
}

/// Optimization keeps the loop boundaries of a linked program balanced.
pub proof fn lemma_optimized_balanced(ops: Seq<Opcode>)
    requires
        is_linked(ops),
        balanced(ops),
    ensures
        balanced(optimized(ops)),
{
    assert(depth(Seq::<Opcode>::empty(), 0) == 0);
    lemma_opt_balanced(ops, 0, Seq::empty(), 0, Seq::empty());
}

/// The instructions from `i`, `n` of them, are increments at offset zero.
pub open spec fn increment_run(ops: Seq<Opcode>, i: int, n: int) -> bool {
    forall|k: int| i <= k < i + n ==> match #[trigger] ops[k] {
        Opcode::Increment(o, _) => o == 0,
        _ => false,
    }
}

/// The sum of the deltas of the `n` instructions from `i`.
pub open spec fn increment_sum(ops: Seq<Opcode>, i: int, n: int) -> int
    decreases n,
{
    if n <= 0 {
        0
    } else {
        increment_sum(ops, i, n - 1) + match ops[i + n - 1] {
            Opcode::Increment(_, d) => d as int,
            _ => 0,
        }
    }
}

pub proof fn lemma_key_index_at(q: Seq<(isize, BlockEffect)>, k: isize, j: int)
    requires
        0 <= j < q.len(),
        q[j].0 == k,
        unique_keys(q),
    ensures
        key_index(q, k) == j,
{
    let c = key_index(q, k);
    assert(0 <= c < q.len() && q[c].0 == k);
    if c != j {
        assert(q[c].0 != q[j].0);
    }
}

proof fn lemma_wrap_twice(x: int, a: int, b: int)
    ensures
        wrap_u8(wrap_u8(x + a) + b) == wrap_u8(x + a + b),
{
    vstd::arithmetic::div_mod::lemma_add_mod_noop(x + a, b, 256);
    vstd::arithmetic::div_mod::lemma_mod_twice(b, 256);
    vstd::arithmetic::div_mod::lemma_add_mod_noop((x + a) % 256, b, 256);
    vstd::arithmetic::div_mod::lemma_mod_twice(x + a, 256);
    assert(0 <= (x + a) % 256 < 256) by {
        vstd::arithmetic::div_mod::lemma_mod_bound(x + a, 256);
    }
    assert(wrap_u8(x + a) as int == (x + a) % 256);
}

/// Two increments of one pending offset merge as one increment by their sum.
proof fn lemma_merge_add_twice(p: Seq<(isize, BlockEffect)>, k: isize, a: int, b: int)
    requires
        unique_keys(p),
        small_keys(p),
        small(k as int),
    ensures
        merge_add(merge_add(p, k, a), k, b) == merge_add(p, k, a + b),
{
    lemma_merge_keys(p, k, a);
    let q = merge_add(p, k, a);
    let i = key_index(p, k);
    if i < 0 {
        assert(q[p.len() as int].0 == k);
        lemma_key_index_at(q, k, p.len() as int);
        lemma_wrap_twice(0, a, b);
        assert(merge_add(q, k, b) =~= merge_add(p, k, a + b));
    } else {
        assert(q[i].0 == k);
        lemma_key_index_at(q, k, i);
        match p[i].1 {
            BlockEffect::Add(x) => {
                lemma_wrap_twice(x as int, a, b);
            },
            BlockEffect::Store(x) => {
                lemma_wrap_twice(x as int, a, b);
            },
        }
        assert(merge_add(q, k, b) =~= merge_add(p, k, a + b));
    }
}

/// A run of increments at one offset, with no pointer move or input/output
/// between them, leaves one pending effect: an increment by the sum of their
/// deltas, modulo 256.
pub proof fn lemma_increment_folding(
    ops: Seq<Opcode>,
    i: int,
    n: int,
    p: Seq<(isize, BlockEffect)>,
    ptr: isize,
    out: Seq<Opcode>,
)
    requires
        0 <= i,
        1 <= n,
        i + n <= ops.len(),
        increment_run(ops, i, n),
        unique_keys(p),
        small_keys(p),
        small(ptr as int),
    ensures
        opt_from(ops, i, p, ptr, out) == opt_from(
            ops,
            i + n,
            merge_add(p, ptr, increment_sum(ops, i, n)),
            ptr,
            out,
        ),
    decreases n,
{
    assert(norm(ptr + 0) == ptr);
    if n == 1 {
        assert(increment_run(ops, i, 1));
        match ops[i] {
            Opcode::Increment(o, d) => {
                assert(o == 0);
                assert(increment_sum(ops, i, 1) == d as int);
            },
            _ => {},
        }
    } else {
        lemma_increment_folding(ops, i, n - 1, p, ptr, out);
        let q = merge_add(p, ptr, increment_sum(ops, i, n - 1));
        lemma_merge_keys(p, ptr, increment_sum(ops, i, n - 1));
        assert(match ops[i + n - 1] {
            Opcode::Increment(o, _) => o == 0,
            _ => false,
        });
        match ops[i + n - 1] {
            Opcode::Increment(o, d) => {
                lemma_merge_add_twice(p, ptr, increment_sum(ops, i, n - 1), d as int);
            },
            _ => {},
        }
    }
}

/// Wherever the scan meets a loop holding one increment at offset zero by an
/// odd delta, it emits nothing for the loop, records a store of zero at the
/// current offset, and goes on after the loop end.
pub proof fn lemma_clear_loop_rewrite(
    ops: Seq<Opcode>,
    i: int,
    p: Seq<(isize, BlockEffect)>,
    ptr: isize,
    out: Seq<Opcode>,
)
    requires
        is_clear_loop(ops, i),
        unique_keys(p),
        small_keys(p),
        small(ptr as int),
    ensures
        opt_from(ops, i, p, ptr, out) == opt_from(ops, i + 3, merge_clear(p, ptr), ptr, out),
        merge_clear(p, ptr)[key_index(merge_clear(p, ptr), ptr)] == (ptr, BlockEffect::Store(0)),
        0 <= key_index(merge_clear(p, ptr), ptr) < merge_clear(p, ptr).len(),
{
    lemma_merge_keys(p, ptr, 0);
    let q = merge_clear(p, ptr);
    let i0 = key_index(p, ptr);
    if i0 < 0 {
        assert(q[p.len() as int].0 == ptr);
        lemma_key_index_at(q, ptr, p.len() as int);
    } else {
        assert(q[i0].0 == ptr);
        lemma_key_index_at(q, ptr, i0);
    }
}

/// Wherever the scan meets a loop that only moves the pointer, by a nonzero
/// net step, it commits what is pending, emits one scan by that step, and goes
/// on after the loop end.
pub proof fn lemma_scan_loop_rewrite(
    ops: Seq<Opcode>,
    i: int,
    p: Seq<(isize, BlockEffect)>,
    ptr: isize,
    out: Seq<Opcode>,
)
    requires
        is_scan_loop(ops, i),
    ensures
        ({
            let end = ops[i]->LoopStart_0 as int;
            opt_from(ops, i, p, ptr, out) == opt_from(
                ops,
                end + 1,
                Seq::empty(),
                0,
                (out + commit_ops(p, ptr)).push(Opcode::ScanZero(move_sum(ops, i + 1, end) as isize)),
            )
        }),
{
    assert(!is_clear_loop(ops, i)) by {
        let end = ops[i]->LoopStart_0 as int;
        if is_clear_loop(ops, i) {
            assert(only_moves(ops, i + 1, end));
            assert(ops[i + 1] is MovePointer);
        }
    }
}

} // verus!
