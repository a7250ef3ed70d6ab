//! Resolution of loop boundaries into jump targets.
use vstd::prelude::*;
use crate::program::Opcode;

verus! {

/// Why a text does not compile: its loop boundaries do not pair up.
#[derive(Clone, Copy, Debug, PartialEq, Eq, Structural)]
pub enum CompileError {
    /// A loop start has no loop end after it.
    UnclosedLoop,
    /// A loop end comes with no open loop start before it.
    UnexpectedLoopEnd,
}

/// The instruction opens a loop.
pub open spec fn is_loop_start(op: Opcode) -> bool {
    op is LoopStart
}

/// The instruction closes a loop.
pub open spec fn is_loop_end(op: Opcode) -> bool {
    op is LoopEnd
}

/// Loop starts minus loop ends among the first `n` instructions.
pub open spec fn depth(s: Seq<Opcode>, n: int) -> int
    decreases n,
{
    if n <= 0 {
        0
    } else if is_loop_start(s[n - 1]) {
        depth(s, n - 1) + 1
    } else if is_loop_end(s[n - 1]) {
        depth(s, n - 1) - 1
    } else {
        depth(s, n - 1)
    }
}

/// Some prefix closes more loops than it opens.
pub open spec fn has_unexpected_end(s: Seq<Opcode>) -> bool {
    exists|n: int| 0 <= n <= s.len() && #[trigger] depth(s, n) < 0
}

/// Every loop start is closed and every loop end has an open start.
pub open spec fn balanced(s: Seq<Opcode>) -> bool {
    !has_unexpected_end(s) && depth(s, s.len() as int) == 0
}

/// The loop end at `t` is the partner of the loop start at `i`: it is the first
/// point after `i` at which the nesting depth falls back to that before `i`.
pub open spec fn partners(s: Seq<Opcode>, i: int, t: int) -> bool {
    &&& 0 <= i < t < s.len()
    &&& is_loop_start(s[i])
    &&& is_loop_end(s[t])
    &&& depth(s, t + 1) == depth(s, i)
    &&& forall|k: int| i < k <= t ==> #[trigger] depth(s, k) > depth(s, i)
}

/// Two sequences hold the same instructions, but for loop targets.
pub open spec fn same_shape(a: Seq<Opcode>, b: Seq<Opcode>) -> bool {
    &&& a.len() == b.len()
    &&& forall|i: int|
        0 <= i < a.len() ==> {
            ||| #[trigger] a[i] == b[i]
            ||| (is_loop_start(a[i]) && is_loop_start(b[i]))
            ||| (is_loop_end(a[i]) && is_loop_end(b[i]))
        }
}

/// The instruction at `i`, if it is a loop boundary, targets its partner in
/// the nesting of `shape`, and that partner targets it back.
pub open spec fn boundary_linked(shape: Seq<Opcode>, s: Seq<Opcode>, i: int) -> bool {
    match s[i] {
        Opcode::LoopStart(t) => partners(shape, i, t as int) && s[t as int] == Opcode::LoopEnd(
            i as usize,
        ),
        Opcode::LoopEnd(t) => partners(shape, t as int, i) && s[t as int] == Opcode::LoopStart(
            i as usize,
        ),
        _ => true,
    }
}

/// Every loop boundary targets its partner, and each partner targets it back.
pub open spec fn is_linked(s: Seq<Opcode>) -> bool {
    forall|i: int| 0 <= i < s.len() ==> #[trigger] boundary_linked(s, s, i)
}

/// Sequences of the same shape have the same nesting depths.
pub proof fn lemma_depth_same_shape(a: Seq<Opcode>, b: Seq<Opcode>, n: int)
    requires
        same_shape(a, b),
        n <= a.len(),
    ensures
        depth(a, n) == depth(b, n),
    decreases n,
{
    if n > 0 {
        assert(a[n - 1] == b[n - 1] || (is_loop_start(a[n - 1]) && is_loop_start(b[n - 1])) || (
        is_loop_end(a[n - 1]) && is_loop_end(b[n - 1])));
        lemma_depth_same_shape(a, b, n - 1);
    }
}

/// What holds after scanning the first `index` instructions of `s`: the stack
/// holds the open loop starts from the outermost in, and every boundary whose
/// partner has been seen is linked to it in `o`.
pub open spec fn link_inv(s: Seq<Opcode>, o: Seq<Opcode>, st: Seq<usize>, index: int) -> bool {
    &&& 0 <= index <= s.len() <= usize::MAX
    &&& same_shape(s, o)
    &&& forall|i: int| index <= i < s.len() ==> #[trigger] o[i] == s[i]
    &&& st.len() == depth(s, index)
    &&& forall|k: int| 0 <= k <= index ==> #[trigger] depth(s, k) >= 0
    &&& forall|j: int|
        0 <= j < st.len() ==> {
            &&& #[trigger] st[j] < index
            &&& is_loop_start(s[st[j] as int])
            &&& depth(s, st[j] as int) == j
            &&& forall|k: int| st[j] < k <= index ==> #[trigger] depth(s, k) > j
        }
    &&& forall|i: int| 0 <= i < index ==> #[trigger] link_entry(s, o, st, index, i)
}

/// The instruction at `i` is an open loop start on the stack, or a boundary
/// linked to its partner before `index`.
pub open spec fn link_entry(s: Seq<Opcode>, o: Seq<Opcode>, st: Seq<usize>, index: int, i: int) -> bool {
    match o[i] {
        Opcode::LoopStart(t) => {
            ||| (depth(s, i) < st.len() && st[depth(s, i)] == i)
            ||| (t < index && boundary_linked(s, o, i))
        },
        _ => boundary_linked(s, o, i),
    }
}

proof fn lemma_link_push(s: Seq<Opcode>, o: Seq<Opcode>, st: Seq<usize>, index: int)
    requires
        link_inv(s, o, st, index),
        index < s.len(),
        is_loop_start(s[index]),
    ensures
        link_inv(s, o, st.push(index as usize), index + 1),
{
    let st2 = st.push(index as usize);
    assert(depth(s, index + 1) == depth(s, index) + 1);
    assert forall|j: int| 0 <= j < st2.len() implies {
        &&& #[trigger] st2[j] < index + 1
        &&& is_loop_start(s[st2[j] as int])
        &&& depth(s, st2[j] as int) == j
        &&& forall|k: int| st2[j] < k <= index + 1 ==> #[trigger] depth(s, k) > j
    } by {
        if j < st.len() {
            assert(st2[j] == st[j]);
        }
    }
    assert forall|i: int| 0 <= i < index + 1 implies #[trigger] link_entry(
        s,
        o,
        st2,
        index + 1,
        i,
    ) by {
        if i < index {
            assert(link_entry(s, o, st, index, i));
            if depth(s, i) < st.len() {
                assert(st2[depth(s, i)] == st[depth(s, i)]);
            }
        } else {
            assert(o[i] == s[i]);
            assert(st2[depth(s, i)] == i);
        }
    }
}

proof fn lemma_link_other(s: Seq<Opcode>, o: Seq<Opcode>, st: Seq<usize>, index: int)
    requires
        link_inv(s, o, st, index),
        index < s.len(),
        !is_loop_start(s[index]),
        !is_loop_end(s[index]),
    ensures
        link_inv(s, o, st, index + 1),
{
    assert forall|i: int| 0 <= i < index + 1 implies #[trigger] link_entry(
        s,
        o,
        st,
        index + 1,
        i,
    ) by {
        if i == index {
            assert(o[i] == s[i]);
        } else {
            assert(link_entry(s, o, st, index, i));
        }
    }
}

proof fn lemma_link_pop(s: Seq<Opcode>, o: Seq<Opcode>, st: Seq<usize>, index: int)
    requires
        link_inv(s, o, st, index),
        index < s.len(),
        is_loop_end(s[index]),
        st.len() > 0,
    ensures
        ({
            let start = st.last();
            let o2 = o.update(start as int, Opcode::LoopStart(index as usize)).update(
                index,
                Opcode::LoopEnd(start),
            );
            link_inv(s, o2, st.drop_last(), index + 1)
        }),
{
    let d = st.len() - 1;
    let start = st.last();
    let st2 = st.drop_last();
    assert(is_loop_start(o[start as int])) by {
        assert(s[start as int] == o[start as int] || is_loop_start(o[start as int]));
    }
    let o1 = o.update(start as int, Opcode::LoopStart(index as usize));
    let o2 = o1.update(index, Opcode::LoopEnd(start));
    assert(st[d] == start);
    assert(depth(s, index + 1) == d);
    assert(partners(s, start as int, index));
    assert forall|j: int| 0 <= j < st2.len() implies {
        &&& #[trigger] st2[j] < index + 1
        &&& is_loop_start(s[st2[j] as int])
        &&& depth(s, st2[j] as int) == j
        &&& forall|k: int| st2[j] < k <= index + 1 ==> #[trigger] depth(s, k) > j
    } by {
        assert(st2[j] == st[j]);
        assert(st[j] < index);
    }
    assert(same_shape(s, o2)) by {
        assert forall|i: int| 0 <= i < s.len() implies {
            ||| #[trigger] s[i] == o2[i]
            ||| (is_loop_start(s[i]) && is_loop_start(o2[i]))
            ||| (is_loop_end(s[i]) && is_loop_end(o2[i]))
        } by {
            if i != index && i != start as int {
                assert(o2[i] == o[i]);
            }
        }
    }
    assert forall|i: int| 0 <= i < index + 1 implies #[trigger] link_entry(
        s,
        o2,
        st2,
        index + 1,
        i,
    ) by {
        if i == index {
            assert(o2[i] == Opcode::LoopEnd(start));
            assert(o2[start as int] == Opcode::LoopStart(index as usize));
        } else if i == start as int {
            assert(o2[i] == Opcode::LoopStart(index as usize));
            assert(o2[index] == Opcode::LoopEnd(start));
        } else {
            assert(o2[i] == o[i]);
            assert(link_entry(s, o, st, index, i));
            assert(start < i ==> depth(s, i + 1) > d);
            match o[i] {
                Opcode::LoopStart(t) => {
                    if depth(s, i) < st.len() && st[depth(s, i)] == i {
                        assert(depth(s, i) != d);
                        assert(st2[depth(s, i)] == st[depth(s, i)]);
                    } else {
                        assert(t as int != start as int);
                        assert(o2[t as int] == o[t as int]);
                        assert(boundary_linked(s, o2, i));
                    }
                },
                Opcode::LoopEnd(t) => {
                    if t as int == start as int {
                        assert(depth(s, i + 1) == depth(s, start as int));
                        assert(depth(s, i + 1) > d);
                    }
                    assert(t as int != index);
                    assert(o2[t as int] == o[t as int]);
                    assert(boundary_linked(s, o2, i));
                },
                _ => {},
            }
        }
    }
}

proof fn lemma_linked_same_shape(s: Seq<Opcode>, o: Seq<Opcode>)
    requires
        same_shape(s, o),
        forall|i: int| 0 <= i < o.len() ==> #[trigger] boundary_linked(s, o, i),
    ensures
        is_linked(o),
{
    assert forall|k: int|
        #![trigger depth(s, k)]
        #![trigger depth(o, k)]
        0 <= k <= s.len() implies depth(s, k) == depth(o, k) by {
        lemma_depth_same_shape(s, o, k);
    }
    assert forall|i: int| 0 <= i < o.len() implies #[trigger] boundary_linked(o, o, i) by {
        assert(boundary_linked(s, o, i));
        match o[i] {
            Opcode::LoopStart(t) => {
                assert(s[t as int] == o[t as int] || is_loop_end(s[t as int]));
                assert(s[i] == o[i] || is_loop_start(s[i]));
            },
            Opcode::LoopEnd(t) => {
                assert(s[t as int] == o[t as int] || is_loop_start(s[t as int]));
                assert(s[i] == o[i] || is_loop_end(s[i]));
            },
            _ => {},
        }
    }
}

/// The linked form of an instruction sequence: the same instructions with
/// each loop boundary targeting its partner. It is unique where it exists
/// (see `lemma_linked_unique`).
pub open spec fn linked(s: Seq<Opcode>) -> Seq<Opcode> {
    choose|l: Seq<Opcode>| same_shape(s, l) && is_linked(l)
}

proof fn lemma_partners_unique(a: Seq<Opcode>, i: int, t1: int, t2: int)
    requires
        partners(a, i, t1),
        partners(a, i, t2),
    ensures
        t1 == t2,
{
    if t1 < t2 {
        assert(depth(a, t1 + 1) > depth(a, i));
    } else if t2 < t1 {
        assert(depth(a, t2 + 1) > depth(a, i));
    }
}

proof fn lemma_partners_unique_start(a: Seq<Opcode>, i1: int, i2: int, t: int)
    requires
        partners(a, i1, t),
        partners(a, i2, t),
    ensures
        i1 == i2,
{
    if i1 < i2 {
        assert(depth(a, i2) > depth(a, i1));
    } else if i2 < i1 {
        assert(depth(a, i1) > depth(a, i2));
    }
}

proof fn lemma_partners_same_shape(a: Seq<Opcode>, b: Seq<Opcode>, i: int, t: int)
    requires
        same_shape(a, b),
        partners(a, i, t),
    ensures
        partners(b, i, t),
{
    assert forall|k: int|
        #![trigger depth(a, k)]
        #![trigger depth(b, k)]
        0 <= k <= a.len() implies depth(a, k) == depth(b, k) by {
        lemma_depth_same_shape(a, b, k);
    }
    assert(a[i] == b[i] || is_loop_start(b[i]));
    assert(a[t] == b[t] || is_loop_end(b[t]));
}

/// Two linked forms of the same instructions are equal.
pub proof fn lemma_linked_unique(a: Seq<Opcode>, b: Seq<Opcode>)
    requires
        same_shape(a, b),
        is_linked(a),
        is_linked(b),
    ensures
        a == b,
{
    assert forall|i: int| 0 <= i < a.len() implies a[i] == b[i] by {
        assert(boundary_linked(a, a, i));
        assert(boundary_linked(b, b, i));
        assert(a[i] == b[i] || (is_loop_start(a[i]) && is_loop_start(b[i])) || (is_loop_end(a[i])
            && is_loop_end(b[i])));
        match a[i] {
            Opcode::LoopStart(t1) => {
                if let Opcode::LoopStart(t2) = b[i] {
                    lemma_partners_same_shape(b, a, i, t2 as int);
                    lemma_partners_unique(a, i, t1 as int, t2 as int);
                }
            },
            Opcode::LoopEnd(t1) => {
                if let Opcode::LoopEnd(t2) = b[i] {
                    lemma_partners_same_shape(b, a, t2 as int, i);
                    lemma_partners_unique_start(a, t1 as int, t2 as int, i);
                }
            },
            _ => {},
        }
    }
    assert(a =~= b);
}

/// What `link_loops` produces on success is the linked form.
pub proof fn lemma_is_linked_form(s: Seq<Opcode>, l: Seq<Opcode>)
    requires
        same_shape(s, l),
        is_linked(l),
    ensures
        linked(s) == l,
{
    let c = linked(s);
    assert(same_shape(s, c) && is_linked(c));
    assert(same_shape(c, l)) by {
        assert forall|i: int| 0 <= i < c.len() implies {
            ||| #[trigger] c[i] == l[i]
            ||| (is_loop_start(c[i]) && is_loop_start(l[i]))
            ||| (is_loop_end(c[i]) && is_loop_end(l[i]))
        } by {
            assert(s[i] == c[i] || (is_loop_start(s[i]) && is_loop_start(c[i])) || (is_loop_end(s[i])
                && is_loop_end(c[i])));
            assert(s[i] == l[i] || (is_loop_start(s[i]) && is_loop_start(l[i])) || (is_loop_end(s[i])
                && is_loop_end(l[i])));
        }
    }
    lemma_linked_unique(c, l);
}

/// Resolves every loop boundary to the index of its partner.
///
/// Fails with `UnexpectedLoopEnd` when a loop end has no open start, and
/// otherwise with `UnclosedLoop` when a loop start is never closed.
pub fn link_loops(ops: &mut Vec<Opcode>) -> (r: Result<(), CompileError>)
    ensures
        same_shape(old(ops)@, final(ops)@),
        r == Err::<(), CompileError>(CompileError::UnexpectedLoopEnd) <==> has_unexpected_end(
            old(ops)@,
        ),
        r == Err::<(), CompileError>(CompileError::UnclosedLoop) <==> (!has_unexpected_end(
            old(ops)@,
        ) && depth(old(ops)@, old(ops)@.len() as int) != 0),
        r is Ok <==> balanced(old(ops)@),
        r is Ok ==> is_linked(final(ops)@),
        r is Ok ==> final(ops)@ == linked(old(ops)@),
{
    let ghost s = ops@;
    let mut stack: Vec<usize> = Vec::new();
    let n = ops.len();
    let mut index: usize = 0;
    while index < n
        invariant
            n == s.len(),
            s == old(ops)@,
            ops@.len() == n,
            link_inv(s, ops@, stack@, index as int),
        decreases n - index,
    {
        proof {
            assert(ops@[index as int] == s[index as int]);
        }
        match ops[index] {
            Opcode::LoopStart(_) => {
                proof {
                    lemma_link_push(s, ops@, stack@, index as int);
                }
                stack.push(index);
            },
            Opcode::LoopEnd(_) => {
                if stack.len() == 0 {
                    proof {
                        assert(depth(s, index + 1) < 0);
                    }
                    proof {
                        assert(has_unexpected_end(s));
                        assert(same_shape(s, ops@));
                    }
                    return Err(CompileError::UnexpectedLoopEnd);
                }
                proof {
                    lemma_link_pop(s, ops@, stack@, index as int);
                }
                let start = stack.pop().unwrap();
                ops.set(start, Opcode::LoopStart(index));
                ops.set(index, Opcode::LoopEnd(start));
            },
            _ => {
                proof {
                    lemma_link_other(s, ops@, stack@, index as int);
                }
            },
        }
        index += 1;
    }
    if stack.len() != 0 {
        return Err(CompileError::UnclosedLoop);
    }
    proof {
        assert forall|i: int| 0 <= i < n implies #[trigger] boundary_linked(s, ops@, i) by {
            assert(link_entry(s, ops@, stack@, n as int, i));
        }
        lemma_linked_same_shape(s, ops@);
        lemma_is_linked_form(s, ops@);
    }
    Ok(())
}

} // verus!
