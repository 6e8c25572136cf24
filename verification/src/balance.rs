use vstd::prelude::*;

use crate::instr::{instr_count_ok, instrs_wf, BFInstr};
use crate::model::{
    close_n, close_one, init_comp, open_n, peephole, peephole_move_data, peephole_zero, push_open,
    push_run, push_simple, run_all, run_total, CompState,
};

verus! {

/// Index i is one of the open `LoopStart` placeholders.
pub open spec fn in_stack(stack: Seq<usize>, i: int) -> bool {
    exists|k: int| 0 <= k < stack.len() && stack[k] == i
}

pub open spec fn stack_increasing(stack: Seq<usize>) -> bool {
    forall|k1: int, k2: int| 0 <= k1 < k2 < stack.len() ==> stack[k1] < stack[k2]
}

/// A back-patched `LoopStart` (target non-zero) and its `LoopEnd` point at
/// each other.
pub open spec fn matched_start_ok(instrs: Seq<BFInstr>, i: int) -> bool {
    instrs[i] matches BFInstr::LoopStart(t) ==> (t != 0 ==> i < t < instrs.len() && instrs[t as int]
        == BFInstr::LoopEnd(i as usize))
}

pub open spec fn end_ok(instrs: Seq<BFInstr>, j: int) -> bool {
    instrs[j] matches BFInstr::LoopEnd(s) ==> s < j && instrs[s as int] == BFInstr::LoopStart(
        j as usize,
    )
}

/// No open placeholder lies inside an already matched pair.
pub open spec fn no_straddle(instrs: Seq<BFInstr>, stack: Seq<usize>, i: int, k: int) -> bool {
    instrs[i] matches BFInstr::LoopStart(t) ==> (t != 0 ==> stack[k] < i || stack[k] > t)
}

/// The invariant the compiler maintains: run-counts are positive; the loop
/// stack is strictly increasing and in range; an instruction is the
/// placeholder `LoopStart(0)` exactly when its index is on the stack; every
/// back-patched `LoopStart` and every `LoopEnd` point at each other; and no
/// open placeholder lies inside an already matched pair.
pub open spec fn comp_inv(instrs: Seq<BFInstr>, stack: Seq<usize>) -> bool {
    &&& forall|i: int| 0 <= i < instrs.len() ==> instr_count_ok(#[trigger] instrs[i])
    &&& stack_increasing(stack)
    &&& forall|k: int| 0 <= k < stack.len() ==> (#[trigger] stack[k]) < instrs.len()
    &&& forall|i: int|
        0 <= i < instrs.len() ==> (((#[trigger] instrs[i]) == BFInstr::LoopStart(0)) <==> in_stack(
            stack,
            i,
        ))
    &&& forall|i: int| 0 <= i < instrs.len() ==> #[trigger] matched_start_ok(instrs, i)
    &&& forall|j: int| 0 <= j < instrs.len() ==> #[trigger] end_ok(instrs, j)
    &&& forall|i: int, k: int|
        0 <= i < instrs.len() && 0 <= k < stack.len() ==> #[trigger] no_straddle(instrs, stack, i, k)
}

pub open spec fn st_inv(st: CompState) -> bool {
    comp_inv(st.instrs, st.stack)
}

/// Loop statistics never exceed the raw command count, and the instruction
/// vector never outgrows it.
pub open spec fn counts_ok(st: CompState) -> bool {
    st.opt_loops <= st.loops && st.loops <= st.count && st.instrs.len() <= st.count
}

pub proof fn lemma_init_inv()
    ensures
        st_inv(init_comp()),
        counts_ok(init_comp()),
{
}

/// A closed program (empty stack) satisfying the invariant is well-formed.
pub proof fn lemma_closed_wf(instrs: Seq<BFInstr>)
    requires
        comp_inv(instrs, Seq::empty()),
    ensures
        instrs_wf(instrs),
{
    assert forall|i: int|
        0 <= i < instrs.len() implies ((#[trigger] instrs[i]) matches BFInstr::LoopStart(t) ==> i
        < t < instrs.len() && instrs[t as int] == BFInstr::LoopEnd(i as usize)) by {
        if let BFInstr::LoopStart(t) = instrs[i] {
            assert(!in_stack(Seq::<usize>::empty(), i));
            assert(instrs[i] != BFInstr::LoopStart(0));
            assert(matched_start_ok(instrs, i));
        }
    }
    assert forall|j: int|
        0 <= j < instrs.len() implies ((#[trigger] instrs[j]) matches BFInstr::LoopEnd(s) ==> s < j
        && instrs[s as int] == BFInstr::LoopStart(j as usize)) by {
        assert(end_ok(instrs, j));
    }
}

pub proof fn lemma_push_simple_inv(st: CompState, instr: BFInstr, n: nat)
    requires
        st_inv(st),
        counts_ok(st),
        instr_count_ok(instr),
        !(instr matches BFInstr::LoopStart(_)),
        !(instr matches BFInstr::LoopEnd(_)),
        n >= 1,
    ensures
        st_inv(push_simple(st, instr, n)),
        counts_ok(push_simple(st, instr, n)),
        push_simple(st, instr, n).count <= st.count + n,
{
    if !st.failed {
        let instrs2 = st.instrs.push(instr);
        let len = st.instrs.len() as int;
        assert(forall|i: int| 0 <= i < len ==> instrs2[i] == st.instrs[i]);
        assert forall|i: int|
            0 <= i < instrs2.len() implies (((#[trigger] instrs2[i]) == BFInstr::LoopStart(0))
            <==> in_stack(st.stack, i)) by {
            if i == len {
                assert(instrs2[i] == instr);
                if in_stack(st.stack, i) {
                    let k = choose|k: int| 0 <= k < st.stack.len() && st.stack[k] == i;
                    assert(st.stack[k] < len);
                }
            }
        }
        assert forall|i: int| 0 <= i < instrs2.len() implies #[trigger] matched_start_ok(
            instrs2,
            i,
        ) by {
            if i < len {
                assert(matched_start_ok(st.instrs, i));
            }
        }
        assert forall|j: int| 0 <= j < instrs2.len() implies #[trigger] end_ok(instrs2, j) by {
            if j < len {
                assert(end_ok(st.instrs, j));
            }
        }
        assert forall|i: int, k: int|
            0 <= i < instrs2.len() && 0 <= k < st.stack.len() implies #[trigger] no_straddle(
            instrs2,
            st.stack,
            i,
            k,
        ) by {
            if i < len {
                assert(no_straddle(st.instrs, st.stack, i, k));
            }
        }
        assert(comp_inv(instrs2, st.stack));
    }
}

pub proof fn lemma_push_open_inv(st: CompState)
    requires
        st_inv(st),
        counts_ok(st),
        st.instrs.len() <= usize::MAX,
    ensures
        st_inv(push_open(st)),
        counts_ok(push_open(st)),
        push_open(st).count <= st.count + 1,
{
    if !st.failed {
        let len = st.instrs.len() as int;
        let instrs2 = st.instrs.push(BFInstr::LoopStart(0));
        let stack2 = st.stack.push(len as usize);
        assert(forall|i: int| 0 <= i < len ==> instrs2[i] == st.instrs[i]);
        assert(forall|k: int| 0 <= k < st.stack.len() ==> stack2[k] == st.stack[k]);
        assert(stack2[stack2.len() - 1] == len as usize);
        assert forall|k1: int, k2: int|
            0 <= k1 < k2 < stack2.len() implies stack2[k1] < stack2[k2] by {
            if k2 == stack2.len() - 1 {
                assert(st.stack[k1] < len);
            }
        }
        assert forall|i: int|
            0 <= i < instrs2.len() implies (((#[trigger] instrs2[i]) == BFInstr::LoopStart(0))
            <==> in_stack(stack2, i)) by {
            if i < len {
                if in_stack(st.stack, i) {
                    let k = choose|k: int| 0 <= k < st.stack.len() && st.stack[k] == i;
                    assert(stack2[k] == i);
                }
                if in_stack(stack2, i) {
                    let k = choose|k: int| 0 <= k < stack2.len() && stack2[k] == i;
                    assert(k < st.stack.len());
                    assert(st.stack[k] == i);
                }
            } else {
                assert(instrs2[i] == BFInstr::LoopStart(0));
            }
        }
        assert forall|i: int| 0 <= i < instrs2.len() implies #[trigger] matched_start_ok(
            instrs2,
            i,
        ) by {
            if i < len {
                assert(matched_start_ok(st.instrs, i));
            }
        }
        assert forall|j: int| 0 <= j < instrs2.len() implies #[trigger] end_ok(instrs2, j) by {
            if j < len {
                assert(end_ok(st.instrs, j));
            }
        }
        assert forall|i: int, k: int|
            0 <= i < instrs2.len() && 0 <= k < stack2.len() implies #[trigger] no_straddle(
            instrs2,
            stack2,
            i,
            k,
        ) by {
            if i < len {
                if let BFInstr::LoopStart(t) = instrs2[i] {
                    if t != 0 {
                        assert(matched_start_ok(st.instrs, i));
                        if k < st.stack.len() {
                            assert(no_straddle(st.instrs, st.stack, i, k));
                        } else {
                            assert(stack2[k] == len as usize);
                            assert(t < len);
                        }
                    }
                }
            }
        }
        assert(comp_inv(instrs2, stack2));
    }
}

/// Membership in a strictly increasing stack after dropping its top.
proof fn lemma_drop_last_membership(stack: Seq<usize>)
    requires
        stack.len() > 0,
        stack_increasing(stack),
    ensures
        forall|i: int|
            in_stack(stack.drop_last(), i) <==> (in_stack(stack, i) && i != stack.last()),
{
    let rest = stack.drop_last();
    assert forall|i: int|
        in_stack(rest, i) <==> (in_stack(stack, i) && i != stack.last()) by {
        if in_stack(rest, i) {
            let k = choose|k: int| 0 <= k < rest.len() && rest[k] == i;
            assert(stack[k] == i);
            assert(stack[k] < stack[stack.len() - 1]);
            assert(stack[stack.len() - 1] == stack.last());
        }
        if in_stack(stack, i) && i != stack.last() {
            let k = choose|k: int| 0 <= k < stack.len() && stack[k] == i;
            assert(stack[stack.len() - 1] == stack.last());
            assert(k != stack.len() - 1);
            assert(rest[k] == i);
        }
    }
}

/// The invariant holds of the back-patched sequence before the peephole pass.
proof fn lemma_patched_inv(st: CompState, start: int, len: int)
    requires
        st_inv(st),
        !st.failed,
        st.stack.len() > 0,
        start == st.stack.last() as int,
        len == st.instrs.len() as int,
        st.instrs.len() <= usize::MAX,
    ensures
        comp_inv(
            st.instrs.update(start, BFInstr::LoopStart(len as usize)).push(
                BFInstr::LoopEnd(start as usize),
            ),
            st.stack.drop_last(),
        ),
{
    let rest = st.stack.drop_last();
    let patched = st.instrs.update(start, BFInstr::LoopStart(len as usize)).push(
        BFInstr::LoopEnd(start as usize),
    );
    assert(in_stack(st.stack, start)) by {
        assert(st.stack[st.stack.len() - 1] == st.stack.last());
    }
    assert(st.instrs[start] == BFInstr::LoopStart(0));
    assert(0 <= start < len);
    lemma_drop_last_membership(st.stack);
    assert(forall|i: int| 0 <= i < len && i != start ==> patched[i] == st.instrs[i]);
    assert(patched[start] == BFInstr::LoopStart(len as usize));
    assert(patched[len] == BFInstr::LoopEnd(start as usize));
    assert forall|k: int| 0 <= k < rest.len() implies (#[trigger] rest[k]) < start by {
        assert(st.stack[k] == rest[k]);
        assert(st.stack[k] < st.stack[st.stack.len() - 1]);
        assert(st.stack[st.stack.len() - 1] == st.stack.last());
    }
    assert forall|i: int|
        0 <= i < patched.len() implies (((#[trigger] patched[i]) == BFInstr::LoopStart(0))
        <==> in_stack(rest, i)) by {
        if i == start || i == len {
            assert(patched[i] != BFInstr::LoopStart(0));
            if in_stack(rest, i) {
                let k = choose|k: int| 0 <= k < rest.len() && rest[k] == i;
                assert(rest[k] < start);
            }
        }
    }
    assert forall|i: int| 0 <= i < patched.len() implies #[trigger] matched_start_ok(
        patched,
        i,
    ) by {
        if let BFInstr::LoopStart(t) = patched[i] {
            if t != 0 {
                if i == start {
                    assert(t == len);
                } else {
                    assert(i < len);
                    assert(patched[i] == st.instrs[i]);
                    assert(matched_start_ok(st.instrs, i));
                    assert(i < t < len && st.instrs[t as int] == BFInstr::LoopEnd(i as usize));
                    assert(t != start);
                    assert(patched[t as int] == st.instrs[t as int]);
                }
            }
        }
    }
    assert forall|j: int| 0 <= j < patched.len() implies #[trigger] end_ok(patched, j) by {
        if let BFInstr::LoopEnd(s) = patched[j] {
            if j == len {
                assert(s == start);
            } else {
                assert(j < len && j != start);
                assert(patched[j] == st.instrs[j]);
                assert(end_ok(st.instrs, j));
                assert(s < j && st.instrs[s as int] == BFInstr::LoopStart(j as usize));
                assert(s != start) by {
                    if s == start {
                        assert(st.instrs[start] == BFInstr::LoopStart(0));
                    }
                }
                assert(patched[s as int] == st.instrs[s as int]);
            }
        }
    }
    assert forall|i: int, k: int|
        0 <= i < patched.len() && 0 <= k < rest.len() implies #[trigger] no_straddle(
        patched,
        rest,
        i,
        k,
    ) by {
        if let BFInstr::LoopStart(t) = patched[i] {
            if t != 0 {
                if i == start {
                    assert(rest[k] < start);
                } else {
                    assert(i < len && patched[i] == st.instrs[i]);
                    assert(st.stack[k] == rest[k]);
                    assert(no_straddle(st.instrs, st.stack, i, k));
                }
            }
        }
    }
}

/// The single instruction a peephole rewrite emits carries a positive count.
proof fn lemma_peephole_op_ok(body: Seq<BFInstr>, op: BFInstr)
    requires
        peephole(body) == Some(op),
        forall|i: int| 0 <= i < body.len() ==> instr_count_ok(#[trigger] body[i]),
    ensures
        instr_count_ok(op),
        !(op matches BFInstr::LoopStart(_)),
        !(op matches BFInstr::LoopEnd(_)),
{
    if peephole_zero(body) is Some {
    } else if peephole_move_data(body) is Some {
        assert(instr_count_ok(body[1]));
    } else {
        assert(instr_count_ok(body[0]));
    }
}

pub proof fn lemma_close_one_inv(st: CompState)
    requires
        st_inv(st),
        counts_ok(st),
        st.instrs.len() <= usize::MAX,
    ensures
        st_inv(close_one(st)),
        counts_ok(close_one(st)),
        close_one(st).count <= st.count + 1,
{
    if !st.failed && st.stack.len() > 0 {
        let start = st.stack.last() as int;
        let len = st.instrs.len() as int;
        let rest = st.stack.drop_last();
        assert(in_stack(st.stack, start)) by {
            assert(st.stack[st.stack.len() - 1] == st.stack.last());
        }
        assert(st.instrs[start] == BFInstr::LoopStart(0));
        assert(0 <= start < len);
        lemma_drop_last_membership(st.stack);
        let patched = st.instrs.update(start, BFInstr::LoopStart(len as usize)).push(
            BFInstr::LoopEnd(start as usize),
        );
        lemma_patched_inv(st, start, len);
        assert forall|k: int| 0 <= k < rest.len() implies (#[trigger] rest[k]) < start by {
            assert(st.stack[k] == rest[k]);
            assert(st.stack[k] < st.stack[st.stack.len() - 1]);
            assert(st.stack[st.stack.len() - 1] == st.stack.last());
        }
        let body = patched.subrange(start + 1, patched.len() - 1);
        match peephole(body) {
            Some(op) => {
                assert forall|i: int| 0 <= i < body.len() implies instr_count_ok(
                    #[trigger] body[i],
                ) by {
                    assert(body[i] == patched[start + 1 + i]);
                    if start + 1 + i != start && start + 1 + i != len {
                        assert(patched[start + 1 + i] == st.instrs[start + 1 + i]);
                    }
                }
                lemma_peephole_op_ok(body, op);
                let trimmed = patched.subrange(0, start).push(op);
                assert(trimmed.len() == start + 1);
                assert(forall|i: int| 0 <= i < start ==> trimmed[i] == st.instrs[i]);
                assert(trimmed[start] == op);
                assert forall|i: int|
                    0 <= i < trimmed.len() implies (((#[trigger] trimmed[i])
                    == BFInstr::LoopStart(0)) <==> in_stack(rest, i)) by {
                    if in_stack(rest, i) {
                        let k = choose|k: int| 0 <= k < rest.len() && rest[k] == i;
                        assert(rest[k] < start);
                        assert(st.stack[k] == rest[k]);
                    }
                    if i == start {
                        assert(trimmed[i] != BFInstr::LoopStart(0));
                    }
                }
                assert forall|i: int| 0 <= i < trimmed.len() implies #[trigger] matched_start_ok(
                    trimmed,
                    i,
                ) by {
                    if let BFInstr::LoopStart(t) = trimmed[i] {
                        if t != 0 {
                            assert(i < start);
                            assert(trimmed[i] == st.instrs[i]);
                            assert(matched_start_ok(st.instrs, i));
                            assert(i < t < len && st.instrs[t as int] == BFInstr::LoopEnd(
                                i as usize,
                            ));
                            // The matched pair cannot straddle the open start.
                            assert(no_straddle(st.instrs, st.stack, i, st.stack.len() - 1));
                            assert(st.stack[st.stack.len() - 1] == start as usize);
                            assert(t < start);
                            assert(trimmed[t as int] == st.instrs[t as int]);
                        }
                    }
                }
                assert forall|j: int| 0 <= j < trimmed.len() implies #[trigger] end_ok(
                    trimmed,
                    j,
                ) by {
                    if let BFInstr::LoopEnd(s) = trimmed[j] {
                        assert(j < start);
                        assert(st.instrs[j] == trimmed[j]);
                        assert(end_ok(st.instrs, j));
                        assert(st.instrs[s as int] == BFInstr::LoopStart(j as usize));
                        assert(trimmed[s as int] == st.instrs[s as int]);
                    }
                }
                assert forall|i: int, k: int|
                    0 <= i < trimmed.len() && 0 <= k < rest.len() implies #[trigger] no_straddle(
                    trimmed,
                    rest,
                    i,
                    k,
                ) by {
                    if let BFInstr::LoopStart(t) = trimmed[i] {
                        if t != 0 {
                            assert(i < start);
                            assert(trimmed[i] == st.instrs[i]);
                            assert(st.stack[k] == rest[k]);
                            assert(no_straddle(st.instrs, st.stack, i, k));
                        }
                    }
                }
                assert(comp_inv(trimmed, rest));
            },
            None => {},
        }
    }
}

pub proof fn lemma_open_n_inv(st: CompState, n: nat)
    requires
        st_inv(st),
        counts_ok(st),
        st.count + n <= usize::MAX,
    ensures
        st_inv(open_n(st, n)),
        counts_ok(open_n(st, n)),
        open_n(st, n).count <= st.count + n,
    decreases n,
{
    if n > 0 {
        lemma_open_n_inv(st, (n - 1) as nat);
        lemma_push_open_inv(open_n(st, (n - 1) as nat));
    }
}

pub proof fn lemma_close_n_inv(st: CompState, n: nat)
    requires
        st_inv(st),
        counts_ok(st),
        st.count + n <= usize::MAX,
    ensures
        st_inv(close_n(st, n)),
        counts_ok(close_n(st, n)),
        close_n(st, n).count <= st.count + n,
    decreases n,
{
    if n > 0 {
        lemma_close_n_inv(st, (n - 1) as nat);
        lemma_close_one_inv(close_n(st, (n - 1) as nat));
    }
}

/// Processing one fused run preserves the compiler invariant.
pub proof fn lemma_push_run_inv(st: CompState, ch: u8, n: nat)
    requires
        st_inv(st),
        counts_ok(st),
        n >= 1,
        st.count + n <= usize::MAX,
    ensures
        st_inv(push_run(st, ch, n)),
        counts_ok(push_run(st, ch, n)),
        push_run(st, ch, n).count <= st.count + n,
{
    lemma_open_n_inv(st, n);
    lemma_close_n_inv(st, n);
    lemma_push_simple_inv(st, BFInstr::IncPC(n as usize), n);
    lemma_push_simple_inv(st, BFInstr::DecPC(n as usize), n);
    lemma_push_simple_inv(st, BFInstr::IncVal(n as usize), n);
    lemma_push_simple_inv(st, BFInstr::DecVal(n as usize), n);
    lemma_push_simple_inv(st, BFInstr::Output(n as usize), n);
    lemma_push_simple_inv(st, BFInstr::Input(n as usize), n);
}

/// Folding runs that each carry a positive count preserves the invariant.
pub proof fn lemma_run_all_inv(st: CompState, runs: Seq<(u8, nat)>)
    requires
        st_inv(st),
        counts_ok(st),
        forall|k: int| 0 <= k < runs.len() ==> (#[trigger] runs[k]).1 >= 1,
        st.count + run_total(runs) <= usize::MAX,
    ensures
        st_inv(run_all(st, runs)),
        counts_ok(run_all(st, runs)),
        run_all(st, runs).count <= st.count + run_total(runs),
    decreases runs.len(),
{
    if runs.len() > 0 {
        assert forall|k: int|
            0 <= k < runs.drop_last().len() implies (#[trigger] runs.drop_last()[k]).1 >= 1 by {
            assert(runs[k].1 >= 1);
        }
        lemma_run_all_inv(st, runs.drop_last());
        assert(runs[runs.len() - 1].1 >= 1);
        lemma_push_run_inv(run_all(st, runs.drop_last()), runs.last().0, runs.last().1);
    }
}

} // verus!
