use vstd::prelude::*;

use crate::instr::{
    valid_bf_char_spec, BFInstr, CMD_CLOSE, CMD_DEC, CMD_IN, CMD_INC, CMD_LEFT, CMD_OPEN, CMD_OUT,
    CMD_RIGHT,
};

verus! {

/// The mathematical state of the compiler: the instruction vector built so
/// far, the stack of indices of open `LoopStart` placeholders, the raw
/// command count, the two loop statistics, and whether an unmatched `]` has
/// been seen (after which the state is frozen and compilation aborts).
pub ghost struct CompState {
    pub instrs: Seq<BFInstr>,
    pub stack: Seq<usize>,
    pub count: nat,
    pub loops: nat,
    pub opt_loops: nat,
    pub failed: bool,
}

/// The compiler's starting state.
pub open spec fn init_comp() -> CompState {
    CompState {
        instrs: Seq::empty(),
        stack: Seq::empty(),
        count: 0,
        loops: 0,
        opt_loops: 0,
        failed: false,
    }
}

/// Emit one fused non-bracket instruction whose run covers n source commands.
pub open spec fn push_simple(st: CompState, instr: BFInstr, n: nat) -> CompState {
    if st.failed {
        st
    } else {
        CompState { instrs: st.instrs.push(instr), count: st.count + n, ..st }
    }
}

/// Emit one `LoopStart` placeholder and push its index on the loop stack.
pub open spec fn push_open(st: CompState) -> CompState {
    if st.failed {
        st
    } else {
        CompState {
            stack: st.stack.push(st.instrs.len() as usize),
            instrs: st.instrs.push(BFInstr::LoopStart(0)),
            count: st.count + 1,
            ..st
        }
    }
}

/// The peephole rewriters, in the order the compiler tries them: clear-cell,
/// move-data, find-zero. The argument is the loop body strictly between the
/// brackets; the result is the single instruction that replaces the loop.
pub open spec fn peephole_zero(body: Seq<BFInstr>) -> Option<BFInstr> {
    if body.len() == 1 {
        match body[0] {
            BFInstr::DecVal(n) => if n == 1 {
                Some(BFInstr::ZeroCurrentCell)
            } else {
                None
            },
            BFInstr::ZeroCurrentCell => Some(BFInstr::ZeroCurrentCell),
            _ => None,
        }
    } else {
        None
    }
}

pub open spec fn peephole_move_data(body: Seq<BFInstr>) -> Option<BFInstr> {
    if body.len() == 4 && body[0] == BFInstr::DecVal(1) {
        match (body[1], body[2], body[3]) {
            (BFInstr::IncPC(d1), BFInstr::IncVal(b), BFInstr::DecPC(d2)) => if b == 1 && d1
                == d2 {
                Some(BFInstr::AddCellValueRight(d1))
            } else {
                None
            },
            (BFInstr::DecPC(d1), BFInstr::IncVal(b), BFInstr::IncPC(d2)) => if b == 1 && d1
                == d2 {
                Some(BFInstr::AddCellValueLeft(d1))
            } else {
                None
            },
            (BFInstr::IncPC(d1), BFInstr::DecVal(b), BFInstr::DecPC(d2)) => if b == 1 && d1
                == d2 {
                Some(BFInstr::SubCellValueRight(d1))
            } else {
                None
            },
            (BFInstr::DecPC(d1), BFInstr::DecVal(b), BFInstr::IncPC(d2)) => if b == 1 && d1
                == d2 {
                Some(BFInstr::SubCellValueLeft(d1))
            } else {
                None
            },
            _ => None,
        }
    } else {
        None
    }
}

pub open spec fn peephole_find_zero(body: Seq<BFInstr>) -> Option<BFInstr> {
    if body.len() == 1 {
        match body[0] {
            BFInstr::DecPC(s) => Some(BFInstr::FindZeroCellLeft(s)),
            BFInstr::IncPC(s) => Some(BFInstr::FindZeroCellRight(s)),
            _ => None,
        }
    } else {
        None
    }
}

/// The first matching rewriter wins.
pub open spec fn peephole(body: Seq<BFInstr>) -> Option<BFInstr> {
    if peephole_zero(body) is Some {
        peephole_zero(body)
    } else if peephole_move_data(body) is Some {
        peephole_move_data(body)
    } else {
        peephole_find_zero(body)
    }
}

/// Close one loop: pop the matching `LoopStart`, back-patch it with the index
/// of the new `LoopEnd`, emit the `LoopEnd`, and run the peephole pass on the
/// just-closed body. With no open loop the compilation fails.
pub open spec fn close_one(st: CompState) -> CompState {
    if st.failed {
        st
    } else if st.stack.len() == 0 {
        CompState { failed: true, ..st }
    } else {
        let start = st.stack.last();
        let end = st.instrs.len();
        let patched = st.instrs.update(start as int, BFInstr::LoopStart(end as usize)).push(
            BFInstr::LoopEnd(start),
        );
        let st1 = CompState {
            instrs: patched,
            stack: st.stack.drop_last(),
            count: st.count + 1,
            loops: st.loops + 1,
            ..st
        };
        let body = patched.subrange(start as int + 1, patched.len() - 1);
        match peephole(body) {
            Some(op) => CompState {
                instrs: patched.subrange(0, start as int).push(op),
                opt_loops: st.opt_loops + 1,
                ..st1
            },
            None => st1,
        }
    }
}

/// n opens in a row.
pub open spec fn open_n(st: CompState, n: nat) -> CompState
    decreases n,
{
    if n == 0 {
        st
    } else {
        push_open(open_n(st, (n - 1) as nat))
    }
}

/// n closes in a row.
pub open spec fn close_n(st: CompState, n: nat) -> CompState
    decreases n,
{
    if n == 0 {
        st
    } else {
        close_one(close_n(st, (n - 1) as nat))
    }
}

/// Process one fused run of n copies of the command byte ch.
pub open spec fn push_run(st: CompState, ch: u8, n: nat) -> CompState {
    if ch == CMD_RIGHT {
        push_simple(st, BFInstr::IncPC(n as usize), n)
    } else if ch == CMD_LEFT {
        push_simple(st, BFInstr::DecPC(n as usize), n)
    } else if ch == CMD_INC {
        push_simple(st, BFInstr::IncVal(n as usize), n)
    } else if ch == CMD_DEC {
        push_simple(st, BFInstr::DecVal(n as usize), n)
    } else if ch == CMD_OUT {
        push_simple(st, BFInstr::Output(n as usize), n)
    } else if ch == CMD_IN {
        push_simple(st, BFInstr::Input(n as usize), n)
    } else if ch == CMD_OPEN {
        open_n(st, n)
    } else if ch == CMD_CLOSE {
        close_n(st, n)
    } else {
        st
    }
}

/// The source bytes that are commands, in order.
pub open spec fn keep_cmds(s: Seq<u8>) -> Seq<u8>
    decreases s.len(),
{
    if s.len() == 0 {
        Seq::empty()
    } else if valid_bf_char_spec(s.last()) {
        keep_cmds(s.drop_last()).push(s.last())
    } else {
        keep_cmds(s.drop_last())
    }
}

/// Coalesce maximal runs of identical commands into (command, run-length).
pub open spec fn fuse(s: Seq<u8>) -> Seq<(u8, nat)>
    decreases s.len(),
{
    if s.len() == 0 {
        Seq::empty()
    } else {
        let r = fuse(s.drop_last());
        let ch = s.last();
        if r.len() > 0 && r.last().0 == ch {
            r.update(r.len() - 1, (ch, (r.last().1 + 1) as nat))
        } else {
            r.push((ch, 1))
        }
    }
}

/// The source text a sequence of runs stands for: each run expanded back
/// to its repeated command byte.
pub open spec fn unfuse(runs: Seq<(u8, nat)>) -> Seq<u8>
    decreases runs.len(),
{
    if runs.len() == 0 {
        Seq::empty()
    } else {
        unfuse(runs.drop_last()) + Seq::new(runs.last().1, |i: int| runs.last().0)
    }
}

/// Fusing loses no commands: expanding the runs gives the source back.
pub proof fn lemma_unfuse_fuse(s: Seq<u8>)
    ensures
        unfuse(fuse(s)) == s,
    decreases s.len(),
{
    if s.len() > 0 {
        lemma_unfuse_fuse(s.drop_last());
        let r = fuse(s.drop_last());
        let ch = s.last();
        if r.len() > 0 && r.last().0 == ch {
            let cnt = r.last().1;
            let updated = r.update(r.len() - 1, (ch, (cnt + 1) as nat));
            assert(fuse(s) == updated);
            assert(updated.drop_last() =~= r.drop_last());
            assert(updated.last() == (ch, (cnt + 1) as nat));
            assert(unfuse(updated) == unfuse(r.drop_last()) + Seq::new(
                (cnt + 1) as nat,
                |i: int| ch,
            ));
            assert(unfuse(r) == unfuse(r.drop_last()) + Seq::new(cnt, |i: int| ch));
            assert(unfuse(r.drop_last()) + Seq::new((cnt + 1) as nat, |i: int| ch) =~= (unfuse(
                r.drop_last(),
            ) + Seq::new(cnt, |i: int| ch)).push(ch));
            assert(s.drop_last().push(ch) =~= s);
        } else {
            let pushed = r.push((ch, 1));
            assert(fuse(s) == pushed);
            assert(pushed.drop_last() =~= r);
            assert(unfuse(pushed) == unfuse(r) + Seq::new(1, |i: int| ch));
            assert(unfuse(r) + Seq::new(1, |i: int| ch) =~= s.drop_last().push(ch));
            assert(s.drop_last().push(ch) =~= s);
        }
    }
}

/// Process a sequence of fused runs in order.
pub open spec fn run_all(st: CompState, runs: Seq<(u8, nat)>) -> CompState
    decreases runs.len(),
{
    if runs.len() == 0 {
        st
    } else {
        push_run(run_all(st, runs.drop_last()), runs.last().0, runs.last().1)
    }
}

/// What compiling a source text means: filter the command bytes, fuse the
/// runs, and fold the emit rules (with back-patching and the peephole pass)
/// over them, starting from the empty program.
pub open spec fn spec_compile(src: Seq<u8>) -> CompState {
    run_all(init_comp(), fuse(keep_cmds(src)))
}

/// Total number of source commands covered by a sequence of runs.
pub open spec fn run_total(runs: Seq<(u8, nat)>) -> nat
    decreases runs.len(),
{
    if runs.len() == 0 {
        0
    } else {
        run_total(runs.drop_last()) + runs.last().1
    }
}

/// Fusing never produces an empty run.
pub proof fn lemma_fuse_counts(s: Seq<u8>)
    ensures
        forall|k: int| 0 <= k < fuse(s).len() ==> (#[trigger] fuse(s)[k]).1 >= 1,
    decreases s.len(),
{
    if s.len() > 0 {
        lemma_fuse_counts(s.drop_last());
        let r = fuse(s.drop_last());
        let ch = s.last();
        if r.len() > 0 && r.last().0 == ch {
            let updated = r.update(r.len() - 1, (ch, (r.last().1 + 1) as nat));
            assert(fuse(s) == updated);
            assert forall|k: int| 0 <= k < updated.len() implies (#[trigger] updated[k]).1 >= 1 by {
                if k < r.len() - 1 {
                    assert(updated[k] == r[k]);
                    assert(r[k].1 >= 1);
                } else {
                    assert(updated[k] == (ch, (r.last().1 + 1) as nat));
                }
            }
        } else {
            let pushed = r.push((ch, 1));
            assert(fuse(s) == pushed);
            assert forall|k: int| 0 <= k < pushed.len() implies (#[trigger] pushed[k]).1 >= 1 by {
                if k < r.len() {
                    assert(pushed[k] == r[k]);
                    assert(r[k].1 >= 1);
                }
            }
        }
    }
}

/// Fusing preserves the total command count.
pub proof fn lemma_fuse_total(s: Seq<u8>)
    ensures
        run_total(fuse(s)) == s.len(),
    decreases s.len(),
{
    if s.len() > 0 {
        lemma_fuse_total(s.drop_last());
        let r = fuse(s.drop_last());
        let ch = s.last();
        if r.len() > 0 && r.last().0 == ch {
            let updated = r.update(r.len() - 1, (ch, (r.last().1 + 1) as nat));
            assert(fuse(s) == updated);
            assert(updated.drop_last() =~= r.drop_last());
            assert(updated.last() == (ch, (r.last().1 + 1) as nat));
            assert(run_total(updated) == run_total(r.drop_last()) + r.last().1 + 1);
            assert(run_total(r) == run_total(r.drop_last()) + r.last().1);
        } else {
            let pushed = r.push((ch, 1));
            assert(fuse(s) == pushed);
            assert(pushed.drop_last() =~= r);
            assert(run_total(pushed) == run_total(r) + 1);
        }
    }
}

/// Dropping comment bytes never lengthens the source.
pub proof fn lemma_keep_cmds_len(s: Seq<u8>)
    ensures
        keep_cmds(s).len() <= s.len(),
    decreases s.len(),
{
    if s.len() > 0 {
        lemma_keep_cmds_len(s.drop_last());
    }
}

} // verus!
