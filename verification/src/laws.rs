use vstd::prelude::*;

use crate::balance::{lemma_closed_wf, lemma_init_inv, lemma_run_all_inv, st_inv};
use crate::instr::{
    instrs_wf, valid_bf_char_spec, BFInstr, BF_MEMORY_SIZE, CMD_CLOSE, CMD_DEC, CMD_IN, CMD_INC,
    CMD_LEFT, CMD_OPEN, CMD_OUT, CMD_RIGHT,
};
use crate::machine::{
    cell_add_value, cell_sub_value, dispatch, exec_one, find_zero_left, find_zero_right,
    mach_valid, read_k, run_n, MachineState, RunState,
};
use crate::model::{
    fuse, init_comp, keep_cmds, lemma_fuse_counts, lemma_fuse_total, lemma_keep_cmds_len,
    lemma_unfuse_fuse, push_run, push_simple, run_all, run_total, spec_compile, unfuse, CompState,
};
use crate::jit::{
    init_jit, jit_ops_of, jit_push_run, jit_run_all, jit_simple, spec_lower, JitState, LoweredOp,
};
use crate::program::BFProgram;

verus! {

/// The program is what compiling `src` produces.
pub open spec fn compiled_from(p: BFProgram, src: Seq<u8>) -> bool {
    let st = spec_compile(src);
    &&& !st.failed
    &&& st.stack.len() == 0
    &&& p.instructions@ == st.instrs
    &&& p.instr_count as nat == st.count
    &&& p.stats.loop_count as nat == st.loops
    &&& p.stats.optimized_loop_count as nat == st.opt_loops
}

/// Bracket balance: after any successful compilation, every `LoopStart(t)`
/// has `instrs[t] == LoopEnd` pointing back at it, and every `LoopEnd(s)`
/// has `instrs[s] == LoopStart` pointing back at it.
pub proof fn lemma_bracket_balance(p: BFProgram, src: Seq<u8>)
    requires
        compiled_from(p, src),
        src.len() <= usize::MAX,
    ensures
        forall|i: int|
            0 <= i < p.instructions@.len() ==> ((#[trigger] p.instructions@[i]) matches
                BFInstr::LoopStart(t) ==> i < t < p.instructions@.len() && p.instructions@[t as int]
                == BFInstr::LoopEnd(i as usize)),
        forall|j: int|
            0 <= j < p.instructions@.len() ==> ((#[trigger] p.instructions@[j]) matches
                BFInstr::LoopEnd(s) ==> s < j && p.instructions@[s as int] == BFInstr::LoopStart(
                j as usize,
            )),
{
    lemma_compiled_wf(p, src);
}

/// A successful compilation yields a well-formed instruction sequence.
pub proof fn lemma_compiled_wf(p: BFProgram, src: Seq<u8>)
    requires
        compiled_from(p, src),
        src.len() <= usize::MAX,
    ensures
        instrs_wf(p.instructions@),
{
    let cmds = keep_cmds(src);
    let runs = fuse(cmds);
    lemma_init_inv();
    lemma_fuse_counts(cmds);
    lemma_fuse_total(cmds);
    lemma_keep_cmds_len(src);
    assert(run_total(runs) <= src.len());
    lemma_run_all_inv(init_comp(), runs);
    assert(st_inv(spec_compile(src)));
    assert(spec_compile(src).stack =~= Seq::<usize>::empty());
    lemma_closed_wf(spec_compile(src).instrs);
}

/// Idempotence of compilation: compiling the same source twice, into two
/// separate programs, yields identical instructions, counts and statistics.
pub proof fn lemma_compile_deterministic(p1: BFProgram, p2: BFProgram, src: Seq<u8>)
    requires
        compiled_from(p1, src),
        compiled_from(p2, src),
    ensures
        p1.instructions@ == p2.instructions@,
        p1.instr_count == p2.instr_count,
        p1.stats.loop_count == p2.stats.loop_count,
        p1.stats.optimized_loop_count == p2.stats.optimized_loop_count,
{
}

/// Wrap semantics: cell arithmetic is mod 256; incrementing 255 yields 0 and
/// decrementing 0 yields 255.
pub proof fn lemma_cell_wrap(v: u8, amt: nat)
    ensures
        cell_add_value(v, amt) == ((v + amt) % 256) as u8,
        cell_sub_value(v, amt) == ((v - amt) % 256) as u8,
        cell_add_value(255u8, 1) == 0u8,
        cell_sub_value(0u8, 1) == 255u8,
{
}

/// The program, started in `start`, halts in exactly the state `fin`.
pub open spec fn runs_to(prog: Seq<BFInstr>, start: MachineState, fin: MachineState) -> bool {
    exists|fuel: nat| run_n(prog, start, fuel) == RunState::Done(fin)
}

/// A state past the end of the program has halted where it is.
proof fn lemma_runs_to_here(prog: Seq<BFInstr>, s: MachineState)
    requires
        s.pc >= prog.len(),
    ensures
        runs_to(prog, s, s),
{
    reveal(run_n);
    assert(run_n(prog, s, 0) == RunState::Done(s));
}

/// Prepend one successful step to a halting execution.
proof fn lemma_runs_to_step(
    prog: Seq<BFInstr>,
    s: MachineState,
    s2: MachineState,
    fin: MachineState,
)
    requires
        0 <= s.pc < prog.len(),
        exec_one(prog, s) == Some(s2),
        runs_to(prog, s2, fin),
    ensures
        runs_to(prog, s, fin),
{
    let fuel = choose|fuel: nat| run_n(prog, s2, fuel) == RunState::Done(fin);
    reveal(run_n);
    assert(run_n(prog, s, fuel + 1) == run_n(prog, s2, fuel));
}

/// The clear-cell loop `[-]` as the compiler emits it before rewriting.
pub open spec fn clear_loop_prog() -> Seq<BFInstr> {
    seq![BFInstr::LoopStart(2), BFInstr::DecVal(1), BFInstr::LoopEnd(0)]
}

proof fn lemma_clear_body(tape: Seq<u8>, dp: int, input: Seq<u8>, output: Seq<u8>)
    requires
        0 <= dp < BF_MEMORY_SIZE,
        tape.len() == BF_MEMORY_SIZE,
        tape[dp] != 0,
    ensures
        runs_to(
            clear_loop_prog(),
            MachineState { pc: 1, dp: dp, tape: tape, input: input, output: output },
            MachineState { pc: 3, dp: dp, tape: tape.update(dp, 0), input: input, output: output },
        ),
    decreases tape[dp],
{
    reveal(dispatch);
    let prog = clear_loop_prog();
    let s1 = MachineState { pc: 1, dp: dp, tape: tape, input: input, output: output };
    let v = tape[dp];
    let tape2 = tape.update(dp, cell_sub_value(v, 1));
    let s2 = MachineState { pc: 2, tape: tape2, ..s1 };
    assert(exec_one(prog, s1) == Some(s2));
    assert(tape2[dp] == cell_sub_value(v, 1));
    assert(cell_sub_value(v, 1) == v - 1) by {
        assert((v - 1) % 256 == v - 1);
    }
    if v == 1 {
        let s3 = MachineState { pc: 3, ..s2 };
        assert(exec_one(prog, s2) == Some(s3));
        lemma_runs_to_here(prog, s3);
        assert(tape2 =~= tape.update(dp, 0));
        lemma_runs_to_step(prog, s2, s3, s3);
        lemma_runs_to_step(prog, s1, s2, s3);
    } else {
        let s3 = MachineState { pc: 1, ..s2 };
        assert(exec_one(prog, s2) == Some(s3));
        lemma_clear_body(tape2, dp, input, output);
        let fin = MachineState {
            pc: 3,
            dp: dp,
            tape: tape2.update(dp, 0),
            input: input,
            output: output,
        };
        assert(tape2.update(dp, 0) =~= tape.update(dp, 0));
        lemma_runs_to_step(prog, s2, s3, fin);
        lemma_runs_to_step(prog, s1, s2, fin);
    }
}

/// Optimization soundness, clear-cell: the loop `[-]` and its rewrite
/// `ZeroCurrentCell` halt with identical tape, data pointer and I/O, for
/// every starting cell value and surrounding tape.
pub proof fn lemma_clear_cell_sound(tape: Seq<u8>, dp: int, input: Seq<u8>, output: Seq<u8>)
    requires
        0 <= dp < BF_MEMORY_SIZE,
        tape.len() == BF_MEMORY_SIZE,
    ensures
        runs_to(
            clear_loop_prog(),
            MachineState { pc: 0, dp: dp, tape: tape, input: input, output: output },
            MachineState { pc: 3, dp: dp, tape: tape.update(dp, 0), input: input, output: output },
        ),
        runs_to(
            seq![BFInstr::ZeroCurrentCell],
            MachineState { pc: 0, dp: dp, tape: tape, input: input, output: output },
            MachineState { pc: 1, dp: dp, tape: tape.update(dp, 0), input: input, output: output },
        ),
{
    reveal(dispatch);
    let opt = seq![BFInstr::ZeroCurrentCell];
    let o0 = MachineState { pc: 0, dp: dp, tape: tape, input: input, output: output };
    let o1 = MachineState { pc: 1, tape: tape.update(dp, 0), ..o0 };
    assert(exec_one(opt, o0) == Some(o1));
    lemma_runs_to_here(opt, o1);
    lemma_runs_to_step(opt, o0, o1, o1);
    let prog = clear_loop_prog();
    let s0 = MachineState { pc: 0, dp: dp, tape: tape, input: input, output: output };
    if tape[dp] == 0 {
        let s3 = MachineState { pc: 3, ..s0 };
        assert(exec_one(prog, s0) == Some(s3));
        lemma_runs_to_here(prog, s3);
        assert(tape.update(dp, 0) =~= tape);
        lemma_runs_to_step(prog, s0, s3, s3);
    } else {
        let s1 = MachineState { pc: 1, ..s0 };
        assert(exec_one(prog, s0) == Some(s1));
        lemma_clear_body(tape, dp, input, output);
        lemma_runs_to_step(
            prog,
            s0,
            s1,
            MachineState { pc: 3, dp: dp, tape: tape.update(dp, 0), input: input, output: output },
        );
    }
}

/// The find-zero loop `[<]` (with a fused step) as the compiler emits it.
pub open spec fn find_left_loop_prog(s: usize) -> Seq<BFInstr> {
    seq![BFInstr::LoopStart(2), BFInstr::DecPC(s), BFInstr::LoopEnd(0)]
}

proof fn lemma_find_left_body(tape: Seq<u8>, dp: int, s: usize, input: Seq<u8>, output: Seq<u8>)
    requires
        0 <= dp < BF_MEMORY_SIZE,
        tape.len() == BF_MEMORY_SIZE,
        s >= 1,
        tape[dp] != 0,
        find_zero_left(tape, dp, s as int) is Some,
    ensures
        runs_to(
            find_left_loop_prog(s),
            MachineState { pc: 1, dp: dp, tape: tape, input: input, output: output },
            MachineState {
                pc: 3,
                dp: find_zero_left(tape, dp, s as int).unwrap(),
                tape: tape,
                input: input,
                output: output,
            },
        ),
    decreases dp,
{
    reveal(dispatch);
    let prog = find_left_loop_prog(s);
    let s1 = MachineState { pc: 1, dp: dp, tape: tape, input: input, output: output };
    assert(dp - s >= 0);
    let s2 = MachineState { pc: 2, dp: dp - s, ..s1 };
    assert(exec_one(prog, s1) == Some(s2));
    if tape[dp - s] == 0 {
        let s3 = MachineState { pc: 3, ..s2 };
        assert(exec_one(prog, s2) == Some(s3));
        lemma_runs_to_here(prog, s3);
        lemma_runs_to_step(prog, s2, s3, s3);
        lemma_runs_to_step(prog, s1, s2, s3);
        assert(find_zero_left(tape, dp, s as int).unwrap() == dp - s);
    } else {
        let s3 = MachineState { pc: 1, ..s2 };
        assert(exec_one(prog, s2) == Some(s3));
        lemma_find_left_body(tape, dp - s, s, input, output);
        let fin = MachineState {
            pc: 3,
            dp: find_zero_left(tape, dp - s, s as int).unwrap(),
            tape: tape,
            input: input,
            output: output,
        };
        lemma_runs_to_step(prog, s2, s3, fin);
        lemma_runs_to_step(prog, s1, s2, fin);
        assert(find_zero_left(tape, dp, s as int) == find_zero_left(tape, dp - s, s as int));
    }
}

/// Optimization soundness, find-zero left: the loop `[<]` and its rewrite
/// `FindZeroCellLeft` halt with identical tape, data pointer and I/O,
/// whenever the scan stays on the tape.
pub proof fn lemma_find_zero_left_sound(
    tape: Seq<u8>,
    dp: int,
    s: usize,
    input: Seq<u8>,
    output: Seq<u8>,
)
    requires
        0 <= dp < BF_MEMORY_SIZE,
        tape.len() == BF_MEMORY_SIZE,
        s >= 1,
        find_zero_left(tape, dp, s as int) is Some,
    ensures
        runs_to(
            find_left_loop_prog(s),
            MachineState { pc: 0, dp: dp, tape: tape, input: input, output: output },
            MachineState {
                pc: 3,
                dp: find_zero_left(tape, dp, s as int).unwrap(),
                tape: tape,
                input: input,
                output: output,
            },
        ),
        runs_to(
            seq![BFInstr::FindZeroCellLeft(s)],
            MachineState { pc: 0, dp: dp, tape: tape, input: input, output: output },
            MachineState {
                pc: 1,
                dp: find_zero_left(tape, dp, s as int).unwrap(),
                tape: tape,
                input: input,
                output: output,
            },
        ),
{
    reveal(dispatch);
    let fin_dp = find_zero_left(tape, dp, s as int).unwrap();
    let opt = seq![BFInstr::FindZeroCellLeft(s)];
    let o0 = MachineState { pc: 0, dp: dp, tape: tape, input: input, output: output };
    let o1 = MachineState { pc: 1, dp: fin_dp, ..o0 };
    assert(exec_one(opt, o0) == Some(o1));
    lemma_runs_to_here(opt, o1);
    lemma_runs_to_step(opt, o0, o1, o1);
    let prog = find_left_loop_prog(s);
    let s0 = MachineState { pc: 0, dp: dp, tape: tape, input: input, output: output };
    if tape[dp] == 0 {
        assert(fin_dp == dp);
        let s3 = MachineState { pc: 3, ..s0 };
        assert(exec_one(prog, s0) == Some(s3));
        lemma_runs_to_here(prog, s3);
        lemma_runs_to_step(prog, s0, s3, s3);
    } else {
        let s1 = MachineState { pc: 1, ..s0 };
        assert(exec_one(prog, s0) == Some(s1));
        lemma_find_left_body(tape, dp, s, input, output);
        lemma_runs_to_step(
            prog,
            s0,
            s1,
            MachineState { pc: 3, dp: fin_dp, tape: tape, input: input, output: output },
        );
    }
}

/// The find-zero loop `[>]` (with a fused step) as the compiler emits it.
pub open spec fn find_right_loop_prog(s: usize) -> Seq<BFInstr> {
    seq![BFInstr::LoopStart(2), BFInstr::IncPC(s), BFInstr::LoopEnd(0)]
}

proof fn lemma_find_right_body(tape: Seq<u8>, dp: int, s: usize, input: Seq<u8>, output: Seq<u8>)
    requires
        0 <= dp < BF_MEMORY_SIZE,
        tape.len() == BF_MEMORY_SIZE,
        s >= 1,
        tape[dp] != 0,
        find_zero_right(tape, dp, s as int) is Some,
    ensures
        runs_to(
            find_right_loop_prog(s),
            MachineState { pc: 1, dp: dp, tape: tape, input: input, output: output },
            MachineState {
                pc: 3,
                dp: find_zero_right(tape, dp, s as int).unwrap(),
                tape: tape,
                input: input,
                output: output,
            },
        ),
    decreases BF_MEMORY_SIZE - dp,
{
    reveal(dispatch);
    let prog = find_right_loop_prog(s);
    let s1 = MachineState { pc: 1, dp: dp, tape: tape, input: input, output: output };
    assert(dp + s < BF_MEMORY_SIZE);
    let s2 = MachineState { pc: 2, dp: dp + s, ..s1 };
    assert(exec_one(prog, s1) == Some(s2));
    if tape[dp + s] == 0 {
        let s3 = MachineState { pc: 3, ..s2 };
        assert(exec_one(prog, s2) == Some(s3));
        lemma_runs_to_here(prog, s3);
        lemma_runs_to_step(prog, s2, s3, s3);
        lemma_runs_to_step(prog, s1, s2, s3);
        assert(find_zero_right(tape, dp, s as int).unwrap() == dp + s);
    } else {
        let s3 = MachineState { pc: 1, ..s2 };
        assert(exec_one(prog, s2) == Some(s3));
        lemma_find_right_body(tape, dp + s, s, input, output);
        let fin = MachineState {
            pc: 3,
            dp: find_zero_right(tape, dp + s, s as int).unwrap(),
            tape: tape,
            input: input,
            output: output,
        };
        lemma_runs_to_step(prog, s2, s3, fin);
        lemma_runs_to_step(prog, s1, s2, fin);
        assert(find_zero_right(tape, dp, s as int) == find_zero_right(tape, dp + s, s as int));
    }
}

/// Optimization soundness, find-zero right: the loop `[>]` and its rewrite
/// `FindZeroCellRight` halt with identical tape, data pointer and I/O,
/// whenever the scan stays on the tape.
pub proof fn lemma_find_zero_right_sound(
    tape: Seq<u8>,
    dp: int,
    s: usize,
    input: Seq<u8>,
    output: Seq<u8>,
)
    requires
        0 <= dp < BF_MEMORY_SIZE,
        tape.len() == BF_MEMORY_SIZE,
        s >= 1,
        find_zero_right(tape, dp, s as int) is Some,
    ensures
        runs_to(
            find_right_loop_prog(s),
            MachineState { pc: 0, dp: dp, tape: tape, input: input, output: output },
            MachineState {
                pc: 3,
                dp: find_zero_right(tape, dp, s as int).unwrap(),
                tape: tape,
                input: input,
                output: output,
            },
        ),
        runs_to(
            seq![BFInstr::FindZeroCellRight(s)],
            MachineState { pc: 0, dp: dp, tape: tape, input: input, output: output },
            MachineState {
                pc: 1,
                dp: find_zero_right(tape, dp, s as int).unwrap(),
                tape: tape,
                input: input,
                output: output,
            },
        ),
{
    reveal(dispatch);
    let fin_dp = find_zero_right(tape, dp, s as int).unwrap();
    let opt = seq![BFInstr::FindZeroCellRight(s)];
    let o0 = MachineState { pc: 0, dp: dp, tape: tape, input: input, output: output };
    let o1 = MachineState { pc: 1, dp: fin_dp, ..o0 };
    assert(exec_one(opt, o0) == Some(o1));
    lemma_runs_to_here(opt, o1);
    lemma_runs_to_step(opt, o0, o1, o1);
    let prog = find_right_loop_prog(s);
    let s0 = MachineState { pc: 0, dp: dp, tape: tape, input: input, output: output };
    if tape[dp] == 0 {
        assert(fin_dp == dp);
        let s3 = MachineState { pc: 3, ..s0 };
        assert(exec_one(prog, s0) == Some(s3));
        lemma_runs_to_here(prog, s3);
        lemma_runs_to_step(prog, s0, s3, s3);
    } else {
        let s1 = MachineState { pc: 1, ..s0 };
        assert(exec_one(prog, s0) == Some(s1));
        lemma_find_right_body(tape, dp, s, input, output);
        lemma_runs_to_step(
            prog,
            s0,
            s1,
            MachineState { pc: 3, dp: fin_dp, tape: tape, input: input, output: output },
        );
    }
}

/// The move-data loop `[->+<]` (with fused distances) as the compiler
/// emits it.
pub open spec fn add_right_loop_prog(d: usize) -> Seq<BFInstr> {
    seq![
        BFInstr::LoopStart(5),
        BFInstr::DecVal(1),
        BFInstr::IncPC(d),
        BFInstr::IncVal(1),
        BFInstr::DecPC(d),
        BFInstr::LoopEnd(0),
    ]
}

#[verifier::rlimit(100)]
#[verifier::spinoff_prover]
proof fn lemma_add_right_body(tape: Seq<u8>, dp: int, d: usize, input: Seq<u8>, output: Seq<u8>)
    requires
        0 <= dp < BF_MEMORY_SIZE,
        dp + d < BF_MEMORY_SIZE,
        d >= 1,
        tape.len() == BF_MEMORY_SIZE,
        tape[dp] != 0,
    ensures
        runs_to(
            add_right_loop_prog(d),
            MachineState { pc: 1, dp: dp, tape: tape, input: input, output: output },
            MachineState {
                pc: 6,
                dp: dp,
                tape: tape.update(dp + d, cell_add_value(tape[dp + d], tape[dp] as nat)).update(dp, 0),
                input: input,
                output: output,
            },
        ),
    decreases tape[dp],
{
    let prog = add_right_loop_prog(d);
    let v = tape[dp];
    let w = tape[dp + d];
    let s1 = MachineState { pc: 1, dp: dp, tape: tape, input: input, output: output };
    let tape2 = tape.update(dp, cell_sub_value(v, 1));
    assert(cell_sub_value(v, 1) == v - 1) by {
        assert((v - 1) % 256 == v - 1);
    }
    let s2 = MachineState { pc: 2, tape: tape2, ..s1 };
    assert(exec_one(prog, s1) == Some(s2)) by {
        reveal(dispatch);
    }
    let s3 = MachineState { pc: 3, dp: dp + d, ..s2 };
    assert(exec_one(prog, s2) == Some(s3)) by {
        reveal(dispatch);
    }
    assert(tape2[dp + d] == w);
    let tape3 = tape2.update(dp + d, cell_add_value(w, 1));
    let s4 = MachineState { pc: 4, tape: tape3, ..s3 };
    assert(exec_one(prog, s3) == Some(s4)) by {
        reveal(dispatch);
    }
    let s5 = MachineState { pc: 5, dp: dp, ..s4 };
    assert(exec_one(prog, s4) == Some(s5)) by {
        reveal(dispatch);
    }
    assert(tape3[dp] == v - 1);
    let target = tape.update(dp + d, cell_add_value(w, v as nat)).update(dp, 0);
    if v == 1 {
        let s6 = MachineState { pc: 6, ..s5 };
        assert(exec_one(prog, s5) == Some(s6)) by {
        reveal(dispatch);
    }
        lemma_runs_to_here(prog, s6);
        assert(tape3 =~= target);
        lemma_runs_to_step(prog, s5, s6, s6);
        lemma_runs_to_step(prog, s4, s5, s6);
        lemma_runs_to_step(prog, s3, s4, s6);
        lemma_runs_to_step(prog, s2, s3, s6);
        lemma_runs_to_step(prog, s1, s2, s6);
    } else {
        let s6 = MachineState { pc: 1, ..s5 };
        assert(exec_one(prog, s5) == Some(s6)) by {
        reveal(dispatch);
    }
        lemma_add_right_body(tape3, dp, d, input, output);
        let ih_target = tape3.update(dp + d, cell_add_value(tape3[dp + d], tape3[dp] as nat)).update(dp, 0);
        let fin = MachineState {
            pc: 6,
            dp: dp,
            tape: ih_target,
            input: input,
            output: output,
        };
        assert(cell_add_value(tape3[dp + d], tape3[dp] as nat) == cell_add_value(w, v as nat)) by {
            vstd::arithmetic::div_mod::lemma_add_mod_noop(cell_add_value(w, 1) as int, v - 1, 256);
        }
        assert(ih_target =~= target);
        lemma_runs_to_step(prog, s5, s6, fin);
        lemma_runs_to_step(prog, s4, s5, fin);
        lemma_runs_to_step(prog, s3, s4, fin);
        lemma_runs_to_step(prog, s2, s3, fin);
        lemma_runs_to_step(prog, s1, s2, fin);
    }
}

/// Optimization soundness, move-data: the loop `[->+<]` and its rewrite
/// `AddCellValueRight` halt with identical tape, data pointer and I/O, for
/// every starting cell value and surrounding tape within bounds.
pub proof fn lemma_add_right_sound(tape: Seq<u8>, dp: int, d: usize, input: Seq<u8>, output: Seq<u8>)
    requires
        0 <= dp < BF_MEMORY_SIZE,
        dp + d < BF_MEMORY_SIZE,
        d >= 1,
        tape.len() == BF_MEMORY_SIZE,
    ensures
        runs_to(
            add_right_loop_prog(d),
            MachineState { pc: 0, dp: dp, tape: tape, input: input, output: output },
            MachineState {
                pc: 6,
                dp: dp,
                tape: tape.update(dp + d, cell_add_value(tape[dp + d], tape[dp] as nat)).update(dp, 0),
                input: input,
                output: output,
            },
        ),
        runs_to(
            seq![BFInstr::AddCellValueRight(d)],
            MachineState { pc: 0, dp: dp, tape: tape, input: input, output: output },
            MachineState {
                pc: 1,
                dp: dp,
                tape: tape.update(dp + d, cell_add_value(tape[dp + d], tape[dp] as nat)).update(dp, 0),
                input: input,
                output: output,
            },
        ),
{
    let v = tape[dp];
    let w = tape[dp + d];
    let target = tape.update(dp + d, cell_add_value(w, v as nat)).update(dp, 0);
    let opt = seq![BFInstr::AddCellValueRight(d)];
    let o0 = MachineState { pc: 0, dp: dp, tape: tape, input: input, output: output };
    if v == 0 {
        assert(cell_add_value(w, 0) == w);
        assert(target =~= tape);
        let o1 = MachineState { pc: 1, ..o0 };
        assert(exec_one(opt, o0) == Some(o1)) by {
        reveal(dispatch);
    }
        lemma_runs_to_here(opt, o1);
        lemma_runs_to_step(opt, o0, o1, o1);
        let prog = add_right_loop_prog(d);
        let s6 = MachineState { pc: 6, ..o0 };
        assert(exec_one(prog, o0) == Some(s6)) by {
        reveal(dispatch);
    }
        lemma_runs_to_here(prog, s6);
        lemma_runs_to_step(prog, o0, s6, s6);
    } else {
        let o1 = MachineState { pc: 1, tape: target, ..o0 };
        assert(exec_one(opt, o0) == Some(o1)) by {
        reveal(dispatch);
    }
        lemma_runs_to_here(opt, o1);
        lemma_runs_to_step(opt, o0, o1, o1);
        let prog = add_right_loop_prog(d);
        let s1 = MachineState { pc: 1, ..o0 };
        assert(exec_one(prog, o0) == Some(s1)) by {
        reveal(dispatch);
    }
        lemma_add_right_body(tape, dp, d, input, output);
        lemma_runs_to_step(
            prog,
            o0,
            s1,
            MachineState { pc: 6, dp: dp, tape: target, input: input, output: output },
        );
    }
}

/// The move-data loop `[-<+>]` (with fused distances) as the compiler
/// emits it.
pub open spec fn add_left_loop_prog(d: usize) -> Seq<BFInstr> {
    seq![
        BFInstr::LoopStart(5),
        BFInstr::DecVal(1),
        BFInstr::DecPC(d),
        BFInstr::IncVal(1),
        BFInstr::IncPC(d),
        BFInstr::LoopEnd(0),
    ]
}

#[verifier::rlimit(100)]
#[verifier::spinoff_prover]
proof fn lemma_add_left_body(tape: Seq<u8>, dp: int, d: usize, input: Seq<u8>, output: Seq<u8>)
    requires
        0 <= dp < BF_MEMORY_SIZE,
        dp - d >= 0,
        d >= 1,
        tape.len() == BF_MEMORY_SIZE,
        tape[dp] != 0,
    ensures
        runs_to(
            add_left_loop_prog(d),
            MachineState { pc: 1, dp: dp, tape: tape, input: input, output: output },
            MachineState {
                pc: 6,
                dp: dp,
                tape: tape.update(dp - d, cell_add_value(tape[dp - d], tape[dp] as nat)).update(dp, 0),
                input: input,
                output: output,
            },
        ),
    decreases tape[dp],
{
    let prog = add_left_loop_prog(d);
    let v = tape[dp];
    let w = tape[dp - d];
    let s1 = MachineState { pc: 1, dp: dp, tape: tape, input: input, output: output };
    let tape2 = tape.update(dp, cell_sub_value(v, 1));
    assert(cell_sub_value(v, 1) == v - 1) by {
        assert((v - 1) % 256 == v - 1);
    }
    let s2 = MachineState { pc: 2, tape: tape2, ..s1 };
    assert(exec_one(prog, s1) == Some(s2)) by {
        reveal(dispatch);
    }
    let s3 = MachineState { pc: 3, dp: dp - d, ..s2 };
    assert(exec_one(prog, s2) == Some(s3)) by {
        reveal(dispatch);
    }
    assert(tape2[dp - d] == w);
    let tape3 = tape2.update(dp - d, cell_add_value(w, 1));
    let s4 = MachineState { pc: 4, tape: tape3, ..s3 };
    assert(exec_one(prog, s3) == Some(s4)) by {
        reveal(dispatch);
    }
    let s5 = MachineState { pc: 5, dp: dp, ..s4 };
    assert(exec_one(prog, s4) == Some(s5)) by {
        reveal(dispatch);
    }
    assert(tape3[dp] == v - 1);
    let target = tape.update(dp - d, cell_add_value(w, v as nat)).update(dp, 0);
    if v == 1 {
        let s6 = MachineState { pc: 6, ..s5 };
        assert(exec_one(prog, s5) == Some(s6)) by {
        reveal(dispatch);
    }
        lemma_runs_to_here(prog, s6);
        assert(tape3 =~= target);
        lemma_runs_to_step(prog, s5, s6, s6);
        lemma_runs_to_step(prog, s4, s5, s6);
        lemma_runs_to_step(prog, s3, s4, s6);
        lemma_runs_to_step(prog, s2, s3, s6);
        lemma_runs_to_step(prog, s1, s2, s6);
    } else {
        let s6 = MachineState { pc: 1, ..s5 };
        assert(exec_one(prog, s5) == Some(s6)) by {
        reveal(dispatch);
    }
        lemma_add_left_body(tape3, dp, d, input, output);
        let ih_target = tape3.update(dp - d, cell_add_value(tape3[dp - d], tape3[dp] as nat)).update(dp, 0);
        let fin = MachineState {
            pc: 6,
            dp: dp,
            tape: ih_target,
            input: input,
            output: output,
        };
        assert(cell_add_value(tape3[dp - d], tape3[dp] as nat) == cell_add_value(w, v as nat)) by {
            vstd::arithmetic::div_mod::lemma_add_mod_noop(cell_add_value(w, 1) as int, v - 1, 256);
        }
        assert(ih_target =~= target);
        lemma_runs_to_step(prog, s5, s6, fin);
        lemma_runs_to_step(prog, s4, s5, fin);
        lemma_runs_to_step(prog, s3, s4, fin);
        lemma_runs_to_step(prog, s2, s3, fin);
        lemma_runs_to_step(prog, s1, s2, fin);
    }
}

/// Optimization soundness, move-data: the loop `[-<+>]` and its rewrite
/// `AddCellValueLeft` halt with identical tape, data pointer and I/O, for
/// every starting cell value and surrounding tape within bounds.
pub proof fn lemma_add_left_sound(tape: Seq<u8>, dp: int, d: usize, input: Seq<u8>, output: Seq<u8>)
    requires
        0 <= dp < BF_MEMORY_SIZE,
        dp - d >= 0,
        d >= 1,
        tape.len() == BF_MEMORY_SIZE,
    ensures
        runs_to(
            add_left_loop_prog(d),
            MachineState { pc: 0, dp: dp, tape: tape, input: input, output: output },
            MachineState {
                pc: 6,
                dp: dp,
                tape: tape.update(dp - d, cell_add_value(tape[dp - d], tape[dp] as nat)).update(dp, 0),
                input: input,
                output: output,
            },
        ),
        runs_to(
            seq![BFInstr::AddCellValueLeft(d)],
            MachineState { pc: 0, dp: dp, tape: tape, input: input, output: output },
            MachineState {
                pc: 1,
                dp: dp,
                tape: tape.update(dp - d, cell_add_value(tape[dp - d], tape[dp] as nat)).update(dp, 0),
                input: input,
                output: output,
            },
        ),
{
    let v = tape[dp];
    let w = tape[dp - d];
    let target = tape.update(dp - d, cell_add_value(w, v as nat)).update(dp, 0);
    let opt = seq![BFInstr::AddCellValueLeft(d)];
    let o0 = MachineState { pc: 0, dp: dp, tape: tape, input: input, output: output };
    if v == 0 {
        assert(cell_add_value(w, 0) == w);
        assert(target =~= tape);
        let o1 = MachineState { pc: 1, ..o0 };
        assert(exec_one(opt, o0) == Some(o1)) by {
        reveal(dispatch);
    }
        lemma_runs_to_here(opt, o1);
        lemma_runs_to_step(opt, o0, o1, o1);
        let prog = add_left_loop_prog(d);
        let s6 = MachineState { pc: 6, ..o0 };
        assert(exec_one(prog, o0) == Some(s6)) by {
        reveal(dispatch);
    }
        lemma_runs_to_here(prog, s6);
        lemma_runs_to_step(prog, o0, s6, s6);
    } else {
        let o1 = MachineState { pc: 1, tape: target, ..o0 };
        assert(exec_one(opt, o0) == Some(o1)) by {
        reveal(dispatch);
    }
        lemma_runs_to_here(opt, o1);
        lemma_runs_to_step(opt, o0, o1, o1);
        let prog = add_left_loop_prog(d);
        let s1 = MachineState { pc: 1, ..o0 };
        assert(exec_one(prog, o0) == Some(s1)) by {
        reveal(dispatch);
    }
        lemma_add_left_body(tape, dp, d, input, output);
        lemma_runs_to_step(
            prog,
            o0,
            s1,
            MachineState { pc: 6, dp: dp, tape: target, input: input, output: output },
        );
    }
}

/// The move-data loop `[->-<]` (with fused distances) as the compiler
/// emits it.
pub open spec fn sub_right_loop_prog(d: usize) -> Seq<BFInstr> {
    seq![
        BFInstr::LoopStart(5),
        BFInstr::DecVal(1),
        BFInstr::IncPC(d),
        BFInstr::DecVal(1),
        BFInstr::DecPC(d),
        BFInstr::LoopEnd(0),
    ]
}

#[verifier::rlimit(100)]
#[verifier::spinoff_prover]
proof fn lemma_sub_right_body(tape: Seq<u8>, dp: int, d: usize, input: Seq<u8>, output: Seq<u8>)
    requires
        0 <= dp < BF_MEMORY_SIZE,
        dp + d < BF_MEMORY_SIZE,
        d >= 1,
        tape.len() == BF_MEMORY_SIZE,
        tape[dp] != 0,
    ensures
        runs_to(
            sub_right_loop_prog(d),
            MachineState { pc: 1, dp: dp, tape: tape, input: input, output: output },
            MachineState {
                pc: 6,
                dp: dp,
                tape: tape.update(dp + d, cell_sub_value(tape[dp + d], tape[dp] as nat)).update(dp, 0),
                input: input,
                output: output,
            },
        ),
    decreases tape[dp],
{
    let prog = sub_right_loop_prog(d);
    let v = tape[dp];
    let w = tape[dp + d];
    let s1 = MachineState { pc: 1, dp: dp, tape: tape, input: input, output: output };
    let tape2 = tape.update(dp, cell_sub_value(v, 1));
    assert(cell_sub_value(v, 1) == v - 1) by {
        assert((v - 1) % 256 == v - 1);
    }
    let s2 = MachineState { pc: 2, tape: tape2, ..s1 };
    assert(exec_one(prog, s1) == Some(s2)) by {
        reveal(dispatch);
    }
    let s3 = MachineState { pc: 3, dp: dp + d, ..s2 };
    assert(exec_one(prog, s2) == Some(s3)) by {
        reveal(dispatch);
    }
    assert(tape2[dp + d] == w);
    let tape3 = tape2.update(dp + d, cell_sub_value(w, 1));
    let s4 = MachineState { pc: 4, tape: tape3, ..s3 };
    assert(exec_one(prog, s3) == Some(s4)) by {
        reveal(dispatch);
    }
    let s5 = MachineState { pc: 5, dp: dp, ..s4 };
    assert(exec_one(prog, s4) == Some(s5)) by {
        reveal(dispatch);
    }
    assert(tape3[dp] == v - 1);
    let target = tape.update(dp + d, cell_sub_value(w, v as nat)).update(dp, 0);
    if v == 1 {
        let s6 = MachineState { pc: 6, ..s5 };
        assert(exec_one(prog, s5) == Some(s6)) by {
        reveal(dispatch);
    }
        lemma_runs_to_here(prog, s6);
        assert(tape3 =~= target);
        lemma_runs_to_step(prog, s5, s6, s6);
        lemma_runs_to_step(prog, s4, s5, s6);
        lemma_runs_to_step(prog, s3, s4, s6);
        lemma_runs_to_step(prog, s2, s3, s6);
        lemma_runs_to_step(prog, s1, s2, s6);
    } else {
        let s6 = MachineState { pc: 1, ..s5 };
        assert(exec_one(prog, s5) == Some(s6)) by {
        reveal(dispatch);
    }
        lemma_sub_right_body(tape3, dp, d, input, output);
        let ih_target = tape3.update(dp + d, cell_sub_value(tape3[dp + d], tape3[dp] as nat)).update(dp, 0);
        let fin = MachineState {
            pc: 6,
            dp: dp,
            tape: ih_target,
            input: input,
            output: output,
        };
        assert(cell_sub_value(tape3[dp + d], tape3[dp] as nat) == cell_sub_value(w, v as nat)) by {
            vstd::arithmetic::div_mod::lemma_sub_mod_noop(cell_sub_value(w, 1) as int, v - 1, 256);
        }
        assert(ih_target =~= target);
        lemma_runs_to_step(prog, s5, s6, fin);
        lemma_runs_to_step(prog, s4, s5, fin);
        lemma_runs_to_step(prog, s3, s4, fin);
        lemma_runs_to_step(prog, s2, s3, fin);
        lemma_runs_to_step(prog, s1, s2, fin);
    }
}

/// Optimization soundness, move-data: the loop `[->-<]` and its rewrite
/// `SubCellValueRight` halt with identical tape, data pointer and I/O, for
/// every starting cell value and surrounding tape within bounds.
pub proof fn lemma_sub_right_sound(tape: Seq<u8>, dp: int, d: usize, input: Seq<u8>, output: Seq<u8>)
    requires
        0 <= dp < BF_MEMORY_SIZE,
        dp + d < BF_MEMORY_SIZE,
        d >= 1,
        tape.len() == BF_MEMORY_SIZE,
    ensures
        runs_to(
            sub_right_loop_prog(d),
            MachineState { pc: 0, dp: dp, tape: tape, input: input, output: output },
            MachineState {
                pc: 6,
                dp: dp,
                tape: tape.update(dp + d, cell_sub_value(tape[dp + d], tape[dp] as nat)).update(dp, 0),
                input: input,
                output: output,
            },
        ),
        runs_to(
            seq![BFInstr::SubCellValueRight(d)],
            MachineState { pc: 0, dp: dp, tape: tape, input: input, output: output },
            MachineState {
                pc: 1,
                dp: dp,
                tape: tape.update(dp + d, cell_sub_value(tape[dp + d], tape[dp] as nat)).update(dp, 0),
                input: input,
                output: output,
            },
        ),
{
    let v = tape[dp];
    let w = tape[dp + d];
    let target = tape.update(dp + d, cell_sub_value(w, v as nat)).update(dp, 0);
    let opt = seq![BFInstr::SubCellValueRight(d)];
    let o0 = MachineState { pc: 0, dp: dp, tape: tape, input: input, output: output };
    if v == 0 {
        assert(cell_sub_value(w, 0) == w);
        assert(target =~= tape);
        let o1 = MachineState { pc: 1, ..o0 };
        assert(exec_one(opt, o0) == Some(o1)) by {
        reveal(dispatch);
    }
        lemma_runs_to_here(opt, o1);
        lemma_runs_to_step(opt, o0, o1, o1);
        let prog = sub_right_loop_prog(d);
        let s6 = MachineState { pc: 6, ..o0 };
        assert(exec_one(prog, o0) == Some(s6)) by {
        reveal(dispatch);
    }
        lemma_runs_to_here(prog, s6);
        lemma_runs_to_step(prog, o0, s6, s6);
    } else {
        let o1 = MachineState { pc: 1, tape: target, ..o0 };
        assert(exec_one(opt, o0) == Some(o1)) by {
        reveal(dispatch);
    }
        lemma_runs_to_here(opt, o1);
        lemma_runs_to_step(opt, o0, o1, o1);
        let prog = sub_right_loop_prog(d);
        let s1 = MachineState { pc: 1, ..o0 };
        assert(exec_one(prog, o0) == Some(s1)) by {
        reveal(dispatch);
    }
        lemma_sub_right_body(tape, dp, d, input, output);
        lemma_runs_to_step(
            prog,
            o0,
            s1,
            MachineState { pc: 6, dp: dp, tape: target, input: input, output: output },
        );
    }
}

/// The move-data loop `[-<->]` (with fused distances) as the compiler
/// emits it.
pub open spec fn sub_left_loop_prog(d: usize) -> Seq<BFInstr> {
    seq![
        BFInstr::LoopStart(5),
        BFInstr::DecVal(1),
        BFInstr::DecPC(d),
        BFInstr::DecVal(1),
        BFInstr::IncPC(d),
        BFInstr::LoopEnd(0),
    ]
}

#[verifier::rlimit(100)]
#[verifier::spinoff_prover]
proof fn lemma_sub_left_body(tape: Seq<u8>, dp: int, d: usize, input: Seq<u8>, output: Seq<u8>)
    requires
        0 <= dp < BF_MEMORY_SIZE,
        dp - d >= 0,
        d >= 1,
        tape.len() == BF_MEMORY_SIZE,
        tape[dp] != 0,
    ensures
        runs_to(
            sub_left_loop_prog(d),
            MachineState { pc: 1, dp: dp, tape: tape, input: input, output: output },
            MachineState {
                pc: 6,
                dp: dp,
                tape: tape.update(dp - d, cell_sub_value(tape[dp - d], tape[dp] as nat)).update(dp, 0),
                input: input,
                output: output,
            },
        ),
    decreases tape[dp],
{
    let prog = sub_left_loop_prog(d);
    let v = tape[dp];
    let w = tape[dp - d];
    let s1 = MachineState { pc: 1, dp: dp, tape: tape, input: input, output: output };
    let tape2 = tape.update(dp, cell_sub_value(v, 1));
    assert(cell_sub_value(v, 1) == v - 1) by {
        assert((v - 1) % 256 == v - 1);
    }
    let s2 = MachineState { pc: 2, tape: tape2, ..s1 };
    assert(exec_one(prog, s1) == Some(s2)) by {
        reveal(dispatch);
    }
    let s3 = MachineState { pc: 3, dp: dp - d, ..s2 };
    assert(exec_one(prog, s2) == Some(s3)) by {
        reveal(dispatch);
    }
    assert(tape2[dp - d] == w);
    let tape3 = tape2.update(dp - d, cell_sub_value(w, 1));
    let s4 = MachineState { pc: 4, tape: tape3, ..s3 };
    assert(exec_one(prog, s3) == Some(s4)) by {
        reveal(dispatch);
    }
    let s5 = MachineState { pc: 5, dp: dp, ..s4 };
    assert(exec_one(prog, s4) == Some(s5)) by {
        reveal(dispatch);
    }
    assert(tape3[dp] == v - 1);
    let target = tape.update(dp - d, cell_sub_value(w, v as nat)).update(dp, 0);
    if v == 1 {
        let s6 = MachineState { pc: 6, ..s5 };
        assert(exec_one(prog, s5) == Some(s6)) by {
        reveal(dispatch);
    }
        lemma_runs_to_here(prog, s6);
        assert(tape3 =~= target);
        lemma_runs_to_step(prog, s5, s6, s6);
        lemma_runs_to_step(prog, s4, s5, s6);
        lemma_runs_to_step(prog, s3, s4, s6);
        lemma_runs_to_step(prog, s2, s3, s6);
        lemma_runs_to_step(prog, s1, s2, s6);
    } else {
        let s6 = MachineState { pc: 1, ..s5 };
        assert(exec_one(prog, s5) == Some(s6)) by {
        reveal(dispatch);
    }
        lemma_sub_left_body(tape3, dp, d, input, output);
        let ih_target = tape3.update(dp - d, cell_sub_value(tape3[dp - d], tape3[dp] as nat)).update(dp, 0);
        let fin = MachineState {
            pc: 6,
            dp: dp,
            tape: ih_target,
            input: input,
            output: output,
        };
        assert(cell_sub_value(tape3[dp - d], tape3[dp] as nat) == cell_sub_value(w, v as nat)) by {
            vstd::arithmetic::div_mod::lemma_sub_mod_noop(cell_sub_value(w, 1) as int, v - 1, 256);
        }
        assert(ih_target =~= target);
        lemma_runs_to_step(prog, s5, s6, fin);
        lemma_runs_to_step(prog, s4, s5, fin);
        lemma_runs_to_step(prog, s3, s4, fin);
        lemma_runs_to_step(prog, s2, s3, fin);
        lemma_runs_to_step(prog, s1, s2, fin);
    }
}

/// Optimization soundness, move-data: the loop `[-<->]` and its rewrite
/// `SubCellValueLeft` halt with identical tape, data pointer and I/O, for
/// every starting cell value and surrounding tape within bounds.
pub proof fn lemma_sub_left_sound(tape: Seq<u8>, dp: int, d: usize, input: Seq<u8>, output: Seq<u8>)
    requires
        0 <= dp < BF_MEMORY_SIZE,
        dp - d >= 0,
        d >= 1,
        tape.len() == BF_MEMORY_SIZE,
    ensures
        runs_to(
            sub_left_loop_prog(d),
            MachineState { pc: 0, dp: dp, tape: tape, input: input, output: output },
            MachineState {
                pc: 6,
                dp: dp,
                tape: tape.update(dp - d, cell_sub_value(tape[dp - d], tape[dp] as nat)).update(dp, 0),
                input: input,
                output: output,
            },
        ),
        runs_to(
            seq![BFInstr::SubCellValueLeft(d)],
            MachineState { pc: 0, dp: dp, tape: tape, input: input, output: output },
            MachineState {
                pc: 1,
                dp: dp,
                tape: tape.update(dp - d, cell_sub_value(tape[dp - d], tape[dp] as nat)).update(dp, 0),
                input: input,
                output: output,
            },
        ),
{
    let v = tape[dp];
    let w = tape[dp - d];
    let target = tape.update(dp - d, cell_sub_value(w, v as nat)).update(dp, 0);
    let opt = seq![BFInstr::SubCellValueLeft(d)];
    let o0 = MachineState { pc: 0, dp: dp, tape: tape, input: input, output: output };
    if v == 0 {
        assert(cell_sub_value(w, 0) == w);
        assert(target =~= tape);
        let o1 = MachineState { pc: 1, ..o0 };
        assert(exec_one(opt, o0) == Some(o1)) by {
        reveal(dispatch);
    }
        lemma_runs_to_here(opt, o1);
        lemma_runs_to_step(opt, o0, o1, o1);
        let prog = sub_left_loop_prog(d);
        let s6 = MachineState { pc: 6, ..o0 };
        assert(exec_one(prog, o0) == Some(s6)) by {
        reveal(dispatch);
    }
        lemma_runs_to_here(prog, s6);
        lemma_runs_to_step(prog, o0, s6, s6);
    } else {
        let o1 = MachineState { pc: 1, tape: target, ..o0 };
        assert(exec_one(opt, o0) == Some(o1)) by {
        reveal(dispatch);
    }
        lemma_runs_to_here(opt, o1);
        lemma_runs_to_step(opt, o0, o1, o1);
        let prog = sub_left_loop_prog(d);
        let s1 = MachineState { pc: 1, ..o0 };
        assert(exec_one(prog, o0) == Some(s1)) by {
        reveal(dispatch);
    }
        lemma_sub_left_body(tape, dp, d, input, output);
        lemma_runs_to_step(
            prog,
            o0,
            s1,
            MachineState { pc: 6, dp: dp, tape: target, input: input, output: output },
        );
    }
}

/// A command byte that is not a bracket.
pub open spec fn is_simple_cmd(ch: u8) -> bool {
    valid_bf_char_spec(ch) && ch != CMD_OPEN && ch != CMD_CLOSE
}

/// The one instruction the compiler emits for a fused run of a non-bracket
/// command.
pub open spec fn fused_instr(ch: u8, n: nat) -> BFInstr {
    if ch == CMD_RIGHT {
        BFInstr::IncPC(n as usize)
    } else if ch == CMD_LEFT {
        BFInstr::DecPC(n as usize)
    } else if ch == CMD_INC {
        BFInstr::IncVal(n as usize)
    } else if ch == CMD_DEC {
        BFInstr::DecVal(n as usize)
    } else if ch == CMD_OUT {
        BFInstr::Output(n as usize)
    } else {
        BFInstr::Input(n as usize)
    }
}

/// An instruction a bracket-free source can compile to.
pub open spec fn is_simple_instr(i: BFInstr) -> bool {
    match i {
        BFInstr::IncPC(_) => true,
        BFInstr::DecPC(_) => true,
        BFInstr::IncVal(_) => true,
        BFInstr::DecVal(_) => true,
        BFInstr::Output(_) => true,
        BFInstr::Input(_) => true,
        _ => false,
    }
}

/// A machine state without its program counter: what straight-line code
/// (which never jumps) observes and changes.
pub ghost struct TapeCfg {
    pub dp: int,
    pub tape: Seq<u8>,
    pub input: Seq<u8>,
    pub output: Seq<u8>,
}

pub open spec fn cfg_valid(c: TapeCfg) -> bool {
    &&& c.tape.len() == BF_MEMORY_SIZE
    &&& 0 <= c.dp < BF_MEMORY_SIZE
}

pub open spec fn cfg_of(s: MachineState) -> TapeCfg {
    TapeCfg { dp: s.dp, tape: s.tape, input: s.input, output: s.output }
}

pub open spec fn with_pc(pc: int, c: TapeCfg) -> MachineState {
    MachineState { pc: pc, dp: c.dp, tape: c.tape, input: c.input, output: c.output }
}

/// What one non-bracket instruction does, as `dispatch` does it, but on the
/// program-counter-free state.
pub open spec fn apply_simple(instr: BFInstr, c: TapeCfg) -> Option<TapeCfg> {
    match instr {
        BFInstr::IncPC(m) => if c.dp + m < BF_MEMORY_SIZE {
            Some(TapeCfg { dp: c.dp + m, ..c })
        } else {
            None
        },
        BFInstr::DecPC(m) => if c.dp - m >= 0 {
            Some(TapeCfg { dp: c.dp - m, ..c })
        } else {
            None
        },
        BFInstr::IncVal(m) => Some(
            TapeCfg { tape: c.tape.update(c.dp, cell_add_value(c.tape[c.dp], m as nat)), ..c },
        ),
        BFInstr::DecVal(m) => Some(
            TapeCfg { tape: c.tape.update(c.dp, cell_sub_value(c.tape[c.dp], m as nat)), ..c },
        ),
        BFInstr::Output(m) => Some(
            TapeCfg { output: c.output + Seq::new(m as nat, |q: int| c.tape[c.dp]), ..c },
        ),
        BFInstr::Input(m) => Some(
            TapeCfg {
                tape: read_k(c.tape, c.dp, c.input, m as nat).0,
                input: read_k(c.tape, c.dp, c.input, m as nat).1,
                ..c
            },
        ),
        _ => None,
    }
}

/// Straight-line evaluation of a jump-free instruction list.
pub open spec fn straight(instrs: Seq<BFInstr>, c: TapeCfg) -> Option<TapeCfg>
    decreases instrs.len(),
{
    if instrs.len() == 0 {
        Some(c)
    } else {
        match apply_simple(instrs[0], c) {
            Some(c2) => straight(instrs.drop_first(), c2),
            None => None,
        }
    }
}

/// On a non-bracket instruction, `dispatch` is `apply_simple` with the
/// program counter untouched.
proof fn lemma_apply_dispatch(instr: BFInstr, s: MachineState)
    requires
        is_simple_instr(instr),
    ensures
        dispatch(instr, s) == (match apply_simple(instr, cfg_of(s)) {
            Some(c) => Some(with_pc(s.pc, c)),
            None => None::<MachineState>,
        }),
{
    reveal(dispatch);
}

/// A successful non-bracket step keeps the state valid.
proof fn lemma_apply_valid(instr: BFInstr, c: TapeCfg)
    requires
        is_simple_instr(instr),
        cfg_valid(c),
        apply_simple(instr, c) is Some,
    ensures
        cfg_valid(apply_simple(instr, c).unwrap()),
{
    if let BFInstr::Input(m) = instr {
        crate::machine::lemma_read_k_tape_len(c.tape, c.dp, c.input, m as nat);
    }
}

/// A jump-free program that straight-line evaluation finishes runs, under
/// the interpreter, to the same state with the program counter at the end.
proof fn lemma_straight_to_runs(prog: Seq<BFInstr>, s: MachineState)
    requires
        mach_valid(s),
        0 <= s.pc <= prog.len(),
        forall|i: int| 0 <= i < prog.len() ==> is_simple_instr(#[trigger] prog[i]),
        straight(prog.skip(s.pc), cfg_of(s)) is Some,
    ensures
        runs_to(prog, s, with_pc(prog.len() as int, straight(prog.skip(s.pc), cfg_of(s)).unwrap())),
    decreases prog.len() - s.pc,
{
    let suffix = prog.skip(s.pc);
    if s.pc == prog.len() {
        assert(suffix =~= Seq::<BFInstr>::empty());
        assert(with_pc(prog.len() as int, cfg_of(s)) == s);
        lemma_runs_to_here(prog, s);
    } else {
        assert(suffix[0] == prog[s.pc]);
        let c2 = apply_simple(prog[s.pc], cfg_of(s)).unwrap();
        lemma_apply_dispatch(prog[s.pc], s);
        lemma_apply_valid(prog[s.pc], cfg_of(s));
        let s3 = with_pc(s.pc + 1, c2);
        assert(exec_one(prog, s) == Some(s3));
        assert(prog.skip(s.pc + 1) =~= suffix.drop_first());
        assert(cfg_of(s3) == c2);
        lemma_straight_to_runs(prog, s3);
        lemma_runs_to_step(
            prog,
            s,
            s3,
            with_pc(prog.len() as int, straight(prog.skip(s.pc + 1), c2).unwrap()),
        );
    }
}

/// Straight-line evaluation of concatenated programs is evaluation in
/// sequence.
proof fn lemma_straight_append(a: Seq<BFInstr>, b: Seq<BFInstr>, c: TapeCfg)
    ensures
        straight(a + b, c) == (match straight(a, c) {
            Some(c2) => straight(b, c2),
            None => None::<TapeCfg>,
        }),
    decreases a.len(),
{
    if a.len() == 0 {
        assert(a + b =~= b);
    } else {
        assert((a + b)[0] == a[0]);
        assert((a + b).drop_first() =~= a.drop_first() + b);
        match apply_simple(a[0], c) {
            Some(c2) => {
                lemma_straight_append(a.drop_first(), b, c2);
            },
            None => {},
        }
    }
}

/// A run of n identical unit instructions.
pub open spec fn unit_reps(ch: u8, n: nat) -> Seq<BFInstr> {
    Seq::new(n, |i: int| fused_instr(ch, 1))
}

/// One fused instruction behaves exactly as its run of unit instructions.
proof fn lemma_fused_one(ch: u8, n: nat, c: TapeCfg)
    requires
        is_simple_cmd(ch),
        1 <= n <= usize::MAX,
        cfg_valid(c),
    ensures
        straight(seq![fused_instr(ch, n)], c) == straight(unit_reps(ch, n), c),
    decreases n,
{
    let fused = seq![fused_instr(ch, n)];
    let units = unit_reps(ch, n);
    assert(units[0] == fused_instr(ch, 1));
    if n == 1 {
        assert(units =~= fused);
    } else {
        let c1 = apply_simple(fused_instr(ch, 1), c);
        assert(units.drop_first() =~= unit_reps(ch, (n - 1) as nat));
        match c1 {
            Some(c1v) => {
                lemma_apply_valid(fused_instr(ch, 1), c);
                lemma_fused_one(ch, (n - 1) as nat, c1v);
                let rest = seq![fused_instr(ch, (n - 1) as nat)];
                assert(straight(units, c) == straight(unit_reps(ch, (n - 1) as nat), c1v));
                assert(straight(rest, c1v) == straight(unit_reps(ch, (n - 1) as nat), c1v));
                assert(rest.drop_first() =~= Seq::<BFInstr>::empty());
                assert(fused.drop_first() =~= Seq::<BFInstr>::empty());
                lemma_fuse_step_agrees(ch, n, c, c1v);
            },
            None => {
                lemma_fuse_step_fails(ch, n, c);
            },
        }
    }
}

/// If the first unit step succeeds, the fused instruction equals that step
/// followed by the remaining fused instruction.
#[verifier::rlimit(100)]
#[verifier::spinoff_prover]
proof fn lemma_fuse_step_agrees(ch: u8, n: nat, c: TapeCfg, c1: TapeCfg)
    requires
        is_simple_cmd(ch),
        2 <= n <= usize::MAX,
        cfg_valid(c),
        apply_simple(fused_instr(ch, 1), c) == Some(c1),
    ensures
        apply_simple(fused_instr(ch, n), c) == apply_simple(fused_instr(ch, (n - 1) as nat), c1),
{
    if ch == CMD_RIGHT || ch == CMD_LEFT {
    } else if ch == CMD_INC {
        let v = c.tape[c.dp];
        assert(c1.tape[c.dp] == cell_add_value(v, 1));
        assert(cell_add_value(cell_add_value(v, 1), (n - 1) as nat) == cell_add_value(v, n)) by {
            vstd::arithmetic::div_mod::lemma_add_mod_noop(v + 1, n - 1, 256);
        }
        assert(c1.tape.update(c.dp, cell_add_value(v, n)) =~= c.tape.update(
            c.dp,
            cell_add_value(v, n),
        ));
    } else if ch == CMD_DEC {
        let v = c.tape[c.dp];
        assert(c1.tape[c.dp] == cell_sub_value(v, 1));
        assert(cell_sub_value(cell_sub_value(v, 1), (n - 1) as nat) == cell_sub_value(v, n)) by {
            vstd::arithmetic::div_mod::lemma_sub_mod_noop(v - 1, n - 1, 256);
        }
        assert(c1.tape.update(c.dp, cell_sub_value(v, n)) =~= c.tape.update(
            c.dp,
            cell_sub_value(v, n),
        ));
    } else if ch == CMD_OUT {
        let v = c.tape[c.dp];
        assert((c.output + Seq::new(1, |q: int| v)) + Seq::new((n - 1) as nat, |q: int| v)
            =~= c.output + Seq::new(n, |q: int| v));
    } else {
        lemma_read_k_split(c.tape, c.dp, c.input, 1, (n - 1) as nat);
    }
}

/// If the first unit step fails, so does the whole fused instruction.
proof fn lemma_fuse_step_fails(ch: u8, n: nat, c: TapeCfg)
    requires
        is_simple_cmd(ch),
        2 <= n <= usize::MAX,
        cfg_valid(c),
        apply_simple(fused_instr(ch, 1), c) is None,
    ensures
        apply_simple(fused_instr(ch, n), c) is None,
{
}

/// Reading a + b bytes is reading a, then b from what is left.
proof fn lemma_read_k_split(tape: Seq<u8>, dp: int, input: Seq<u8>, a: nat, b: nat)
    ensures
        read_k(tape, dp, input, a + b) == (read_k(
            read_k(tape, dp, input, a).0,
            dp,
            read_k(tape, dp, input, a).1,
            b,
        )),
    decreases b,
{
    if b > 0 {
        lemma_read_k_split(tape, dp, input, a, (b - 1) as nat);
        assert(a + b - 1 == a + (b - 1) as nat);
    }
}

/// Expanding runs from the front.
proof fn lemma_unfuse_front(runs: Seq<(u8, nat)>)
    requires
        runs.len() > 0,
    ensures
        unfuse(runs) == Seq::new(runs[0].1, |i: int| runs[0].0) + unfuse(runs.drop_first()),
    decreases runs.len(),
{
    let rd = runs.drop_last();
    if rd.len() == 0 {
        assert(unfuse(rd) =~= Seq::<u8>::empty());
        assert(runs.drop_first() =~= Seq::<(u8, nat)>::empty());
        assert(runs[0] == runs.last());
        assert(unfuse(runs) == unfuse(rd) + Seq::new(runs.last().1, |i: int| runs.last().0));
        assert(unfuse(runs) =~= Seq::new(runs[0].1, |i: int| runs[0].0) + unfuse(
            runs.drop_first(),
        ));
    } else {
        lemma_unfuse_front(rd);
        assert(rd[0] == runs[0]);
        assert(runs.drop_first().drop_last() =~= rd.drop_first());
        assert(runs.drop_first().last() == runs.last());
        assert(unfuse(runs.drop_first()) == unfuse(rd.drop_first()) + Seq::new(
            runs.last().1,
            |i: int| runs.last().0,
        ));
        assert(unfuse(runs) == unfuse(rd) + Seq::new(runs.last().1, |i: int| runs.last().0));
        assert(unfuse(rd) == Seq::new(runs[0].1, |i: int| runs[0].0) + unfuse(rd.drop_first()));
        assert((Seq::new(runs[0].1, |i: int| runs[0].0) + unfuse(rd.drop_first())) + Seq::new(
            runs.last().1,
            |i: int| runs.last().0,
        ) =~= Seq::new(runs[0].1, |i: int| runs[0].0) + (unfuse(rd.drop_first()) + Seq::new(
            runs.last().1,
            |i: int| runs.last().0,
        )));
    }
}

/// The instruction list a bracket-free source compiles to: one fused
/// instruction per run.
pub open spec fn fused_map(runs: Seq<(u8, nat)>) -> Seq<BFInstr> {
    runs.map(|k: int, rn: (u8, nat)| fused_instr(rn.0, rn.1))
}

/// The unfused reference program: one unit instruction per command byte.
pub open spec fn unit_map(cmds: Seq<u8>) -> Seq<BFInstr> {
    cmds.map(|k: int, ch: u8| fused_instr(ch, 1))
}

/// The fused program and the unfused reference program evaluate alike.
proof fn lemma_fused_straight(runs: Seq<(u8, nat)>, c: TapeCfg)
    requires
        forall|k: int| 0 <= k < runs.len() ==> is_simple_cmd((#[trigger] runs[k]).0),
        forall|k: int| 0 <= k < runs.len() ==> 1 <= (#[trigger] runs[k]).1 <= usize::MAX,
        cfg_valid(c),
    ensures
        straight(fused_map(runs), c) == straight(unit_map(unfuse(runs)), c),
    decreases runs.len(),
{
    if runs.len() == 0 {
        assert(fused_map(runs) =~= Seq::<BFInstr>::empty());
        assert(unfuse(runs) =~= Seq::<u8>::empty());
        assert(unit_map(unfuse(runs)) =~= Seq::<BFInstr>::empty());
    } else {
        let r0 = runs[0];
        let rest = runs.drop_first();
        lemma_unfuse_front(runs);
        assert(fused_map(runs) =~= seq![fused_instr(r0.0, r0.1)] + fused_map(rest));
        assert(unit_map(unfuse(runs)) =~= unit_map(Seq::new(r0.1, |i: int| r0.0)) + unit_map(
            unfuse(rest),
        ));
        assert(unit_map(Seq::new(r0.1, |i: int| r0.0)) =~= unit_reps(r0.0, r0.1));
        lemma_straight_append(seq![fused_instr(r0.0, r0.1)], fused_map(rest), c);
        lemma_straight_append(unit_reps(r0.0, r0.1), unit_map(unfuse(rest)), c);
        lemma_fused_one(r0.0, r0.1, c);
        assert(straight(seq![fused_instr(r0.0, r0.1)], c) == straight(unit_reps(r0.0, r0.1), c));
        let one = seq![fused_instr(r0.0, r0.1)];
        assert(one.len() == 1);
        assert(one[0] == fused_instr(r0.0, r0.1));
        assert(one.drop_first().len() == 0);
        match apply_simple(fused_instr(r0.0, r0.1), c) {
            Some(cv) => {
                assert(straight(one.drop_first(), cv) == Some(cv));
                assert(straight(one, c) == Some(cv));
            },
            None => {
                assert(straight(one, c) is None);
            },
        }
        match straight(seq![fused_instr(r0.0, r0.1)], c) {
            Some(c2) => {
                assert(apply_simple(fused_instr(r0.0, r0.1), c) == Some(c2));
                lemma_apply_valid(fused_instr(r0.0, r0.1), c);
                assert forall|k: int| 0 <= k < rest.len() implies is_simple_cmd(
                    (#[trigger] rest[k]).0,
                ) && 1 <= rest[k].1 <= usize::MAX by {
                    assert(rest[k] == runs[k + 1]);
                }
                lemma_fused_straight(rest, c2);
            },
            None => {},
        }
    }
}

/// Fusing command bytes that are all non-brackets yields runs of
/// non-brackets.
proof fn lemma_fuse_simple(s: Seq<u8>)
    requires
        forall|j: int| 0 <= j < s.len() ==> is_simple_cmd(#[trigger] s[j]),
    ensures
        forall|k: int| 0 <= k < fuse(s).len() ==> is_simple_cmd((#[trigger] fuse(s)[k]).0),
    decreases s.len(),
{
    if s.len() > 0 {
        assert forall|j: int| 0 <= j < s.drop_last().len() implies is_simple_cmd(
            #[trigger] s.drop_last()[j],
        ) by {
            assert(s.drop_last()[j] == s[j]);
        }
        lemma_fuse_simple(s.drop_last());
        let r = fuse(s.drop_last());
        let ch = s.last();
        assert(is_simple_cmd(ch));
        if r.len() > 0 && r.last().0 == ch {
            let updated = r.update(r.len() - 1, (ch, (r.last().1 + 1) as nat));
            assert(fuse(s) == updated);
            assert forall|k: int| 0 <= k < updated.len() implies is_simple_cmd(
                (#[trigger] updated[k]).0,
            ) by {
                if k < r.len() - 1 {
                    assert(updated[k] == r[k]);
                } else {
                    assert(updated[k].0 == ch);
                }
            }
        } else {
            let pushed = r.push((ch, 1));
            assert(fuse(s) == pushed);
            assert forall|k: int| 0 <= k < pushed.len() implies is_simple_cmd(
                (#[trigger] pushed[k]).0,
            ) by {
                if k < r.len() {
                    assert(pushed[k] == r[k]);
                }
            }
        }
    }
}

/// No single run is longer than the whole source.
proof fn lemma_run_counts_le_total(runs: Seq<(u8, nat)>)
    ensures
        forall|k: int| 0 <= k < runs.len() ==> (#[trigger] runs[k]).1 <= run_total(runs),
    decreases runs.len(),
{
    if runs.len() > 0 {
        lemma_run_counts_le_total(runs.drop_last());
        assert forall|k: int| 0 <= k < runs.len() implies (#[trigger] runs[k]).1 <= run_total(
            runs,
        ) by {
            if k < runs.len() - 1 {
                assert(runs.drop_last()[k] == runs[k]);
                assert(runs[k].1 <= run_total(runs.drop_last()));
            }
        }
    }
}

/// Bracket-free runs compile by appending one fused instruction each, with
/// no failure and no open loop.
proof fn lemma_simple_run_all(st: CompState, runs: Seq<(u8, nat)>)
    requires
        !st.failed,
        forall|k: int| 0 <= k < runs.len() ==> is_simple_cmd((#[trigger] runs[k]).0),
    ensures
        run_all(st, runs) == (CompState {
            instrs: st.instrs + fused_map(runs),
            count: st.count + run_total(runs),
            ..st
        }),
    decreases runs.len(),
{
    if runs.len() == 0 {
        assert(st.instrs + fused_map(runs) =~= st.instrs);
        assert(run_all(st, runs) == st);
    } else {
        let rd = runs.drop_last();
        assert forall|k: int| 0 <= k < rd.len() implies is_simple_cmd((#[trigger] rd[k]).0) by {
            assert(rd[k] == runs[k]);
        }
        lemma_simple_run_all(st, rd);
        let last = runs.last();
        assert(is_simple_cmd(last.0));
        assert(push_run(run_all(st, rd), last.0, last.1) == push_simple(
            run_all(st, rd),
            fused_instr(last.0, last.1),
            last.1,
        ));
        assert((st.instrs + fused_map(rd)).push(fused_instr(last.0, last.1)) =~= st.instrs
            + fused_map(runs)) by {
            assert(fused_map(runs).len() == runs.len());
            assert(forall|k: int| 0 <= k < rd.len() ==> fused_map(rd)[k] == fused_map(runs)[k]);
            assert(fused_map(runs)[runs.len() - 1] == fused_instr(last.0, last.1));
        }
    }
}

/// Fusion faithfulness: a bracket-free source compiles without failure to
/// the fused program, which evaluates exactly as the unfused reference
/// program that has one unit instruction per source command; and when that
/// evaluation completes, both programs run, under the interpreter, to the
/// same tape, data pointer, input and output.
pub proof fn lemma_fusion_faithful(src: Seq<u8>, c: TapeCfg)
    requires
        src.len() <= usize::MAX,
        forall|j: int|
            0 <= j < keep_cmds(src).len() ==> is_simple_cmd(#[trigger] keep_cmds(src)[j]),
        cfg_valid(c),
    ensures
        ({
            let st = spec_compile(src);
            let ref_prog = unit_map(keep_cmds(src));
            &&& !st.failed
            &&& st.stack.len() == 0
            &&& straight(st.instrs, c) == straight(ref_prog, c)
            &&& (straight(st.instrs, c) matches Some(c2) ==> runs_to(
                st.instrs,
                with_pc(0, c),
                with_pc(st.instrs.len() as int, c2),
            ) && runs_to(ref_prog, with_pc(0, c), with_pc(ref_prog.len() as int, c2)))
        }),
{
    let cmds = keep_cmds(src);
    let runs = fuse(cmds);
    let st = spec_compile(src);
    let ref_prog = unit_map(cmds);
    lemma_fuse_simple(cmds);
    lemma_fuse_counts(cmds);
    lemma_fuse_total(cmds);
    lemma_keep_cmds_len(src);
    lemma_run_counts_le_total(runs);
    assert forall|k: int| 0 <= k < runs.len() implies 1 <= (#[trigger] runs[k]).1
        <= usize::MAX by {
        assert(runs[k].1 <= run_total(runs));
    }
    lemma_simple_run_all(init_comp(), runs);
    assert(Seq::<BFInstr>::empty() + fused_map(runs) =~= fused_map(runs));
    assert(st.instrs == fused_map(runs));
    lemma_unfuse_fuse(cmds);
    lemma_fused_straight(runs, c);
    assert(straight(st.instrs, c) == straight(ref_prog, c));
    if let Some(c2) = straight(st.instrs, c) {
        assert forall|i: int| 0 <= i < st.instrs.len() implies is_simple_instr(
            #[trigger] st.instrs[i],
        ) by {
            assert(st.instrs[i] == fused_instr(runs[i].0, runs[i].1));
            assert(is_simple_cmd(runs[i].0));
        }
        assert forall|i: int| 0 <= i < ref_prog.len() implies is_simple_instr(
            #[trigger] ref_prog[i],
        ) by {
            assert(ref_prog[i] == fused_instr(cmds[i], 1));
            assert(is_simple_cmd(cmds[i]));
        }
        let s0 = with_pc(0, c);
        assert(cfg_of(s0) == c);
        assert(st.instrs.skip(0) =~= st.instrs);
        assert(ref_prog.skip(0) =~= ref_prog);
        lemma_straight_to_runs(st.instrs, s0);
        lemma_straight_to_runs(ref_prog, s0);
    }
}

/// The tape instruction one lowered operation stands for. Loop operations
/// carry block indices, not instruction targets, so they are given a
/// placeholder here; the lemmas below use this view only on loop-free
/// operation lists.
pub open spec fn lowered_view(op: LoweredOp) -> BFInstr {
    match op {
        LoweredOp::PtrAdd(n) => BFInstr::IncPC(n),
        LoweredOp::PtrSub(n) => BFInstr::DecPC(n),
        LoweredOp::CellAdd(b) => BFInstr::IncVal(b as usize),
        LoweredOp::CellSub(b) => BFInstr::DecVal(b as usize),
        LoweredOp::EmitOutput => BFInstr::Output(1),
        LoweredOp::EmitInput => BFInstr::Input(1),
        LoweredOp::OpenLoop { body, after } => BFInstr::LoopStart(0),
        LoweredOp::CloseLoop { body, after } => BFInstr::LoopEnd(0),
    }
}

pub open spec fn ops_view(ops: Seq<LoweredOp>) -> Seq<BFInstr> {
    ops.map(|k: int, op: LoweredOp| lowered_view(op))
}

/// The operation list a bracket-free source lowers to: the operations of
/// each run in order.
pub open spec fn jit_fused_map(runs: Seq<(u8, nat)>) -> Seq<LoweredOp>
    decreases runs.len(),
{
    if runs.len() == 0 {
        Seq::empty()
    } else {
        jit_fused_map(runs.drop_last()) + jit_ops_of(runs.last().0, runs.last().1)
    }
}

/// Bracket-free runs lower by appending their operations, with no failure
/// and no open loop.
proof fn lemma_jit_simple_run_all(st: JitState, runs: Seq<(u8, nat)>)
    requires
        !st.failed,
        forall|k: int| 0 <= k < runs.len() ==> is_simple_cmd((#[trigger] runs[k]).0),
    ensures
        jit_run_all(st, runs) == (JitState {
            ops: st.ops + jit_fused_map(runs),
            count: st.count + run_total(runs),
            ..st
        }),
    decreases runs.len(),
{
    if runs.len() == 0 {
        assert(st.ops + jit_fused_map(runs) =~= st.ops);
        assert(jit_run_all(st, runs) == st);
    } else {
        let rd = runs.drop_last();
        assert forall|k: int| 0 <= k < rd.len() implies is_simple_cmd((#[trigger] rd[k]).0) by {
            assert(rd[k] == runs[k]);
        }
        lemma_jit_simple_run_all(st, rd);
        let last = runs.last();
        assert(is_simple_cmd(last.0));
        assert(jit_push_run(jit_run_all(st, rd), last.0, last.1) == jit_simple(
            jit_run_all(st, rd),
            jit_ops_of(last.0, last.1),
            last.1,
        ));
        assert((st.ops + jit_fused_map(rd)) + jit_ops_of(last.0, last.1) =~= st.ops
            + jit_fused_map(runs));
    }
}

/// Straight-line evaluation of a run of non-bracket instructions keeps the
/// state valid.
proof fn lemma_straight_valid(instrs: Seq<BFInstr>, c: TapeCfg)
    requires
        forall|i: int| 0 <= i < instrs.len() ==> is_simple_instr(#[trigger] instrs[i]),
        cfg_valid(c),
        straight(instrs, c) is Some,
    ensures
        cfg_valid(straight(instrs, c).unwrap()),
    decreases instrs.len(),
{
    if instrs.len() > 0 {
        let c2 = apply_simple(instrs[0], c).unwrap();
        lemma_apply_valid(instrs[0], c);
        assert forall|i: int| 0 <= i < instrs.drop_first().len() implies is_simple_instr(
            #[trigger] instrs.drop_first()[i],
        ) by {
            assert(instrs.drop_first()[i] == instrs[i + 1]);
        }
        lemma_straight_valid(instrs.drop_first(), c2);
    }
}

/// One run's lowered operations, read as tape instructions, evaluate
/// exactly as the one fused instruction the IR compiler emits for it.
proof fn lemma_jit_run_one(ch: u8, n: nat, c: TapeCfg)
    requires
        is_simple_cmd(ch),
        1 <= n <= usize::MAX,
        cfg_valid(c),
    ensures
        straight(ops_view(jit_ops_of(ch, n)), c) == straight(seq![fused_instr(ch, n)], c),
{
    if ch == CMD_RIGHT || ch == CMD_LEFT {
        assert(ops_view(jit_ops_of(ch, n)) =~= seq![fused_instr(ch, n)]);
    } else if ch == CMD_INC || ch == CMD_DEC {
        let m = n as usize;
        assert((m as u8) as usize == m % 256) by (bit_vector);
        let viewed = ops_view(jit_ops_of(ch, n));
        assert(viewed =~= seq![
            if ch == CMD_INC {
                BFInstr::IncVal((n as u8) as usize)
            } else {
                BFInstr::DecVal((n as u8) as usize)
            },
        ]);
        let v = c.tape[c.dp];
        if ch == CMD_INC {
            assert(cell_add_value(v, ((n as u8) as usize) as nat) == cell_add_value(v, n)) by {
                vstd::arithmetic::div_mod::lemma_add_mod_noop_right(v as int, n as int, 256);
            }
        } else {
            assert(cell_sub_value(v, ((n as u8) as usize) as nat) == cell_sub_value(v, n)) by {
                vstd::arithmetic::div_mod::lemma_sub_mod_noop_right(v as int, n as int, 256);
            }
        }
        assert(apply_simple(viewed[0], c) == apply_simple(fused_instr(ch, n), c));
        lemma_straight_singletons(viewed[0], fused_instr(ch, n), c);
    } else {
        assert(ops_view(jit_ops_of(ch, n)) =~= unit_reps(ch, n));
        lemma_fused_one(ch, n, c);
    }
}

/// Two single instructions with the same effect evaluate alike.
proof fn lemma_straight_singletons(a: BFInstr, b: BFInstr, c: TapeCfg)
    requires
        apply_simple(a, c) == apply_simple(b, c),
    ensures
        straight(seq![a], c) == straight(seq![b], c),
{
    let sa = seq![a];
    let sb = seq![b];
    assert(sa[0] == a && sb[0] == b);
    assert(sa.drop_first().len() == 0);
    assert(sb.drop_first().len() == 0);
    match apply_simple(a, c) {
        Some(cv) => {
            assert(straight(sa.drop_first(), cv) == Some(cv));
            assert(straight(sb.drop_first(), cv) == Some(cv));
        },
        None => {},
    }
}

/// The whole lowered operation list of a bracket-free run sequence
/// evaluates exactly as the fused program.
proof fn lemma_jit_straight(runs: Seq<(u8, nat)>, c: TapeCfg)
    requires
        forall|k: int| 0 <= k < runs.len() ==> is_simple_cmd((#[trigger] runs[k]).0),
        forall|k: int| 0 <= k < runs.len() ==> 1 <= (#[trigger] runs[k]).1 <= usize::MAX,
        cfg_valid(c),
    ensures
        straight(ops_view(jit_fused_map(runs)), c) == straight(fused_map(runs), c),
    decreases runs.len(),
{
    if runs.len() == 0 {
        assert(ops_view(jit_fused_map(runs)) =~= Seq::<BFInstr>::empty());
        assert(fused_map(runs) =~= Seq::<BFInstr>::empty());
    } else {
        let rd = runs.drop_last();
        let last = runs.last();
        assert forall|k: int| 0 <= k < rd.len() implies is_simple_cmd((#[trigger] rd[k]).0) && 1
            <= rd[k].1 <= usize::MAX by {
            assert(rd[k] == runs[k]);
        }
        lemma_jit_straight(rd, c);
        assert(ops_view(jit_fused_map(runs)) =~= ops_view(jit_fused_map(rd)) + ops_view(
            jit_ops_of(last.0, last.1),
        ));
        assert(fused_map(runs) =~= fused_map(rd) + seq![fused_instr(last.0, last.1)]);
        lemma_straight_append(ops_view(jit_fused_map(rd)), ops_view(jit_ops_of(last.0, last.1)), c);
        lemma_straight_append(fused_map(rd), seq![fused_instr(last.0, last.1)], c);
        match straight(fused_map(rd), c) {
            Some(c2) => {
                assert forall|i: int| 0 <= i < fused_map(rd).len() implies is_simple_instr(
                    #[trigger] fused_map(rd)[i],
                ) by {
                    assert(fused_map(rd)[i] == fused_instr(rd[i].0, rd[i].1));
                    assert(is_simple_cmd(rd[i].0));
                }
                lemma_straight_valid(fused_map(rd), c);
                assert(is_simple_cmd(last.0));
                assert(1 <= last.1 <= usize::MAX);
                lemma_jit_run_one(last.0, last.1, c2);
            },
            None => {},
        }
    }
}

/// Every lowered operation of a bracket-free run sequence reads as a
/// non-bracket instruction.
proof fn lemma_jit_fused_map_simple(runs: Seq<(u8, nat)>)
    requires
        forall|k: int| 0 <= k < runs.len() ==> is_simple_cmd((#[trigger] runs[k]).0),
    ensures
        forall|i: int|
            0 <= i < jit_fused_map(runs).len() ==> is_simple_instr(
                lowered_view(#[trigger] jit_fused_map(runs)[i]),
            ),
    decreases runs.len(),
{
    if runs.len() > 0 {
        let rd = runs.drop_last();
        let last = runs.last();
        assert forall|k: int| 0 <= k < rd.len() implies is_simple_cmd((#[trigger] rd[k]).0) by {
            assert(rd[k] == runs[k]);
        }
        lemma_jit_fused_map_simple(rd);
        assert(is_simple_cmd(last.0));
        assert forall|i: int| 0 <= i < jit_fused_map(runs).len() implies is_simple_instr(
            lowered_view(#[trigger] jit_fused_map(runs)[i]),
        ) by {
            if i < jit_fused_map(rd).len() {
                assert(jit_fused_map(runs)[i] == jit_fused_map(rd)[i]);
            } else {
                assert(jit_fused_map(runs)[i] == jit_ops_of(last.0, last.1)[i - jit_fused_map(
                    rd,
                ).len()]);
            }
        }
    }
}

/// Interpreter/native-path agreement on the loop-free fragment: for a
/// bracket-free source, the lowering succeeds with no open loop, its
/// operations — read as the tape instructions they stand for — evaluate to
/// exactly the same tape, data pointer, input and output as the compiled
/// program, and when that evaluation completes, both run to that state
/// under the interpreter semantics. Loops lower to paired
/// compare-and-branch blocks whose execution is the backend's, outside
/// this model.
pub proof fn lemma_interpreter_jit_agree(src: Seq<u8>, c: TapeCfg)
    requires
        src.len() <= usize::MAX,
        forall|j: int|
            0 <= j < keep_cmds(src).len() ==> is_simple_cmd(#[trigger] keep_cmds(src)[j]),
        cfg_valid(c),
    ensures
        ({
            let jt = spec_lower(src);
            let st = spec_compile(src);
            &&& !jt.failed
            &&& jt.stack.len() == 0
            &&& !st.failed
            &&& st.stack.len() == 0
            &&& straight(ops_view(jt.ops), c) == straight(st.instrs, c)
            &&& (straight(st.instrs, c) matches Some(c2) ==> runs_to(
                ops_view(jt.ops),
                with_pc(0, c),
                with_pc(ops_view(jt.ops).len() as int, c2),
            ) && runs_to(st.instrs, with_pc(0, c), with_pc(st.instrs.len() as int, c2)))
        }),
{
    let cmds = keep_cmds(src);
    let runs = fuse(cmds);
    let jt = spec_lower(src);
    let st = spec_compile(src);
    lemma_fuse_simple(cmds);
    lemma_fuse_counts(cmds);
    lemma_fuse_total(cmds);
    lemma_keep_cmds_len(src);
    lemma_run_counts_le_total(runs);
    assert forall|k: int| 0 <= k < runs.len() implies 1 <= (#[trigger] runs[k]).1
        <= usize::MAX by {
        assert(runs[k].1 <= run_total(runs));
    }
    lemma_jit_simple_run_all(init_jit(), runs);
    assert(Seq::<LoweredOp>::empty() + jit_fused_map(runs) =~= jit_fused_map(runs));
    assert(jt.ops == jit_fused_map(runs));
    lemma_simple_run_all(init_comp(), runs);
    assert(Seq::<BFInstr>::empty() + fused_map(runs) =~= fused_map(runs));
    assert(st.instrs == fused_map(runs));
    lemma_jit_straight(runs, c);
    if let Some(c2) = straight(st.instrs, c) {
        assert forall|i: int| 0 <= i < st.instrs.len() implies is_simple_instr(
            #[trigger] st.instrs[i],
        ) by {
            assert(st.instrs[i] == fused_instr(runs[i].0, runs[i].1));
            assert(is_simple_cmd(runs[i].0));
        }
        lemma_jit_fused_map_simple(runs);
        assert forall|i: int| 0 <= i < ops_view(jt.ops).len() implies is_simple_instr(
            #[trigger] ops_view(jt.ops)[i],
        ) by {
            assert(ops_view(jt.ops)[i] == lowered_view(jit_fused_map(runs)[i]));
        }
        let s0 = with_pc(0, c);
        assert(cfg_of(s0) == c);
        assert(st.instrs.skip(0) =~= st.instrs);
        assert(ops_view(jt.ops).skip(0) =~= ops_view(jt.ops));
        lemma_straight_to_runs(st.instrs, s0);
        lemma_straight_to_runs(ops_view(jt.ops), s0);
    }
}

} // verus!
