use vstd::prelude::*;

use crate::instr::{BFInstr, BF_MEMORY_SIZE};

verus! {

/// A byte incremented by amt, wrapping mod 256.
pub open spec fn cell_add_value(v: u8, amt: nat) -> u8 {
    ((v + amt) % 256) as u8
}

/// A byte decremented by amt, wrapping mod 256.
pub open spec fn cell_sub_value(v: u8, amt: nat) -> u8 {
    ((v - amt) % 256) as u8
}

/// The observable state of a running program: the program counter, the data
/// pointer, the tape, the input not yet consumed, and the output so far.
pub ghost struct MachineState {
    pub pc: int,
    pub dp: int,
    pub tape: Seq<u8>,
    pub input: Seq<u8>,
    pub output: Seq<u8>,
}

pub open spec fn mach_valid(s: MachineState) -> bool {
    &&& s.tape.len() == BF_MEMORY_SIZE
    &&& 0 <= s.dp < BF_MEMORY_SIZE
    &&& 0 <= s.pc
}

/// The data pointer after scanning left by steps of s for a zero cell, or
/// None when the scan runs off the tape.
pub open spec fn find_zero_left(tape: Seq<u8>, dp: int, s: int) -> Option<int>
    decreases dp,
{
    if !(0 <= dp < tape.len() && s >= 1) {
        None
    } else if tape[dp] == 0 {
        Some(dp)
    } else if dp - s >= 0 {
        find_zero_left(tape, dp - s, s)
    } else {
        None
    }
}

pub open spec fn find_zero_right(tape: Seq<u8>, dp: int, s: int) -> Option<int>
    decreases tape.len() - dp,
{
    if !(0 <= dp < tape.len() && s >= 1) {
        None
    } else if tape[dp] == 0 {
        Some(dp)
    } else if dp + s < tape.len() {
        find_zero_right(tape, dp + s, s)
    } else {
        None
    }
}

/// The tape and the remaining input after k byte reads in sequence, each
/// stored into the cell at dp; at end of input the cell keeps the last
/// value written.
pub open spec fn read_k(tape: Seq<u8>, dp: int, input: Seq<u8>, k: nat) -> (Seq<u8>, Seq<u8>)
    decreases k,
{
    if k == 0 {
        (tape, input)
    } else {
        let prev = read_k(tape, dp, input, (k - 1) as nat);
        if prev.1.len() == 0 {
            prev
        } else {
            (prev.0.update(dp, prev.1[0]), prev.1.skip(1))
        }
    }
}

/// The effect of one instruction on a machine state, without the trailing
/// program-counter advance. None means the step would take the data pointer
/// off the tape: the interpreter fails fast there, naming pc and dp.
#[verifier::opaque]
pub open spec fn dispatch(instr: BFInstr, s: MachineState) -> Option<MachineState> {
    match instr {
        BFInstr::IncPC(m) => if s.dp + m < BF_MEMORY_SIZE {
            Some(MachineState { dp: s.dp + m, ..s })
        } else {
            None
        },
        BFInstr::DecPC(m) => if s.dp - m >= 0 {
            Some(MachineState { dp: s.dp - m, ..s })
        } else {
            None
        },
        BFInstr::IncVal(m) => Some(
            MachineState {
                tape: s.tape.update(s.dp, cell_add_value(s.tape[s.dp], m as nat)),
                ..s
            },
        ),
        BFInstr::DecVal(m) => Some(
            MachineState {
                tape: s.tape.update(s.dp, cell_sub_value(s.tape[s.dp], m as nat)),
                ..s
            },
        ),
        BFInstr::Output(m) => Some(
            MachineState { output: s.output + Seq::new(m as nat, |q: int| s.tape[s.dp]), ..s },
        ),
        BFInstr::Input(m) => Some(
            MachineState {
                tape: read_k(s.tape, s.dp, s.input, m as nat).0,
                input: read_k(s.tape, s.dp, s.input, m as nat).1,
                ..s
            },
        ),
        BFInstr::LoopStart(t) => if s.tape[s.dp] == 0 {
            Some(MachineState { pc: t as int, ..s })
        } else {
            Some(s)
        },
        BFInstr::LoopEnd(t) => if s.tape[s.dp] != 0 {
            Some(MachineState { pc: t as int, ..s })
        } else {
            Some(s)
        },
        BFInstr::ZeroCurrentCell => Some(MachineState { tape: s.tape.update(s.dp, 0), ..s }),
        BFInstr::AddCellValueRight(d) => if s.tape[s.dp] == 0 {
            Some(s)
        } else if s.dp + d < BF_MEMORY_SIZE {
            Some(
                MachineState {
                    tape: s.tape.update(
                        s.dp + d,
                        cell_add_value(s.tape[s.dp + d], s.tape[s.dp] as nat),
                    ).update(s.dp, 0),
                    ..s
                },
            )
        } else {
            None
        },
        BFInstr::AddCellValueLeft(d) => if s.tape[s.dp] == 0 {
            Some(s)
        } else if s.dp - d >= 0 {
            Some(
                MachineState {
                    tape: s.tape.update(
                        s.dp - d,
                        cell_add_value(s.tape[s.dp - d], s.tape[s.dp] as nat),
                    ).update(s.dp, 0),
                    ..s
                },
            )
        } else {
            None
        },
        BFInstr::SubCellValueRight(d) => if s.tape[s.dp] == 0 {
            Some(s)
        } else if s.dp + d < BF_MEMORY_SIZE {
            Some(
                MachineState {
                    tape: s.tape.update(
                        s.dp + d,
                        cell_sub_value(s.tape[s.dp + d], s.tape[s.dp] as nat),
                    ).update(s.dp, 0),
                    ..s
                },
            )
        } else {
            None
        },
        BFInstr::SubCellValueLeft(d) => if s.tape[s.dp] == 0 {
            Some(s)
        } else if s.dp - d >= 0 {
            Some(
                MachineState {
                    tape: s.tape.update(
                        s.dp - d,
                        cell_sub_value(s.tape[s.dp - d], s.tape[s.dp] as nat),
                    ).update(s.dp, 0),
                    ..s
                },
            )
        } else {
            None
        },
        BFInstr::FindZeroCellLeft(st) => match find_zero_left(s.tape, s.dp, st as int) {
            Some(dp2) => Some(MachineState { dp: dp2, ..s }),
            None => None,
        },
        BFInstr::FindZeroCellRight(st) => match find_zero_right(s.tape, s.dp, st as int) {
            Some(dp2) => Some(MachineState { dp: dp2, ..s }),
            None => None,
        },
    }
}

/// One full interpreter iteration: dispatch, then advance the program
/// counter by one (a jump set by the dispatch is advanced past the bracket,
/// as the interpreter loop does).
pub open spec fn exec_one(instrs: Seq<BFInstr>, s: MachineState) -> Option<MachineState> {
    if !(mach_valid(s) && 0 <= s.pc < instrs.len()) {
        None
    } else {
        match dispatch(instrs[s.pc], s) {
            Some(s2) => Some(MachineState { pc: s2.pc + 1, ..s2 }),
            None => None,
        }
    }
}

/// Where an execution stands after at most `fuel` iterations.
pub ghost enum RunState {
    /// Fuel ran out with the program counter still inside the program.
    Running(MachineState),
    /// The program counter left the program: a normal halt.
    Done(MachineState),
    /// A step failed; carries the state at the failing instruction.
    Failed(MachineState),
}

/// Where a machine state stands relative to the program: still inside it,
/// or past its end.
pub open spec fn reached(instrs: Seq<BFInstr>, m: MachineState) -> RunState {
    if m.pc < instrs.len() {
        RunState::Running(m)
    } else {
        RunState::Done(m)
    }
}

#[verifier::opaque]
pub open spec fn run_n(instrs: Seq<BFInstr>, s: MachineState, fuel: nat) -> RunState
    decreases fuel,
{
    if s.pc >= instrs.len() {
        RunState::Done(s)
    } else if fuel == 0 {
        RunState::Running(s)
    } else {
        match exec_one(instrs, s) {
            Some(s2) => run_n(instrs, s2, (fuel - 1) as nat),
            None => RunState::Failed(s),
        }
    }
}

/// A successful find-zero scan ends on a zero cell of the tape.
pub proof fn lemma_find_zero_left_range(tape: Seq<u8>, dp: int, s: int)
    ensures
        find_zero_left(tape, dp, s) matches Some(d) ==> 0 <= d < tape.len() && tape[d] == 0,
    decreases dp,
{
    if 0 <= dp < tape.len() && s >= 1 && tape[dp] != 0 && dp - s >= 0 {
        lemma_find_zero_left_range(tape, dp - s, s);
    }
}

pub proof fn lemma_find_zero_right_range(tape: Seq<u8>, dp: int, s: int)
    ensures
        find_zero_right(tape, dp, s) matches Some(d) ==> 0 <= d < tape.len() && tape[d] == 0,
    decreases tape.len() - dp,
{
    if 0 <= dp < tape.len() && s >= 1 && tape[dp] != 0 && dp + s < tape.len() {
        lemma_find_zero_right_range(tape, dp + s, s);
    }
}

/// On a well-formed program, a successful dispatch keeps the machine state
/// valid and the program counter inside the program.
pub proof fn lemma_dispatch_ok(instrs: Seq<BFInstr>, s: MachineState)
    requires
        crate::instr::instrs_wf(instrs),
        mach_valid(s),
        0 <= s.pc < instrs.len(),
    ensures
        dispatch(instrs[s.pc], s) matches Some(s2) ==> 0 <= s2.pc < instrs.len() && 0 <= s2.dp
            < BF_MEMORY_SIZE && s2.tape.len() == BF_MEMORY_SIZE,
{
    reveal(dispatch);
    if let Some(s2) = dispatch(instrs[s.pc], s) {
        match instrs[s.pc] {
            BFInstr::LoopStart(t) => {
                assert(t < instrs.len());
            },
            BFInstr::LoopEnd(t) => {
                assert(instrs[t as int] == BFInstr::LoopStart(s.pc as usize));
                assert(t < instrs.len());
            },
            BFInstr::FindZeroCellLeft(st) => {
                lemma_find_zero_left_range(s.tape, s.dp, st as int);
            },
            BFInstr::FindZeroCellRight(st) => {
                lemma_find_zero_right_range(s.tape, s.dp, st as int);
            },
            BFInstr::Input(m) => {
                lemma_read_k_tape_len(s.tape, s.dp, s.input, m as nat);
            },
            _ => {},
        }
    }
}

/// Reading input never changes the tape's length.
pub proof fn lemma_read_k_tape_len(tape: Seq<u8>, dp: int, input: Seq<u8>, k: nat)
    requires
        0 <= dp < tape.len(),
    ensures
        read_k(tape, dp, input, k).0.len() == tape.len(),
    decreases k,
{
    if k > 0 {
        lemma_read_k_tape_len(tape, dp, input, (k - 1) as nat);
        let prev = read_k(tape, dp, input, (k - 1) as nat);
        if prev.1.len() == 0 {
            assert(read_k(tape, dp, input, k) == prev);
        } else {
            assert(read_k(tape, dp, input, k).0 == prev.0.update(dp, prev.1[0]));
        }
    }
}

/// Splitting a fuel budget: running a+b iterations is running a, then b.
pub proof fn lemma_run_n_add(instrs: Seq<BFInstr>, s: MachineState, a: nat, b: nat)
    ensures
        match run_n(instrs, s, a) {
            RunState::Running(m) => run_n(instrs, s, a + b) == run_n(instrs, m, b),
            RunState::Done(m) => run_n(instrs, s, a + b) == RunState::Done(m),
            RunState::Failed(m) => run_n(instrs, s, a + b) == RunState::Failed(m),
        },
    decreases a,
{
    reveal(run_n);
    if s.pc >= instrs.len() {
    } else if a == 0 {
    } else {
        match exec_one(instrs, s) {
            Some(s2) => {
                lemma_run_n_add(instrs, s2, (a - 1) as nat, b);
            },
            None => {},
        }
    }
}

/// With no fuel spent, an execution stands where it started.
pub proof fn lemma_run_n_zero(instrs: Seq<BFInstr>, s: MachineState)
    ensures
        run_n(instrs, s, 0) == reached(instrs, s),
{
    reveal(run_n);
}

/// One successful iteration extends a partial execution by one step.
pub proof fn lemma_run_n_step(
    instrs: Seq<BFInstr>,
    init: MachineState,
    steps: nat,
    pre: MachineState,
    cur: MachineState,
)
    requires
        run_n(instrs, init, steps) == reached(instrs, pre),
        pre.pc < instrs.len(),
        exec_one(instrs, pre) == Some(cur),
    ensures
        run_n(instrs, init, steps + 1) == reached(instrs, cur),
{
    reveal_with_fuel(run_n, 2);
    lemma_run_n_add(instrs, init, steps, 1);
    assert(run_n(instrs, pre, 1) == reached(instrs, cur));
}

/// A failing step settles the execution for every larger fuel budget.
pub proof fn lemma_run_n_fail(
    instrs: Seq<BFInstr>,
    init: MachineState,
    steps: nat,
    budget: nat,
    pre: MachineState,
)
    requires
        run_n(instrs, init, steps) == reached(instrs, pre),
        pre.pc < instrs.len(),
        exec_one(instrs, pre) is None,
        steps < budget,
    ensures
        run_n(instrs, init, budget) == RunState::Failed(pre),
{
    reveal_with_fuel(run_n, 2);
    lemma_run_n_add(instrs, init, steps, 1);
    assert(run_n(instrs, pre, 1) == RunState::Failed(pre));
    lemma_run_n_add(instrs, init, steps + 1, (budget - steps - 1) as nat);
}

/// A halted state settles the execution for every larger fuel budget.
pub proof fn lemma_run_n_stopped(
    instrs: Seq<BFInstr>,
    init: MachineState,
    steps: nat,
    budget: nat,
    m: MachineState,
)
    requires
        run_n(instrs, init, steps) == reached(instrs, m),
        steps <= budget,
        m.pc >= instrs.len() || steps == budget,
    ensures
        run_n(instrs, init, budget) == reached(instrs, m),
{
    reveal(run_n);
    if m.pc >= instrs.len() {
        lemma_run_n_add(instrs, init, steps, (budget - steps) as nat);
    }
}

} // verus!

