use vstd::prelude::*;

use crate::balance::{
    comp_inv, counts_ok, lemma_closed_wf, lemma_close_one_inv, lemma_push_open_inv,
    lemma_push_simple_inv, st_inv,
};
use crate::instr::{
    instr_count_ok, instrs_wf, valid_bf_char_spec, BFCellValue, BFInstr, BF_MEMORY_SIZE, CMD_CLOSE,
    CMD_DEC, CMD_IN, CMD_INC, CMD_LEFT, CMD_OPEN, CMD_OUT, CMD_RIGHT,
};
use crate::machine::{
    cell_add_value, cell_sub_value, dispatch, exec_one, find_zero_left, find_zero_right,
    lemma_dispatch_ok, lemma_run_n_fail, lemma_run_n_step, lemma_run_n_stopped, lemma_run_n_zero,
    reached, read_k, run_n, MachineState, RunState,
};
use crate::model::{
    close_one, fuse, init_comp, keep_cmds, open_n, peephole, peephole_find_zero,
    peephole_move_data, peephole_zero, push_open, push_run, run_all, spec_compile,
    CompState,
};

verus! {

/// Compilation statistics.
#[derive(Debug, Clone, Copy, PartialEq, Eq, Structural)]
pub struct BFProgramStats {
    /// Number of loops that were optimized.
    pub optimized_loop_count: usize,
    /// Number of loops found in the program.
    pub loop_count: usize,
}

impl Default for BFProgramStats {
    fn default() -> (r: BFProgramStats)
        ensures
            r.optimized_loop_count == 0,
            r.loop_count == 0,
    {
        BFProgramStats { optimized_loop_count: 0, loop_count: 0 }
    }
}

/// A fatal compilation error: an unmatched bracket.
#[derive(Debug, Clone, Copy, PartialEq, Eq, Structural)]
pub enum BFCompileError {
    /// A `[` with no matching `]`; carries the IR index of the placeholder
    /// of the first such bracket.
    UnmatchedOpenBracket(usize),
    /// A `]` with no matching `[`; carries the IR length where it was found.
    UnmatchedCloseBracket(usize),
}

/// A fatal runtime error: a step that would take the data pointer out of
/// `[0, BF_MEMORY_SIZE)`; carries the program counter of the offending
/// instruction and the data pointer at which it began.
#[derive(Debug, Clone, Copy, PartialEq, Eq, Structural)]
pub struct BFRunError {
    pub pc: usize,
    pub data_ptr: usize,
}

/// How a bounded run ended.
#[derive(Debug)]
pub enum BFRunResult {
    /// The program halted; carries its output.
    Halted(Vec<u8>),
    /// The step budget ran out first; carries the output so far.
    StillRunning(Vec<u8>),
    /// A step would have taken the data pointer off the tape; nothing was
    /// changed by that step.
    Failed(BFRunError),
}

/// A Brainfuck program: the tape, the compiled instructions, the raw command
/// count, the execution cursors and the statistics.
pub struct BFProgram {
    pub memory: Vec<BFCellValue>,
    pub instructions: Vec<BFInstr>,
    /// Number of BF commands that actually make up this program.
    pub instr_count: usize,
    pub data_ptr: usize,
    pub pc: usize,
    pub stats: BFProgramStats,
}

impl BFProgram {
    /// The compiler state this program and an explicit loop stack stand for.
    pub open spec fn comp_abs(self, stack: Seq<usize>, failed: bool) -> CompState {
        CompState {
            instrs: self.instructions@,
            stack: stack,
            count: self.instr_count as nat,
            loops: self.stats.loop_count as nat,
            opt_loops: self.stats.optimized_loop_count as nat,
            failed: failed,
        }
    }

    /// Nothing has been compiled into this program yet.
    pub open spec fn fresh(self) -> bool {
        &&& self.instructions@.len() == 0
        &&& self.instr_count == 0
        &&& self.stats.loop_count == 0
        &&& self.stats.optimized_loop_count == 0
    }

    /// The program is fit to run: the tape has its fixed size, the data
    /// pointer is on the tape, and the instructions are well formed.
    pub open spec fn wf(self) -> bool {
        &&& self.memory@.len() == BF_MEMORY_SIZE
        &&& self.data_ptr < BF_MEMORY_SIZE
        &&& instrs_wf(self.instructions@)
    }

    /// The machine state this program stands for, given the input not yet
    /// consumed and the output so far.
    pub open spec fn mach(self, input: Seq<u8>, output: Seq<u8>) -> MachineState {
        MachineState {
            pc: self.pc as int,
            dp: self.data_ptr as int,
            tape: self.memory@,
            input: input,
            output: output,
        }
    }

    /// A fresh program: a zeroed tape and no instructions.
    pub fn new() -> (r: BFProgram)
        ensures
            r.fresh(),
            r.wf(),
            r.pc == 0,
            r.data_ptr == 0,
            forall|i: int| 0 <= i < BF_MEMORY_SIZE ==> r.memory@[i] == 0,
    {
        let mem: Vec<BFCellValue> = vec![0u8; BF_MEMORY_SIZE];
        BFProgram {
            memory: mem,
            instructions: Vec::new(),
            instr_count: 0,
            data_ptr: 0,
            pc: 0,
            stats: BFProgramStats::default(),
        }
    }

    /// tape[lhs_cell] += tape[rhs_cell], mod 256.
    pub fn cell_add_cell(&mut self, lhs_cell: usize, rhs_cell: usize)
        requires
            lhs_cell < old(self).memory@.len(),
            rhs_cell < old(self).memory@.len(),
        ensures
            final(self).memory@ == old(self).memory@.update(
                lhs_cell as int,
                cell_add_value(
                    old(self).memory@[lhs_cell as int],
                    old(self).memory@[rhs_cell as int] as nat,
                ),
            ),
            final(self).instructions == old(self).instructions,
            final(self).instr_count == old(self).instr_count,
            final(self).data_ptr == old(self).data_ptr,
            final(self).pc == old(self).pc,
            final(self).stats == old(self).stats,
    {
        let rhs = self.memory[rhs_cell];
        self.cell_add_imm(lhs_cell, rhs as usize);
    }

    /// tape[lhs_cell] -= tape[rhs_cell], mod 256.
    pub fn cell_sub_cell(&mut self, lhs_cell: usize, rhs_cell: usize)
        requires
            lhs_cell < old(self).memory@.len(),
            rhs_cell < old(self).memory@.len(),
        ensures
            final(self).memory@ == old(self).memory@.update(
                lhs_cell as int,
                cell_sub_value(
                    old(self).memory@[lhs_cell as int],
                    old(self).memory@[rhs_cell as int] as nat,
                ),
            ),
            final(self).instructions == old(self).instructions,
            final(self).instr_count == old(self).instr_count,
            final(self).data_ptr == old(self).data_ptr,
            final(self).pc == old(self).pc,
            final(self).stats == old(self).stats,
    {
        let rhs = self.memory[rhs_cell];
        self.cell_sub_imm(lhs_cell, rhs as usize);
    }

    /// tape[cell] += amt, mod 256.
    pub fn cell_add_imm(&mut self, cell: usize, amt: usize)
        requires
            cell < old(self).memory@.len(),
        ensures
            final(self).memory@ == old(self).memory@.update(
                cell as int,
                cell_add_value(old(self).memory@[cell as int], amt as nat),
            ),
            final(self).instructions == old(self).instructions,
            final(self).instr_count == old(self).instr_count,
            final(self).data_ptr == old(self).data_ptr,
            final(self).pc == old(self).pc,
            final(self).stats == old(self).stats,
    {
        let a: usize = amt % 256;
        let v: usize = self.memory[cell] as usize;
        let w: u8 = ((v + a) % 256) as u8;
        proof {
            vstd::arithmetic::div_mod::lemma_add_mod_noop_right(v as int, amt as int, 256);
        }
        self.memory.set(cell, w);
    }

    /// tape[cell] -= amt, mod 256.
    pub fn cell_sub_imm(&mut self, cell: usize, amt: usize)
        requires
            cell < old(self).memory@.len(),
        ensures
            final(self).memory@ == old(self).memory@.update(
                cell as int,
                cell_sub_value(old(self).memory@[cell as int], amt as nat),
            ),
            final(self).instructions == old(self).instructions,
            final(self).instr_count == old(self).instr_count,
            final(self).data_ptr == old(self).data_ptr,
            final(self).pc == old(self).pc,
            final(self).stats == old(self).stats,
    {
        let a: usize = amt % 256;
        let v: usize = self.memory[cell] as usize;
        let w: u8 = ((v + 256 - a) % 256) as u8;
        proof {
            vstd::arithmetic::div_mod::lemma_sub_mod_noop_right(v as int, amt as int, 256);
            vstd::arithmetic::div_mod::lemma_mod_multiples_vanish(1, v - a, 256);
            assert((v + 256 - a) % 256 == (v - a) % 256) by {
                assert(256 * 1 + (v - a) == v + 256 - a);
            }
        }
        self.memory.set(cell, w);
    }

    /// The raw command count: the number of significant source bytes read.
    pub fn get_instr_count(&self) -> (r: usize)
        ensures
            r == self.instr_count,
    {
        self.instr_count
    }

    /// The compiled instructions.
    pub fn get_instructions(&self) -> (r: &Vec<BFInstr>)
        ensures
            r@ == self.instructions@,
    {
        &self.instructions
    }

    /// One source byte is one of the eight commands.
    pub fn valid_bf_char(ch: u8) -> (r: bool)
        ensures
            r == valid_bf_char_spec(ch),
    {
        ch == CMD_RIGHT || ch == CMD_LEFT || ch == CMD_INC || ch == CMD_DEC || ch == CMD_OUT || ch
            == CMD_IN || ch == CMD_OPEN || ch == CMD_CLOSE
    }

    /// `[-]` (or an already rewritten `[[-]]` body) becomes a clear-cell.
    pub fn optimize_zero(instrs: &Vec<BFInstr>, lo: usize, hi: usize) -> (r: Option<BFInstr>)
        requires
            lo <= hi <= instrs@.len(),
        ensures
            r == peephole_zero(instrs@.subrange(lo as int, hi as int)),
    {
        let ghost body = instrs@.subrange(lo as int, hi as int);
        if hi - lo == 1 {
            proof {
                assert(body[0] == instrs@[lo as int]);
            }
            match instrs[lo] {
                BFInstr::DecVal(n) => if n == 1 {
                    Some(BFInstr::ZeroCurrentCell)
                } else {
                    None
                },
                BFInstr::ZeroCurrentCell => Some(BFInstr::ZeroCurrentCell),
                _ => None,
            }
        } else {
            None
        }
    }

    /// `[->+<]`, `[-<+>]`, `[->-<]`, `[-<->]` with equal distances become a
    /// single move-data instruction.
    pub fn optimize_move_data(instrs: &Vec<BFInstr>, lo: usize, hi: usize) -> (r: Option<BFInstr>)
        requires
            lo <= hi <= instrs@.len(),
        ensures
            r == peephole_move_data(instrs@.subrange(lo as int, hi as int)),
    {
        let ghost body = instrs@.subrange(lo as int, hi as int);
        if hi - lo == 4 {
            proof {
                assert(body[0] == instrs@[lo as int]);
                assert(body[1] == instrs@[lo as int + 1]);
                assert(body[2] == instrs@[lo as int + 2]);
                assert(body[3] == instrs@[lo as int + 3]);
            }
            let w0 = instrs[lo];
            let w1 = instrs[lo + 1];
            let w2 = instrs[lo + 2];
            let w3 = instrs[lo + 3];
            if w0 == (BFInstr::DecVal(1)) {
                match (w1, w2, w3) {
                    (BFInstr::IncPC(d1), BFInstr::IncVal(b), BFInstr::DecPC(d2)) => if b == 1 && d1
                        == d2 {
                        Some(BFInstr::AddCellValueRight(d1))
                    } else {
                        None
                    },
                    (BFInstr::DecPC(d1), BFInstr::IncVal(b), BFInstr::IncPC(d2)) => if b == 1 && d1
                        == d2 {
                        Some(BFInstr::AddCellValueLeft(d1))
                    } else {
                        None
                    },
                    (BFInstr::IncPC(d1), BFInstr::DecVal(b), BFInstr::DecPC(d2)) => if b == 1 && d1
                        == d2 {
                        Some(BFInstr::SubCellValueRight(d1))
                    } else {
                        None
                    },
                    (BFInstr::DecPC(d1), BFInstr::DecVal(b), BFInstr::IncPC(d2)) => if b == 1 && d1
                        == d2 {
                        Some(BFInstr::SubCellValueLeft(d1))
                    } else {
                        None
                    },
                    _ => None,
                }
            } else {
                None
            }
        } else {
            None
        }
    }

    /// `[<]` / `[>]` become a find-zero scan.
    pub fn optimize_find_zero(instrs: &Vec<BFInstr>, lo: usize, hi: usize) -> (r: Option<BFInstr>)
        requires
            lo <= hi <= instrs@.len(),
        ensures
            r == peephole_find_zero(instrs@.subrange(lo as int, hi as int)),
    {
        let ghost body = instrs@.subrange(lo as int, hi as int);
        if hi - lo == 1 {
            proof {
                assert(body[0] == instrs@[lo as int]);
            }
            match instrs[lo] {
                BFInstr::DecPC(s) => Some(BFInstr::FindZeroCellLeft(s)),
                BFInstr::IncPC(s) => Some(BFInstr::FindZeroCellRight(s)),
                _ => None,
            }
        } else {
            None
        }
    }

    /// Try each rewriter on the just-closed loop body; on the first match,
    /// replace the whole loop (brackets included) with the rewrite.
    fn optimize_loop(&mut self, loop_start: usize) -> (r: bool)
        requires
            loop_start + 2 <= old(self).instructions@.len(),
        ensures
            ({
                let body = old(self).instructions@.subrange(
                    loop_start + 1,
                    old(self).instructions@.len() - 1,
                );
                match peephole(body) {
                    Some(op) => r && final(self).instructions@ == old(self).instructions@.subrange(
                        0,
                        loop_start as int,
                    ).push(op),
                    None => !r && final(self).instructions@ == old(self).instructions@,
                }
            }),
            final(self).memory@ == old(self).memory@,
            final(self).instr_count == old(self).instr_count,
            final(self).data_ptr == old(self).data_ptr,
            final(self).pc == old(self).pc,
            final(self).stats == old(self).stats,
    {
        let len = self.instructions.len();
        let mut rewritten: Option<BFInstr> = Self::optimize_zero(
            &self.instructions,
            loop_start + 1,
            len - 1,
        );
        if rewritten.is_none() {
            rewritten = Self::optimize_move_data(&self.instructions, loop_start + 1, len - 1);
        }
        if rewritten.is_none() {
            rewritten = Self::optimize_find_zero(&self.instructions, loop_start + 1, len - 1);
        }
        match rewritten {
            Some(op) => {
                self.instructions.truncate(loop_start);
                self.instructions.push(op);
                true
            },
            None => false,
        }
    }

    /// Emit one `LoopStart` placeholder (one unit of a `[` run).
    fn push_open_once(&mut self, loop_stack: &mut Vec<usize>, failed: &mut bool)
        requires
            old(self).instr_count < usize::MAX,
        ensures
            final(self).comp_abs(final(loop_stack)@, *final(failed)) == push_open(
                old(self).comp_abs(old(loop_stack)@, *old(failed)),
            ),
            final(self).memory@ == old(self).memory@,
            final(self).data_ptr == old(self).data_ptr,
            final(self).pc == old(self).pc,
    {
        if *failed {
            return ;
        }
        let here = self.instructions.len();
        loop_stack.push(here);
        self.instructions.push(BFInstr::LoopStart(0));
        self.instr_count = self.instr_count + 1;
    }

    /// Close one loop (one unit of a `]` run): back-patch, emit the
    /// `LoopEnd`, and run the peephole pass; with no open loop, fail.
    fn close_loop_once(&mut self, loop_stack: &mut Vec<usize>, failed: &mut bool)
        requires
            st_inv(old(self).comp_abs(old(loop_stack)@, *old(failed))),
            counts_ok(old(self).comp_abs(old(loop_stack)@, *old(failed))),
            old(self).instr_count < usize::MAX,
        ensures
            final(self).comp_abs(final(loop_stack)@, *final(failed)) == close_one(
                old(self).comp_abs(old(loop_stack)@, *old(failed)),
            ),
            final(self).memory@ == old(self).memory@,
            final(self).data_ptr == old(self).data_ptr,
            final(self).pc == old(self).pc,
    {
        let ghost st0 = old(self).comp_abs(old(loop_stack)@, *old(failed));
        if *failed {
            return ;
        }
        match loop_stack.pop() {
            None => {
                *failed = true;
            },
            Some(start) => {
                proof {
                    assert(loop_stack@ =~= st0.stack.drop_last());
                    assert(st0.stack[st0.stack.len() - 1] == start);
                    assert(start < st0.instrs.len());
                }
                let end = self.instructions.len();
                self.instructions.set(start, BFInstr::LoopStart(end));
                self.instructions.push(BFInstr::LoopEnd(start));
                self.instr_count = self.instr_count + 1;
                proof {
                    assert(st0.loops <= st0.count < usize::MAX);
                    assert(st0.opt_loops <= st0.loops);
                }
                self.stats.loop_count = self.stats.loop_count + 1;
                let optimized = self.optimize_loop(start);
                if optimized {
                    self.stats.optimized_loop_count = self.stats.optimized_loop_count + 1;
                }
            },
        }
    }

    /// Emit the instruction(s) for one fused run of `arg` copies of the
    /// command byte `ch`, as `push_run` describes. After an unmatched `]`
    /// has been seen the program is frozen and nothing is emitted.
    fn push_instr(&mut self, ch: u8, arg: usize, loop_stack: &mut Vec<usize>, failed: &mut bool)
        requires
            arg >= 1,
            st_inv(old(self).comp_abs(old(loop_stack)@, *old(failed))),
            counts_ok(old(self).comp_abs(old(loop_stack)@, *old(failed))),
            old(self).instr_count + arg <= usize::MAX,
        ensures
            final(self).comp_abs(final(loop_stack)@, *final(failed)) == push_run(
                old(self).comp_abs(old(loop_stack)@, *old(failed)),
                ch,
                arg as nat,
            ),
            st_inv(final(self).comp_abs(final(loop_stack)@, *final(failed))),
            counts_ok(final(self).comp_abs(final(loop_stack)@, *final(failed))),
            final(self).instr_count <= old(self).instr_count + arg,
            final(self).memory@ == old(self).memory@,
            final(self).data_ptr == old(self).data_ptr,
            final(self).pc == old(self).pc,
    {
        let ghost st0 = old(self).comp_abs(old(loop_stack)@, *old(failed));
        let ghost mem0 = old(self).memory@;
        let ghost dp0 = old(self).data_ptr;
        let ghost pc0 = old(self).pc;
        if ch == CMD_RIGHT {
            if !*failed {
                self.instructions.push(BFInstr::IncPC(arg));
                self.instr_count = self.instr_count + arg;
            }
            proof {
                lemma_push_simple_inv(st0, BFInstr::IncPC(arg), arg as nat);
            }
        } else if ch == CMD_LEFT {
            if !*failed {
                self.instructions.push(BFInstr::DecPC(arg));
                self.instr_count = self.instr_count + arg;
            }
            proof {
                lemma_push_simple_inv(st0, BFInstr::DecPC(arg), arg as nat);
            }
        } else if ch == CMD_INC {
            if !*failed {
                self.instructions.push(BFInstr::IncVal(arg));
                self.instr_count = self.instr_count + arg;
            }
            proof {
                lemma_push_simple_inv(st0, BFInstr::IncVal(arg), arg as nat);
            }
        } else if ch == CMD_DEC {
            if !*failed {
                self.instructions.push(BFInstr::DecVal(arg));
                self.instr_count = self.instr_count + arg;
            }
            proof {
                lemma_push_simple_inv(st0, BFInstr::DecVal(arg), arg as nat);
            }
        } else if ch == CMD_OUT {
            if !*failed {
                self.instructions.push(BFInstr::Output(arg));
                self.instr_count = self.instr_count + arg;
            }
            proof {
                lemma_push_simple_inv(st0, BFInstr::Output(arg), arg as nat);
            }
        } else if ch == CMD_IN {
            if !*failed {
                self.instructions.push(BFInstr::Input(arg));
                self.instr_count = self.instr_count + arg;
            }
            proof {
                lemma_push_simple_inv(st0, BFInstr::Input(arg), arg as nat);
            }
        } else if ch == CMD_OPEN {
            let mut k: usize = 0;
            while k < arg
                invariant
                    k <= arg,
                    self.comp_abs(loop_stack@, *failed) == open_n(st0, k as nat),
                    st_inv(self.comp_abs(loop_stack@, *failed)),
                    counts_ok(self.comp_abs(loop_stack@, *failed)),
                    self.instr_count + (arg - k) <= usize::MAX,
                    self.instr_count <= st0.count + k,
                    self.memory@ == mem0,
                    self.data_ptr == dp0,
                    self.pc == pc0,
                decreases arg - k,
            {
                let ghost st_k = self.comp_abs(loop_stack@, *failed);
                proof {
                    lemma_push_open_inv(st_k);
                }
                self.push_open_once(loop_stack, failed);
                k = k + 1;
            }
        } else if ch == CMD_CLOSE {
            let mut k: usize = 0;
            while k < arg
                invariant
                    k <= arg,
                    self.comp_abs(loop_stack@, *failed) == crate::model::close_n(st0, k as nat),
                    st_inv(self.comp_abs(loop_stack@, *failed)),
                    counts_ok(self.comp_abs(loop_stack@, *failed)),
                    self.instr_count + (arg - k) <= usize::MAX,
                    self.instr_count <= st0.count + k,
                    self.memory@ == mem0,
                    self.data_ptr == dp0,
                    self.pc == pc0,
                decreases arg - k,
            {
                let ghost st_k = self.comp_abs(loop_stack@, *failed);
                proof {
                    lemma_close_one_inv(st_k);
                }
                self.close_loop_once(loop_stack, failed);
                k = k + 1;
            }
        } else {
        }
    }

    /// Compile a source text: skip comment bytes, fuse runs of identical
    /// commands, emit the extended instructions, back-patch loop targets as
    /// each loop closes, and run the peephole pass on every closed loop.
    /// Fails on an unmatched bracket, naming its position; may be called
    /// only once per program.
    pub fn compile(&mut self, input: &[u8]) -> (r: Result<(), BFCompileError>)
        requires
            old(self).fresh(),
        ensures
            ({
                let st = spec_compile(input@);
                &&& final(self).instructions@ == st.instrs
                &&& final(self).instr_count as nat == st.count
                &&& final(self).stats.loop_count as nat == st.loops
                &&& final(self).stats.optimized_loop_count as nat == st.opt_loops
                &&& match r {
                    Ok(()) => !st.failed && st.stack.len() == 0 && instrs_wf(st.instrs),
                    Err(BFCompileError::UnmatchedCloseBracket(pos)) => st.failed && pos
                        == st.instrs.len(),
                    Err(BFCompileError::UnmatchedOpenBracket(pos)) => !st.failed && st.stack.len()
                        > 0 && pos == st.stack.first(),
                }
            }),
            final(self).memory@ == old(self).memory@,
            final(self).data_ptr == old(self).data_ptr,
            final(self).pc == old(self).pc,
    {
        let ghost mem0 = old(self).memory@;
        let ghost dp0 = old(self).data_ptr;
        let ghost pc0 = old(self).pc;
        let mut loop_stack: Vec<usize> = Vec::new();
        let mut failed: bool = false;
        let mut last_char: u8 = 0;
        let mut last_char_count: usize = 0;
        let mut idx: usize = 0;
        let n = input.len();
        proof {
            assert(self.instructions@ =~= Seq::<BFInstr>::empty());
            assert(loop_stack@ =~= Seq::<usize>::empty());
            assert(self.comp_abs(loop_stack@, failed) == init_comp());
            assert(input@.take(0) =~= Seq::<u8>::empty());
        }
        while idx < n
            invariant
                idx <= n,
                n == input@.len(),
                ({
                    let runs = fuse(keep_cmds(input@.take(idx as int)));
                    &&& (last_char_count == 0 ==> runs.len() == 0 && self.comp_abs(
                        loop_stack@,
                        failed,
                    ) == init_comp())
                    &&& (last_char_count > 0 ==> runs.len() > 0 && runs.last() == (
                        last_char,
                        last_char_count as nat,
                    ) && self.comp_abs(loop_stack@, failed) == run_all(
                        init_comp(),
                        runs.drop_last(),
                    ) && valid_bf_char_spec(last_char))
                }),
                st_inv(self.comp_abs(loop_stack@, failed)),
                counts_ok(self.comp_abs(loop_stack@, failed)),
                self.instr_count + last_char_count <= idx,
                self.memory@ == mem0,
                self.data_ptr == dp0,
                self.pc == pc0,
            decreases n - idx,
        {
            let ghost i = idx as int;
            let ghost cmds = keep_cmds(input@.take(i));
            let ghost runs = fuse(cmds);
            let ch = input[idx];
            proof {
                assert(input@.take(i + 1).drop_last() =~= input@.take(i));
                assert(input@.take(i + 1).last() == input@[i]);
            }
            let ghost cmds2 = keep_cmds(input@.take(i + 1));
            if Self::valid_bf_char(ch) {
                proof {
                    assert(cmds2 == cmds.push(ch));
                    assert(cmds2.drop_last() =~= cmds);
                    assert(cmds2.last() == ch);
                }
                let ghost runs2 = fuse(cmds2);
                if last_char_count > 0 {
                    if ch != last_char {
                        proof {
                            assert(runs2 == runs.push((ch, 1 as nat)));
                            assert(runs2.drop_last() =~= runs);
                            assert(run_all(init_comp(), runs) == push_run(
                                run_all(init_comp(), runs.drop_last()),
                                last_char,
                                last_char_count as nat,
                            ));
                        }
                        self.push_instr(last_char, last_char_count, &mut loop_stack, &mut failed);
                        last_char_count = 1;
                        last_char = ch;
                    } else {
                        proof {
                            assert(runs2 == runs.update(
                                runs.len() - 1,
                                (ch, (runs.last().1 + 1) as nat),
                            ));
                            assert(runs2.drop_last() =~= runs.drop_last());
                            assert(runs2.last() == (ch, (last_char_count + 1) as nat));
                        }
                        last_char_count = last_char_count + 1;
                    }
                } else {
                    proof {
                        assert(runs2 == runs.push((ch, 1 as nat)));
                        assert(runs2.drop_last() =~= runs);
                        assert(runs2.last() == (ch, 1 as nat));
                    }
                    last_char = ch;
                    last_char_count = 1;
                }
            } else {
                proof {
                    assert(cmds2 == cmds);
                }
            }
            idx = idx + 1;
        }
        proof {
            assert(input@.take(n as int) =~= input@);
        }
        if last_char_count > 0 {
            let ghost runs = fuse(keep_cmds(input@));
            proof {
                assert(run_all(init_comp(), runs) == push_run(
                    run_all(init_comp(), runs.drop_last()),
                    last_char,
                    last_char_count as nat,
                ));
            }
            self.push_instr(last_char, last_char_count, &mut loop_stack, &mut failed);
        }
        proof {
            assert(self.comp_abs(loop_stack@, failed) == spec_compile(input@));
        }
        if failed {
            Err(BFCompileError::UnmatchedCloseBracket(self.instructions.len()))
        } else if loop_stack.len() > 0 {
            let first_open = loop_stack[0];
            proof {
                assert(loop_stack@[0] == loop_stack@.first());
            }
            Err(BFCompileError::UnmatchedOpenBracket(first_open))
        } else {
            proof {
                assert(loop_stack@ =~= Seq::<usize>::empty());
                assert(comp_inv(self.instructions@, Seq::empty()));
                lemma_closed_wf(self.instructions@);
            }
            Ok(())
        }
    }

    /// Execute the instruction at the current program counter, as `dispatch`
    /// describes. Input bytes come from `input` starting at `in_pos`; output
    /// bytes are appended to `output`. A step that would take the data
    /// pointer off the tape changes nothing and fails with pc and dp.
    fn _step(&mut self, input: &[u8], in_pos: &mut usize, output: &mut Vec<u8>) -> (r: Result<
        (),
        BFRunError,
    >)
        requires
            old(self).wf(),
            old(self).pc < old(self).instructions@.len(),
            *old(in_pos) <= input@.len(),
        ensures
            final(self).instructions@ == old(self).instructions@,
            final(self).instr_count == old(self).instr_count,
            final(self).stats == old(self).stats,
            final(self).wf(),
            *final(in_pos) <= input@.len(),
            ({
                let s0 = old(self).mach(input@.skip(*old(in_pos) as int), old(output)@);
                match dispatch(old(self).instructions@[old(self).pc as int], s0) {
                    Some(s2) => {
                        &&& r == Ok::<(), BFRunError>(())
                        &&& final(self).pc == s2.pc
                        &&& final(self).data_ptr == s2.dp
                        &&& final(self).memory@ == s2.tape
                        &&& final(output)@ == s2.output
                        &&& input@.skip(*final(in_pos) as int) == s2.input
                    },
                    None => {
                        &&& r == Err::<(), BFRunError>(
                            BFRunError { pc: old(self).pc, data_ptr: old(self).data_ptr },
                        )
                        &&& final(self).pc == old(self).pc
                        &&& final(self).data_ptr == old(self).data_ptr
                        &&& final(self).memory@ == old(self).memory@
                        &&& final(output)@ == old(output)@
                        &&& *final(in_pos) == *old(in_pos)
                    },
                }
            }),
    {
        let ghost s0 = old(self).mach(input@.skip(*old(in_pos) as int), old(output)@);
        let ghost tape0 = self.memory@;
        let ghost out0 = output@;
        let instr = self.instructions[self.pc];
        proof {
            reveal(dispatch);
            assert(instr_count_ok(instr));
        }
        match instr {
            BFInstr::IncPC(m) => {
                if m < BF_MEMORY_SIZE - self.data_ptr {
                    self.data_ptr = self.data_ptr + m;
                    Ok(())
                } else {
                    Err(BFRunError { pc: self.pc, data_ptr: self.data_ptr })
                }
            },
            BFInstr::DecPC(m) => {
                if m <= self.data_ptr {
                    self.data_ptr = self.data_ptr - m;
                    Ok(())
                } else {
                    Err(BFRunError { pc: self.pc, data_ptr: self.data_ptr })
                }
            },
            BFInstr::IncVal(m) => {
                let cell = self.data_ptr;
                self.cell_add_imm(cell, m);
                Ok(())
            },
            BFInstr::DecVal(m) => {
                let cell = self.data_ptr;
                self.cell_sub_imm(cell, m);
                Ok(())
            },
            BFInstr::Output(m) => {
                let val = self.memory[self.data_ptr];
                let mut k: usize = 0;
                while k < m
                    invariant
                        k <= m,
                        output@ == out0 + Seq::new(k as nat, |q: int| val),
                    decreases m - k,
                {
                    output.push(val);
                    proof {
                        assert(out0 + Seq::new((k + 1) as nat, |q: int| val) =~= (out0 + Seq::new(
                            k as nat,
                            |q: int| val,
                        )).push(val));
                    }
                    k = k + 1;
                }
                Ok(())
            },
            BFInstr::Input(m) => {
                let ghost in_rem0 = input@.skip(*old(in_pos) as int);
                let dp = self.data_ptr;
                let mut k: usize = 0;
                while k < m
                    invariant
                        k <= m,
                        *in_pos <= input@.len(),
                        dp == self.data_ptr < BF_MEMORY_SIZE,
                        self.memory@.len() == BF_MEMORY_SIZE,
                        self.instructions@ == old(self).instructions@,
                        self.instr_count == old(self).instr_count,
                        self.stats == old(self).stats,
                        self.pc == old(self).pc,
                        (self.memory@, input@.skip(*in_pos as int)) == read_k(
                            tape0,
                            dp as int,
                            in_rem0,
                            k as nat,
                        ),
                    decreases m - k,
                {
                    let ghost p = *in_pos as int;
                    if *in_pos < input.len() {
                        let b = input[*in_pos];
                        *in_pos = *in_pos + 1;
                        self.memory.set(dp, b);
                        proof {
                            assert(input@.skip(p + 1) =~= input@.skip(p).skip(1));
                            assert(input@.skip(p)[0] == input@[p]);
                        }
                    } else {
                        proof {
                            assert(input@.skip(p).len() == 0);
                        }
                    }
                    k = k + 1;
                }
                Ok(())
            },
            BFInstr::LoopStart(t) => {
                if self.memory[self.data_ptr] == 0 {
                    self.pc = t;
                }
                Ok(())
            },
            BFInstr::LoopEnd(t) => {
                if self.memory[self.data_ptr] != 0 {
                    self.pc = t;
                }
                Ok(())
            },
            BFInstr::ZeroCurrentCell => {
                let cur = self.data_ptr;
                self.memory.set(cur, 0);
                Ok(())
            },
            BFInstr::AddCellValueRight(d) => {
                if self.memory[self.data_ptr] != 0 {
                    if d < BF_MEMORY_SIZE - self.data_ptr {
                        let lhs = self.data_ptr + d;
                        let rhs = self.data_ptr;
                        self.cell_add_cell(lhs, rhs);
                        let cur = self.data_ptr;
                        self.memory.set(cur, 0);
                        Ok(())
                    } else {
                        Err(BFRunError { pc: self.pc, data_ptr: self.data_ptr })
                    }
                } else {
                    Ok(())
                }
            },
            BFInstr::AddCellValueLeft(d) => {
                if self.memory[self.data_ptr] != 0 {
                    if d <= self.data_ptr {
                        let lhs = self.data_ptr - d;
                        let rhs = self.data_ptr;
                        self.cell_add_cell(lhs, rhs);
                        let cur = self.data_ptr;
                        self.memory.set(cur, 0);
                        Ok(())
                    } else {
                        Err(BFRunError { pc: self.pc, data_ptr: self.data_ptr })
                    }
                } else {
                    Ok(())
                }
            },
            BFInstr::SubCellValueRight(d) => {
                if self.memory[self.data_ptr] != 0 {
                    if d < BF_MEMORY_SIZE - self.data_ptr {
                        let lhs = self.data_ptr + d;
                        let rhs = self.data_ptr;
                        self.cell_sub_cell(lhs, rhs);
                        let cur = self.data_ptr;
                        self.memory.set(cur, 0);
                        Ok(())
                    } else {
                        Err(BFRunError { pc: self.pc, data_ptr: self.data_ptr })
                    }
                } else {
                    Ok(())
                }
            },
            BFInstr::SubCellValueLeft(d) => {
                if self.memory[self.data_ptr] != 0 {
                    if d <= self.data_ptr {
                        let lhs = self.data_ptr - d;
                        let rhs = self.data_ptr;
                        self.cell_sub_cell(lhs, rhs);
                        let cur = self.data_ptr;
                        self.memory.set(cur, 0);
                        Ok(())
                    } else {
                        Err(BFRunError { pc: self.pc, data_ptr: self.data_ptr })
                    }
                } else {
                    Ok(())
                }
            },
            BFInstr::FindZeroCellLeft(step) => {
                let mut cur = self.data_ptr;
                let mut out_of_bounds = false;
                while !out_of_bounds && self.memory[cur] != 0
                    invariant
                        cur < BF_MEMORY_SIZE,
                        step >= 1,
                        self.memory@ == tape0,
                        tape0.len() == BF_MEMORY_SIZE,
                        find_zero_left(tape0, s0.dp, step as int) == (if out_of_bounds {
                            None
                        } else {
                            find_zero_left(tape0, cur as int, step as int)
                        }),
                    decreases (if out_of_bounds { 0int } else { cur + 1 }),
                {
                    if step <= cur {
                        cur = cur - step;
                    } else {
                        out_of_bounds = true;
                    }
                }
                if out_of_bounds {
                    Err(BFRunError { pc: self.pc, data_ptr: self.data_ptr })
                } else {
                    self.data_ptr = cur;
                    Ok(())
                }
            },
            BFInstr::FindZeroCellRight(step) => {
                let mut cur = self.data_ptr;
                let mut out_of_bounds = false;
                while !out_of_bounds && self.memory[cur] != 0
                    invariant
                        cur < BF_MEMORY_SIZE,
                        step >= 1,
                        self.memory@ == tape0,
                        tape0.len() == BF_MEMORY_SIZE,
                        find_zero_right(tape0, s0.dp, step as int) == (if out_of_bounds {
                            None
                        } else {
                            find_zero_right(tape0, cur as int, step as int)
                        }),
                    decreases (if out_of_bounds {
                        0int
                    } else {
                        BF_MEMORY_SIZE - cur
                    }),
                {
                    if step < BF_MEMORY_SIZE - cur {
                        cur = cur + step;
                    } else {
                        out_of_bounds = true;
                    }
                }
                if out_of_bounds {
                    Err(BFRunError { pc: self.pc, data_ptr: self.data_ptr })
                } else {
                    self.data_ptr = cur;
                    Ok(())
                }
            },
        }
    }

    /// One full interpreter iteration: `_step`, then the program-counter
    /// advance, as `exec_one` describes.
    #[verifier::rlimit(100)]
    #[verifier::spinoff_prover]
    fn step_once(&mut self, input: &[u8], in_pos: &mut usize, output: &mut Vec<u8>) -> (r: Result<
        (),
        BFRunError,
    >)
        requires
            old(self).wf(),
            old(self).pc < old(self).instructions@.len(),
            *old(in_pos) <= input@.len(),
        ensures
            final(self).instructions@ == old(self).instructions@,
            final(self).instr_count == old(self).instr_count,
            final(self).stats == old(self).stats,
            final(self).wf(),
            *final(in_pos) <= input@.len(),
            ({
                let s0 = old(self).mach(input@.skip(*old(in_pos) as int), old(output)@);
                match exec_one(old(self).instructions@, s0) {
                    Some(s2) => {
                        &&& r == Ok::<(), BFRunError>(())
                        &&& final(self).mach(input@.skip(*final(in_pos) as int), final(output)@)
                            == s2
                        &&& final(self).pc <= old(self).instructions@.len()
                    },
                    None => {
                        &&& r == Err::<(), BFRunError>(
                            BFRunError { pc: old(self).pc, data_ptr: old(self).data_ptr },
                        )
                        &&& final(self).mach(input@.skip(*final(in_pos) as int), final(output)@)
                            == s0
                    },
                }
            }),
    {
        let ghost s0 = old(self).mach(input@.skip(*old(in_pos) as int), old(output)@);
        proof {
            lemma_dispatch_ok(old(self).instructions@, s0);
        }
        let step_result = self._step(input, in_pos, output);
        let len = self.instructions.len();
        match step_result {
            Ok(()) => {
                proof {
                    let d = dispatch(old(self).instructions@[old(self).pc as int], s0);
                    assert(d is Some);
                    assert(self.pc == d.unwrap().pc);
                    assert(0 <= d.unwrap().pc < old(self).instructions@.len());
                    assert(old(self).instructions@.len() == len);
                }
                self.pc = self.pc + 1;
                Ok(())
            },
            Err(e) => Err(e),
        }
    }

    /// Run the compiled program from the current program counter for at
    /// most `max_steps` instructions, reading from `input` and collecting
    /// output. The result says whether the program halted, ran out of its
    /// step budget (every loop here carries a termination bound, so a
    /// caller wanting a longer run passes a larger budget), or failed
    /// fast on a step that would take the data pointer off the tape,
    /// naming the pc and dp of the offending instruction. The outcome is
    /// exactly what `run_n` says of `max_steps` iterations.
    #[verifier::rlimit(100)]
    #[verifier::spinoff_prover]
    #[verifier::loop_isolation(false)]
    pub fn run(&mut self, input: &[u8], max_steps: usize) -> (r: BFRunResult)
        requires
            old(self).wf(),
        ensures
            final(self).instructions@ == old(self).instructions@,
            final(self).instr_count == old(self).instr_count,
            final(self).stats == old(self).stats,
            final(self).wf(),
            ({
                let fin = run_n(
                    old(self).instructions@,
                    old(self).mach(input@, Seq::empty()),
                    max_steps as nat,
                );
                match r {
                    BFRunResult::Halted(out) => fin matches RunState::Done(m)
                        && m.tape == final(self).memory@
                        && m.dp == final(self).data_ptr
                        && m.pc == final(self).pc
                        && m.output == out@,
                    BFRunResult::StillRunning(out) => fin matches RunState::Running(m)
                        && m.tape == final(self).memory@
                        && m.dp == final(self).data_ptr
                        && m.pc == final(self).pc
                        && m.output == out@,
                    BFRunResult::Failed(e) => fin matches RunState::Failed(m)
                        && m.tape == final(self).memory@
                        && m.dp == final(self).data_ptr
                        && m.pc == final(self).pc
                        && e == (BFRunError { pc: final(self).pc, data_ptr: final(self).data_ptr }),
                }
            }),
    {
        let ghost init = old(self).mach(input@, Seq::empty());
        let ghost instrs0 = old(self).instructions@;
        let mut output: Vec<u8> = Vec::new();
        let mut in_pos: usize = 0;
        let mut steps: usize = 0;
        proof {
            assert(input@.skip(0) =~= input@);
            assert(output@ =~= Seq::<u8>::empty());
            lemma_run_n_zero(instrs0, init);
        }
        while steps < max_steps && self.pc < self.instructions.len()
            invariant
                self.wf(),
                in_pos <= input@.len(),
                steps <= max_steps,
                self.instructions@ == instrs0,
                self.instr_count == old(self).instr_count,
                self.stats == old(self).stats,
                run_n(instrs0, init, steps as nat) == reached(
                    instrs0,
                    self.mach(input@.skip(in_pos as int), output@),
                ),
            decreases max_steps - steps,
        {
            let ghost pre = self.mach(input@.skip(in_pos as int), output@);
            let step_result = self.step_once(input, &mut in_pos, &mut output);
            match step_result {
                Ok(()) => {
                    proof {
                        let cur = self.mach(input@.skip(in_pos as int), output@);
                        assert(exec_one(instrs0, pre) == Some(cur));
                        lemma_run_n_step(instrs0, init, steps as nat, pre, cur);
                    }
                    steps = steps + 1;
                },
                Err(e) => {
                    proof {
                        assert(exec_one(instrs0, pre) is None);
                        lemma_run_n_fail(instrs0, init, steps as nat, max_steps as nat, pre);
                    }
                    return BFRunResult::Failed(e);
                },
            }
        }
        proof {
            lemma_run_n_stopped(
                instrs0,
                init,
                steps as nat,
                max_steps as nat,
                self.mach(input@.skip(in_pos as int), output@),
            );
        }
        if self.pc >= self.instructions.len() {
            BFRunResult::Halted(output)
        } else {
            BFRunResult::StillRunning(output)
        }
    }
}

} // verus!
