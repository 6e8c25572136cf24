use vstd::prelude::*;

use crate::instr::{
    valid_bf_char_spec, CMD_CLOSE, CMD_DEC, CMD_IN, CMD_INC, CMD_LEFT, CMD_OPEN, CMD_OUT,
    CMD_RIGHT,
};
use crate::model::{fuse, keep_cmds};
use crate::program::BFCompileError;

verus! {

/// One abstract operation of the lowered function. The lowerer assigns
/// basic blocks by index: each `[` allocates two fresh blocks — the loop
/// body and the block after the loop — and its `]` reuses exactly those.
/// The driver's backend realizes each operation with its builder calls.
#[derive(Debug, Copy, Clone, PartialEq, Eq, Structural)]
pub enum LoweredOp {
    /// `>` fused n times: load the data pointer, add n at pointer width,
    /// store it back.
    PtrAdd(usize),
    /// `<` fused n times: load the data pointer, subtract n at pointer
    /// width, store it back.
    PtrSub(usize),
    /// `+` fused n times: load the cell, add the constant built at cell
    /// width (n mod 256), store the cell.
    CellAdd(u8),
    /// `-` fused n times: subtract the constant built at cell width.
    CellSub(u8),
    /// One call to the output runtime helper with the current cell.
    EmitOutput,
    /// One call to the input runtime helper, its result stored in the cell.
    EmitInput,
    /// `[`: compare the cell against zero; branch to `after` when equal,
    /// else to `body`; building continues in `body`.
    OpenLoop { body: usize, after: usize },
    /// `]`: the same comparison; branch to `body` when non-zero, else to
    /// `after`; building continues in `after`.
    CloseLoop { body: usize, after: usize },
}

/// The mathematical state of the lowerer: the operations emitted so far,
/// the stack of open loops (the op index of each `OpenLoop` and its two
/// block indices), the next free block index, the raw command count, and
/// whether an unmatched `]` has been seen (after which the state is frozen
/// and lowering aborts).
pub ghost struct JitState {
    pub ops: Seq<LoweredOp>,
    pub stack: Seq<(usize, usize, usize)>,
    pub next_block: nat,
    pub count: nat,
    pub failed: bool,
}

pub open spec fn init_jit() -> JitState {
    JitState { ops: Seq::empty(), stack: Seq::empty(), next_block: 0, count: 0, failed: false }
}

/// Emit the operations for one fused run of n non-bracket commands.
pub open spec fn jit_simple(st: JitState, ops: Seq<LoweredOp>, n: nat) -> JitState {
    if st.failed {
        st
    } else {
        JitState { ops: st.ops + ops, count: st.count + n, ..st }
    }
}

/// Open one loop: allocate the two fresh blocks, emit the comparison and
/// branch, and push the open loop on the block stack.
pub open spec fn jit_open(st: JitState) -> JitState {
    if st.failed {
        st
    } else {
        let body = st.next_block as usize;
        let after = (st.next_block + 1) as usize;
        JitState {
            stack: st.stack.push((st.ops.len() as usize, body, after)),
            ops: st.ops.push(LoweredOp::OpenLoop { body: body, after: after }),
            next_block: st.next_block + 2,
            count: st.count + 1,
            ..st
        }
    }
}

/// Close one loop: pop its blocks and emit the back-branch. With no open
/// loop the lowering fails.
pub open spec fn jit_close(st: JitState) -> JitState {
    if st.failed {
        st
    } else if st.stack.len() == 0 {
        JitState { failed: true, ..st }
    } else {
        let top = st.stack.last();
        JitState {
            ops: st.ops.push(LoweredOp::CloseLoop { body: top.1, after: top.2 }),
            stack: st.stack.drop_last(),
            count: st.count + 1,
            ..st
        }
    }
}

pub open spec fn jit_open_n(st: JitState, n: nat) -> JitState
    decreases n,
{
    if n == 0 {
        st
    } else {
        jit_open(jit_open_n(st, (n - 1) as nat))
    }
}

pub open spec fn jit_close_n(st: JitState, n: nat) -> JitState
    decreases n,
{
    if n == 0 {
        st
    } else {
        jit_close(jit_close_n(st, (n - 1) as nat))
    }
}

/// The operations one fused run of a non-bracket command lowers to.
pub open spec fn jit_ops_of(ch: u8, n: nat) -> Seq<LoweredOp> {
    if ch == CMD_RIGHT {
        seq![LoweredOp::PtrAdd(n as usize)]
    } else if ch == CMD_LEFT {
        seq![LoweredOp::PtrSub(n as usize)]
    } else if ch == CMD_INC {
        seq![LoweredOp::CellAdd(n as u8)]
    } else if ch == CMD_DEC {
        seq![LoweredOp::CellSub(n as u8)]
    } else if ch == CMD_OUT {
        Seq::new(n, |i: int| LoweredOp::EmitOutput)
    } else {
        Seq::new(n, |i: int| LoweredOp::EmitInput)
    }
}

/// Lower one fused run of n copies of the command byte ch.
pub open spec fn jit_push_run(st: JitState, ch: u8, n: nat) -> JitState {
    if ch == CMD_OPEN {
        jit_open_n(st, n)
    } else if ch == CMD_CLOSE {
        jit_close_n(st, n)
    } else if valid_bf_char_spec(ch) {
        jit_simple(st, jit_ops_of(ch, n), n)
    } else {
        st
    }
}

pub open spec fn jit_run_all(st: JitState, runs: Seq<(u8, nat)>) -> JitState
    decreases runs.len(),
{
    if runs.len() == 0 {
        st
    } else {
        jit_push_run(jit_run_all(st, runs.drop_last()), runs.last().0, runs.last().1)
    }
}

/// What lowering a source text means: filter the command bytes, fuse the
/// runs, and fold the emit rules over them — without the peephole pass,
/// which the lowering path does not use.
pub open spec fn spec_lower(src: Seq<u8>) -> JitState {
    jit_run_all(init_jit(), fuse(keep_cmds(src)))
}

/// One lowering step adds at most n to the count, at most two blocks per
/// command, and keeps the block counter within twice the count.
pub proof fn lemma_jit_push_run_bounds(st: JitState, ch: u8, n: nat)
    requires
        st.next_block <= 2 * st.count,
    ensures
        jit_push_run(st, ch, n).count <= st.count + n,
        jit_push_run(st, ch, n).next_block <= st.next_block + 2 * n,
        jit_push_run(st, ch, n).next_block <= 2 * jit_push_run(st, ch, n).count,
        jit_push_run(st, ch, n).count >= st.count,
        jit_push_run(st, ch, n).next_block >= st.next_block,
{
    lemma_jit_open_n_bounds(st, n);
    lemma_jit_close_n_bounds(st, n);
}

proof fn lemma_jit_open_n_bounds(st: JitState, n: nat)
    requires
        st.next_block <= 2 * st.count,
    ensures
        jit_open_n(st, n).count <= st.count + n,
        jit_open_n(st, n).next_block <= st.next_block + 2 * n,
        jit_open_n(st, n).next_block <= 2 * jit_open_n(st, n).count,
        jit_open_n(st, n).count >= st.count,
        jit_open_n(st, n).next_block >= st.next_block,
    decreases n,
{
    if n > 0 {
        lemma_jit_open_n_bounds(st, (n - 1) as nat);
    }
}

proof fn lemma_jit_close_n_bounds(st: JitState, n: nat)
    requires
        st.next_block <= 2 * st.count,
    ensures
        jit_close_n(st, n).count <= st.count + n,
        jit_close_n(st, n).next_block == st.next_block,
        jit_close_n(st, n).next_block <= 2 * jit_close_n(st, n).count,
        jit_close_n(st, n).count >= st.count,
    decreases n,
{
    if n > 0 {
        lemma_jit_close_n_bounds(st, (n - 1) as nat);
    }
}

/// The lowering half of the native-code path: it makes every decision of
/// the lowering — which operations to emit for each fused token, and how
/// basic blocks pair `[` with `]` — while the unverified driver walks the
/// result making the backend's builder calls.
///
/// The lowered function's preamble is constant and carries no decision, so
/// it is the walker's to emit before the operations: the signature
/// `void bf(cell* tape_base, void* stdin_handle, void* stdout_handle)`, an
/// entry block holding three local variables — the data pointer initialized
/// from `tape_base`, and the two handle pointers — and, at the end of the
/// operations, a void return. Pointer arithmetic of `PtrAdd`/`PtrSub` is at
/// pointer width, and the constants of `CellAdd`/`CellSub` are built at
/// cell width.
pub struct JitLowerer {
    pub ops: Vec<LoweredOp>,
    pub next_block: usize,
    /// Number of BF commands lowered.
    pub instr_count: usize,
    pub compiled: bool,
}

impl JitLowerer {
    /// The lowering state this lowerer and an explicit block stack stand
    /// for.
    pub open spec fn jit_abs(self, stack: Seq<(usize, usize, usize)>, failed: bool) -> JitState {
        JitState {
            ops: self.ops@,
            stack: stack,
            next_block: self.next_block as nat,
            count: self.instr_count as nat,
            failed: failed,
        }
    }

    pub open spec fn fresh(self) -> bool {
        &&& self.ops@.len() == 0
        &&& self.next_block == 0
        &&& self.instr_count == 0
        &&& !self.compiled
    }

    pub fn new() -> (r: JitLowerer)
        ensures
            r.fresh(),
    {
        JitLowerer { ops: Vec::new(), next_block: 0, instr_count: 0, compiled: false }
    }

    /// The lowered operations.
    pub fn get_ops(&self) -> (r: &Vec<LoweredOp>)
        ensures
            r@ == self.ops@,
    {
        &self.ops
    }

    /// Lower one fused run of `arg` copies of the command byte `ch`, as
    /// `jit_push_run` describes. After an unmatched `]` has been seen the
    /// lowering is frozen and nothing is emitted.
    fn push_instr(
        &mut self,
        ch: u8,
        arg: usize,
        block_stack: &mut Vec<(usize, usize, usize)>,
        failed: &mut bool,
    )
        requires
            arg >= 1,
            old(self).instr_count + arg <= usize::MAX,
            old(self).next_block + 2 * arg <= usize::MAX,
        ensures
            final(self).jit_abs(final(block_stack)@, *final(failed)) == jit_push_run(
                old(self).jit_abs(old(block_stack)@, *old(failed)),
                ch,
                arg as nat,
            ),
            final(self).instr_count <= old(self).instr_count + arg,
            final(self).next_block <= old(self).next_block + 2 * arg,
            final(self).compiled == old(self).compiled,
    {
        let ghost st0 = old(self).jit_abs(old(block_stack)@, *old(failed));
        if ch == CMD_OPEN {
            let mut k: usize = 0;
            while k < arg
                invariant
                    k <= arg,
                    self.jit_abs(block_stack@, *failed) == jit_open_n(st0, k as nat),
                    self.instr_count <= st0.count + k,
                    self.next_block <= st0.next_block + 2 * k,
                    st0.count + arg <= usize::MAX,
                    st0.next_block + 2 * arg <= usize::MAX,
                    self.compiled == old(self).compiled,
                decreases arg - k,
            {
                if !*failed {
                    let here = self.ops.len();
                    let body = self.next_block;
                    let after = self.next_block + 1;
                    block_stack.push((here, body, after));
                    self.ops.push(LoweredOp::OpenLoop { body: body, after: after });
                    self.next_block = self.next_block + 2;
                    self.instr_count = self.instr_count + 1;
                }
                k = k + 1;
            }
        } else if ch == CMD_CLOSE {
            let mut k: usize = 0;
            while k < arg
                invariant
                    k <= arg,
                    self.jit_abs(block_stack@, *failed) == jit_close_n(st0, k as nat),
                    self.instr_count <= st0.count + k,
                    self.next_block == st0.next_block,
                    st0.count + arg <= usize::MAX,
                    self.compiled == old(self).compiled,
                decreases arg - k,
            {
                if !*failed {
                    match block_stack.pop() {
                        None => {
                            *failed = true;
                        },
                        Some(top) => {
                            proof {
                                let ghost prev = jit_close_n(st0, k as nat);
                                assert(prev.stack[prev.stack.len() - 1] == top);
                                assert(block_stack@ =~= prev.stack.drop_last());
                            }
                            self.ops.push(LoweredOp::CloseLoop { body: top.1, after: top.2 });
                            self.instr_count = self.instr_count + 1;
                        },
                    }
                }
                k = k + 1;
            }
        } else if ch == CMD_RIGHT {
            if !*failed {
                self.ops.push(LoweredOp::PtrAdd(arg));
                self.instr_count = self.instr_count + arg;
                proof {
                    assert(st0.ops.push(LoweredOp::PtrAdd(arg)) =~= st0.ops + jit_ops_of(
                        ch,
                        arg as nat,
                    ));
                }
            }
        } else if ch == CMD_LEFT {
            if !*failed {
                self.ops.push(LoweredOp::PtrSub(arg));
                self.instr_count = self.instr_count + arg;
                proof {
                    assert(st0.ops.push(LoweredOp::PtrSub(arg)) =~= st0.ops + jit_ops_of(
                        ch,
                        arg as nat,
                    ));
                }
            }
        } else if ch == CMD_INC {
            if !*failed {
                let constant: u8 = (arg % 256) as u8;
                proof {
                    assert(constant == arg as u8) by (bit_vector)
                        requires
                            constant == (arg % 256) as u8,
                    ;
                }
                self.ops.push(LoweredOp::CellAdd(constant));
                self.instr_count = self.instr_count + arg;
                proof {
                    assert(st0.ops.push(LoweredOp::CellAdd(arg as u8)) =~= st0.ops + jit_ops_of(
                        ch,
                        arg as nat,
                    ));
                }
            }
        } else if ch == CMD_DEC {
            if !*failed {
                let constant: u8 = (arg % 256) as u8;
                proof {
                    assert(constant == arg as u8) by (bit_vector)
                        requires
                            constant == (arg % 256) as u8,
                    ;
                }
                self.ops.push(LoweredOp::CellSub(constant));
                self.instr_count = self.instr_count + arg;
                proof {
                    assert(st0.ops.push(LoweredOp::CellSub(arg as u8)) =~= st0.ops + jit_ops_of(
                        ch,
                        arg as nat,
                    ));
                }
            }
        } else if ch == CMD_OUT {
            if !*failed {
                let mut k: usize = 0;
                while k < arg
                    invariant
                        k <= arg,
                        self.ops@ == st0.ops + Seq::new(k as nat, |i: int| LoweredOp::EmitOutput),
                        self.next_block == st0.next_block,
                        self.instr_count == st0.count,
                        block_stack@ == st0.stack,
                        !*failed && !st0.failed,
                        self.compiled == old(self).compiled,
                    decreases arg - k,
                {
                    self.ops.push(LoweredOp::EmitOutput);
                    proof {
                        assert((st0.ops + Seq::new(k as nat, |i: int| LoweredOp::EmitOutput)).push(
                            LoweredOp::EmitOutput,
                        ) =~= st0.ops + Seq::new((k + 1) as nat, |i: int| LoweredOp::EmitOutput));
                    }
                    k = k + 1;
                }
                self.instr_count = self.instr_count + arg;
            }
        } else if ch == CMD_IN {
            if !*failed {
                let mut k: usize = 0;
                while k < arg
                    invariant
                        k <= arg,
                        self.ops@ == st0.ops + Seq::new(k as nat, |i: int| LoweredOp::EmitInput),
                        self.next_block == st0.next_block,
                        self.instr_count == st0.count,
                        block_stack@ == st0.stack,
                        !*failed && !st0.failed,
                        self.compiled == old(self).compiled,
                    decreases arg - k,
                {
                    self.ops.push(LoweredOp::EmitInput);
                    proof {
                        assert((st0.ops + Seq::new(k as nat, |i: int| LoweredOp::EmitInput)).push(
                            LoweredOp::EmitInput,
                        ) =~= st0.ops + Seq::new((k + 1) as nat, |i: int| LoweredOp::EmitInput));
                    }
                    k = k + 1;
                }
                self.instr_count = self.instr_count + arg;
            }
        } else {
        }
    }

    /// Lower a source text: skip comment bytes, fuse runs of identical
    /// commands, and emit the abstract operations of the lowered function,
    /// pairing each `[` with its `]` through the block stack. Fails on an
    /// unmatched bracket — for an unmatched `[`, naming the operation index
    /// of the first one. May be called only once per lowerer; the source
    /// must leave the block indices within the machine word.
    pub fn compile(&mut self, input: &[u8]) -> (r: Result<(), BFCompileError>)
        requires
            old(self).fresh(),
            input@.len() <= usize::MAX / 2 - 1,
        ensures
            ({
                let st = spec_lower(input@);
                &&& final(self).ops@ == st.ops
                &&& final(self).instr_count as nat == st.count
                &&& final(self).next_block as nat == st.next_block
                &&& match r {
                    Ok(()) => !st.failed && st.stack.len() == 0,
                    Err(BFCompileError::UnmatchedCloseBracket(pos)) => st.failed && pos
                        == st.ops.len(),
                    Err(BFCompileError::UnmatchedOpenBracket(pos)) => !st.failed && st.stack.len()
                        > 0 && pos == st.stack.first().0,
                }
            }),
            final(self).compiled,
    {
        self.compiled = true;
        let mut block_stack: Vec<(usize, usize, usize)> = Vec::new();
        let mut failed: bool = false;
        let mut last_char: u8 = 0;
        let mut last_char_count: usize = 0;
        let mut idx: usize = 0;
        let n = input.len();
        proof {
            assert(self.ops@ =~= Seq::<LoweredOp>::empty());
            assert(block_stack@ =~= Seq::<(usize, usize, usize)>::empty());
            assert(self.jit_abs(block_stack@, failed) == init_jit());
            assert(input@.take(0) =~= Seq::<u8>::empty());
        }
        while idx < n
            invariant
                idx <= n,
                n == input@.len(),
                n <= usize::MAX / 2 - 1,
                ({
                    let runs = fuse(keep_cmds(input@.take(idx as int)));
                    &&& (last_char_count == 0 ==> runs.len() == 0 && self.jit_abs(
                        block_stack@,
                        failed,
                    ) == init_jit())
                    &&& (last_char_count > 0 ==> runs.len() > 0 && runs.last() == (
                        last_char,
                        last_char_count as nat,
                    ) && self.jit_abs(block_stack@, failed) == jit_run_all(
                        init_jit(),
                        runs.drop_last(),
                    ) && valid_bf_char_spec(last_char))
                }),
                self.next_block <= 2 * self.instr_count,
                self.instr_count + last_char_count <= idx,
                self.compiled,
            decreases n - idx,
        {
            let ghost i = idx as int;
            let ghost cmds = keep_cmds(input@.take(i));
            let ghost runs = fuse(cmds);
            let ch = input[idx];
            proof {
                assert(input@.take(i + 1).drop_last() =~= input@.take(i));
                assert(input@.take(i + 1).last() == input@[i]);
            }
            let ghost cmds2 = keep_cmds(input@.take(i + 1));
            if crate::program::BFProgram::valid_bf_char(ch) {
                proof {
                    assert(cmds2 == cmds.push(ch));
                    assert(cmds2.drop_last() =~= cmds);
                    assert(cmds2.last() == ch);
                }
                let ghost runs2 = fuse(cmds2);
                if last_char_count > 0 {
                    if ch != last_char {
                        proof {
                            assert(runs2 == runs.push((ch, 1 as nat)));
                            assert(runs2.drop_last() =~= runs);
                            assert(jit_run_all(init_jit(), runs) == jit_push_run(
                                jit_run_all(init_jit(), runs.drop_last()),
                                last_char,
                                last_char_count as nat,
                            ));
                            lemma_jit_push_run_bounds(
                                jit_run_all(init_jit(), runs.drop_last()),
                                last_char,
                                last_char_count as nat,
                            );
                        }
                        self.push_instr(last_char, last_char_count, &mut block_stack, &mut failed);
                        last_char_count = 1;
                        last_char = ch;
                    } else {
                        proof {
                            assert(runs2 == runs.update(
                                runs.len() - 1,
                                (ch, (runs.last().1 + 1) as nat),
                            ));
                            assert(runs2.drop_last() =~= runs.drop_last());
                            assert(runs2.last() == (ch, (last_char_count + 1) as nat));
                        }
                        last_char_count = last_char_count + 1;
                    }
                } else {
                    proof {
                        assert(runs2 == runs.push((ch, 1 as nat)));
                        assert(runs2.drop_last() =~= runs);
                        assert(runs2.last() == (ch, 1 as nat));
                    }
                    last_char = ch;
                    last_char_count = 1;
                }
            } else {
                proof {
                    assert(cmds2 == cmds);
                }
            }
            idx = idx + 1;
        }
        proof {
            assert(input@.take(n as int) =~= input@);
        }
        if last_char_count > 0 {
            let ghost runs = fuse(keep_cmds(input@));
            proof {
                assert(jit_run_all(init_jit(), runs) == jit_push_run(
                    jit_run_all(init_jit(), runs.drop_last()),
                    last_char,
                    last_char_count as nat,
                ));
                lemma_jit_push_run_bounds(
                    jit_run_all(init_jit(), runs.drop_last()),
                    last_char,
                    last_char_count as nat,
                );
            }
            self.push_instr(last_char, last_char_count, &mut block_stack, &mut failed);
        }
        proof {
            assert(self.jit_abs(block_stack@, failed) == spec_lower(input@));
        }
        if failed {
            Err(BFCompileError::UnmatchedCloseBracket(self.ops.len()))
        } else if block_stack.len() > 0 {
            let first_open = block_stack[0];
            proof {
                assert(block_stack@[0] == block_stack@.first());
            }
            Err(BFCompileError::UnmatchedOpenBracket(first_open.0))
        } else {
            Ok(())
        }
    }
}

} // verus!
