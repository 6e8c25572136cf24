use vstd::prelude::*;

verus! {

/// One cell of the tape: an unsigned byte with wrap-around arithmetic.
pub type BFCellValue = u8;

/// Number of cells on the tape.
pub const BF_MEMORY_SIZE: usize = 3000;

/// The extended instruction set. The first eight variants correspond to the
/// eight Brainfuck commands, with run-counts from fusing repeated commands;
/// the remaining variants are produced by the peephole optimizer.
#[derive(Debug, Copy, Clone, PartialEq, Eq, Structural)]
pub enum BFInstr {
    /// `>` repeated n times: move the data pointer right by n.
    IncPC(usize),
    /// `<` repeated n times: move the data pointer left by n.
    DecPC(usize),
    /// `+` repeated n times: add n to the current cell, mod 256.
    IncVal(usize),
    /// `-` repeated n times: subtract n from the current cell, mod 256.
    DecVal(usize),
    /// `.` repeated n times: emit the current cell n times.
    Output(usize),
    /// `,` repeated n times: read n bytes, each stored into the current cell.
    Input(usize),
    /// `[`: if the current cell is zero, jump to the matching `LoopEnd`.
    LoopStart(usize),
    /// `]`: if the current cell is non-zero, jump to the matching `LoopStart`.
    LoopEnd(usize),
    /// `[-]`: set the current cell to zero.
    ZeroCurrentCell,
    /// `[->+<]` with distance d: add the current cell into the cell d to the
    /// right and clear the current cell, when the current cell is non-zero.
    AddCellValueRight(usize),
    /// `[-<+>]` with distance d.
    AddCellValueLeft(usize),
    /// `[->-<]` with distance d.
    SubCellValueRight(usize),
    /// `[-<->]` with distance d.
    SubCellValueLeft(usize),
    /// `[<]` with step s: move the data pointer left by s until a zero cell.
    FindZeroCellLeft(usize),
    /// `[>]` with step s: move the data pointer right by s until a zero cell.
    FindZeroCellRight(usize),
}

/// The byte `>`.
pub const CMD_RIGHT: u8 = 62;
/// The byte `<`.
pub const CMD_LEFT: u8 = 60;
/// The byte `+`.
pub const CMD_INC: u8 = 43;
/// The byte `-`.
pub const CMD_DEC: u8 = 45;
/// The byte `.`.
pub const CMD_OUT: u8 = 46;
/// The byte `,`.
pub const CMD_IN: u8 = 44;
/// The byte `[`.
pub const CMD_OPEN: u8 = 91;
/// The byte `]`.
pub const CMD_CLOSE: u8 = 93;

/// The eight significant source bytes; every other byte is a comment.
pub open spec fn valid_bf_char_spec(ch: u8) -> bool {
    ch == CMD_RIGHT || ch == CMD_LEFT || ch == CMD_INC || ch == CMD_DEC || ch == CMD_OUT
        || ch == CMD_IN || ch == CMD_OPEN || ch == CMD_CLOSE
}

/// Run-counts and distances on fused or optimized opcodes are at least 1;
/// loop targets carry indices, not counts.
pub open spec fn instr_count_ok(i: BFInstr) -> bool {
    match i {
        BFInstr::IncPC(n) => n >= 1,
        BFInstr::DecPC(n) => n >= 1,
        BFInstr::IncVal(n) => n >= 1,
        BFInstr::DecVal(n) => n >= 1,
        BFInstr::Output(n) => n >= 1,
        BFInstr::Input(n) => n >= 1,
        BFInstr::LoopStart(_) => true,
        BFInstr::LoopEnd(_) => true,
        BFInstr::ZeroCurrentCell => true,
        BFInstr::AddCellValueRight(d) => d >= 1,
        BFInstr::AddCellValueLeft(d) => d >= 1,
        BFInstr::SubCellValueRight(d) => d >= 1,
        BFInstr::SubCellValueLeft(d) => d >= 1,
        BFInstr::FindZeroCellLeft(s) => s >= 1,
        BFInstr::FindZeroCellRight(s) => s >= 1,
    }
}

/// A closed, well-formed instruction sequence: every `LoopStart` and its
/// `LoopEnd` reference each other by index, and all run-counts are positive.
pub open spec fn instrs_wf(instrs: Seq<BFInstr>) -> bool {
    &&& forall|i: int| 0 <= i < instrs.len() ==> instr_count_ok(#[trigger] instrs[i])
    &&& forall|i: int|
        0 <= i < instrs.len() ==> ((#[trigger] instrs[i]) matches BFInstr::LoopStart(t)
            ==> i < t < instrs.len() && instrs[t as int] == BFInstr::LoopEnd(i as usize))
    &&& forall|j: int|
        0 <= j < instrs.len() ==> ((#[trigger] instrs[j]) matches BFInstr::LoopEnd(s)
            ==> s < j && instrs[s as int] == BFInstr::LoopStart(j as usize))
}

} // verus!
