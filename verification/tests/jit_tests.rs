use bfvm::jit::{JitLowerer, LoweredOp};
use bfvm::program::BFCompileError;

fn lower(src: &[u8]) -> JitLowerer {
    let mut l = JitLowerer::new();
    l.compile(src).expect("lowering should succeed");
    l
}

#[test]
fn lower_basic_program() {
    let l = lower(b"+>[-]<.");
    assert_eq!(
        l.ops,
        vec![
            LoweredOp::CellAdd(1),
            LoweredOp::PtrAdd(1),
            LoweredOp::OpenLoop { body: 0, after: 1 },
            LoweredOp::CellSub(1),
            LoweredOp::CloseLoop { body: 0, after: 1 },
            LoweredOp::PtrSub(1),
            LoweredOp::EmitOutput,
        ]
    );
    assert_eq!(l.instr_count, 7);
    assert_eq!(l.next_block, 2);
}

#[test]
fn lower_keeps_loops_unoptimized() {
    let l = lower(b"[-]");
    assert_eq!(
        l.ops,
        vec![
            LoweredOp::OpenLoop { body: 0, after: 1 },
            LoweredOp::CellSub(1),
            LoweredOp::CloseLoop { body: 0, after: 1 },
        ]
    );
}

#[test]
fn lower_builds_cell_constants_at_cell_width() {
    let src = vec![b'+'; 300];
    let l = lower(&src);
    assert_eq!(l.ops, vec![LoweredOp::CellAdd(44)]);
    assert_eq!(l.instr_count, 300);
}

#[test]
fn lower_emits_one_call_per_io_command() {
    let l = lower(b"..,,");
    assert_eq!(
        l.ops,
        vec![
            LoweredOp::EmitOutput,
            LoweredOp::EmitOutput,
            LoweredOp::EmitInput,
            LoweredOp::EmitInput,
        ]
    );
}

#[test]
fn lower_pairs_nested_blocks() {
    let l = lower(b"[[]]");
    assert_eq!(
        l.ops,
        vec![
            LoweredOp::OpenLoop { body: 0, after: 1 },
            LoweredOp::OpenLoop { body: 2, after: 3 },
            LoweredOp::CloseLoop { body: 2, after: 3 },
            LoweredOp::CloseLoop { body: 0, after: 1 },
        ]
    );
}

#[test]
fn lower_unmatched_close_bracket() {
    let mut l = JitLowerer::new();
    assert_eq!(l.compile(b"+]"), Err(BFCompileError::UnmatchedCloseBracket(1)));
}

#[test]
fn lower_reports_first_unmatched_open_bracket() {
    let mut l = JitLowerer::new();
    assert_eq!(l.compile(b"[["), Err(BFCompileError::UnmatchedOpenBracket(0)));
}
