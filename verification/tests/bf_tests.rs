use bfvm::instr::{BFInstr, BF_MEMORY_SIZE};
use bfvm::program::{BFCompileError, BFProgram, BFRunResult};

const BUDGET: usize = 10_000_000;

fn compile(src: &[u8]) -> BFProgram {
    let mut p = BFProgram::new();
    p.compile(src).expect("compilation should succeed");
    p
}

fn run_halted(p: &mut BFProgram, input: &[u8]) -> Vec<u8> {
    match p.run(input, BUDGET) {
        BFRunResult::Halted(out) => out,
        BFRunResult::StillRunning(_) => panic!("program did not halt within the budget"),
        BFRunResult::Failed(e) => panic!("program failed at pc {} dp {}", e.pc, e.data_ptr),
    }
}

fn run_source(src: &[u8], input: &[u8]) -> (BFProgram, Vec<u8>) {
    let mut p = compile(src);
    let out = run_halted(&mut p, input);
    (p, out)
}

#[test]
fn hello_world() {
    let src = b"++++++++[>++++[>++>+++>+++>+<<<<-]>+>+>->>+[<]<-]>>.>---.+++++++..+++.>>.<-.<.+++.------.--------.>>+.>++.";
    let (_p, out) = run_source(src, b"");
    assert_eq!(out, b"Hello World!\n");
}

#[test]
fn clear_cell() {
    let (p, out) = run_source(b"+++++[-]", b"");
    assert_eq!(out, b"");
    assert_eq!(p.memory[0], 0);
    assert!(p.instructions.contains(&BFInstr::ZeroCurrentCell));
    assert_eq!(p.stats.optimized_loop_count, 1);
    assert_eq!(p.stats.loop_count, 1);
}

#[test]
fn nested_clear_cell() {
    let (p, out) = run_source(b"+++[[-]]", b"");
    assert_eq!(out, b"");
    assert_eq!(p.memory[0], 0);
    assert_eq!(p.instructions, vec![BFInstr::IncVal(3), BFInstr::ZeroCurrentCell]);
    assert_eq!(p.stats.optimized_loop_count, 2);
    assert_eq!(p.stats.loop_count, 2);
}

#[test]
fn move_right() {
    let (p, _out) = run_source(b"++++>+++<[->+<]", b"");
    assert_eq!(p.memory[0], 0);
    assert_eq!(p.memory[1], 7);
    assert!(p.instructions.contains(&BFInstr::AddCellValueRight(1)));
}

#[test]
fn move_left() {
    let (p, _out) = run_source(b">>+++[-<+>]", b"");
    assert_eq!(p.memory[1], 3);
    assert_eq!(p.memory[2], 0);
    assert!(p.instructions.contains(&BFInstr::AddCellValueLeft(1)));
}

#[test]
fn sub_variants() {
    let (p, _out) = run_source(b"++>++++<[->-<]", b"");
    assert_eq!(p.memory[0], 0);
    assert_eq!(p.memory[1], 2);
    assert!(p.instructions.contains(&BFInstr::SubCellValueRight(1)));
    let (q, _out) = run_source(b"+++>++[-<->]", b"");
    assert_eq!(q.memory[0], 1);
    assert_eq!(q.memory[1], 0);
    assert!(q.instructions.contains(&BFInstr::SubCellValueLeft(1)));
}

#[test]
fn find_zero() {
    let (p, _out) = run_source(b">+>+>+[<]", b"");
    assert_eq!(p.data_ptr, 0);
    assert!(p.instructions.contains(&BFInstr::FindZeroCellLeft(1)));
}

#[test]
fn find_zero_on_zero_cell_stays_put() {
    let (p, _out) = run_source(b"+>+>+>[<]", b"");
    assert_eq!(p.data_ptr, 3);
    assert!(p.instructions.contains(&BFInstr::FindZeroCellLeft(1)));
}

#[test]
fn find_zero_right() {
    let (p, _out) = run_source(b"+>+<[>]", b"");
    assert_eq!(p.data_ptr, 2);
    assert!(p.instructions.contains(&BFInstr::FindZeroCellRight(1)));
}

#[test]
fn echo() {
    let (_p, out) = run_source(b",.", b"X");
    assert_eq!(out, b"X");
}

#[test]
fn wrap_output() {
    let (_p, out) = run_source(b"-.", b"");
    assert_eq!(out, vec![255u8]);
}

#[test]
fn wrap_increment() {
    let mut p = BFProgram::new();
    p.cell_add_imm(0, 255);
    assert_eq!(p.memory[0], 255);
    p.cell_add_imm(0, 1);
    assert_eq!(p.memory[0], 0);
    p.cell_sub_imm(0, 1);
    assert_eq!(p.memory[0], 255);
    p.cell_add_imm(0, 513);
    assert_eq!(p.memory[0], 0);
}

#[test]
fn cell_to_cell_arithmetic() {
    let mut p = BFProgram::new();
    p.cell_add_imm(0, 200);
    p.cell_add_imm(1, 100);
    p.cell_add_cell(1, 0);
    assert_eq!(p.memory[1], 44);
    p.cell_sub_cell(1, 0);
    assert_eq!(p.memory[1], 100);
}

#[test]
fn compilation_is_deterministic() {
    let src = b"++[>++<-]>.";
    let p1 = compile(src);
    let p2 = compile(src);
    assert_eq!(p1.instructions, p2.instructions);
    assert_eq!(p1.get_instr_count(), p2.get_instr_count());
    assert_eq!(p1.stats.loop_count, p2.stats.loop_count);
    assert_eq!(p1.stats.optimized_loop_count, p2.stats.optimized_loop_count);
}

#[test]
fn fusion_counts() {
    let p = compile(b"+++>>..,,<<<");
    assert_eq!(
        p.instructions,
        vec![
            BFInstr::IncVal(3),
            BFInstr::IncPC(2),
            BFInstr::Output(2),
            BFInstr::Input(2),
            BFInstr::DecPC(3),
        ]
    );
    assert_eq!(p.get_instr_count(), 12);
    assert_eq!(p.get_instructions().len(), 5);
}

#[test]
fn comments_are_skipped_without_breaking_runs() {
    let p = compile(b"+ comment +\n+");
    assert_eq!(p.instructions, vec![BFInstr::IncVal(3)]);
    assert_eq!(p.get_instr_count(), 3);
}

#[test]
fn unmatched_open_bracket() {
    let mut p = BFProgram::new();
    assert_eq!(p.compile(b"+["), Err(BFCompileError::UnmatchedOpenBracket(1)));
}

#[test]
fn unmatched_open_bracket_reports_first() {
    let mut p = BFProgram::new();
    assert_eq!(p.compile(b"[[+"), Err(BFCompileError::UnmatchedOpenBracket(0)));
}

#[test]
fn unmatched_close_bracket() {
    let mut p = BFProgram::new();
    assert_eq!(p.compile(b"+]"), Err(BFCompileError::UnmatchedCloseBracket(1)));
}

#[test]
fn tape_underflow_fails_fast() {
    let mut p = compile(b"<");
    match p.run(b"", BUDGET) {
        BFRunResult::Failed(e) => {
            assert_eq!(e.pc, 0);
            assert_eq!(e.data_ptr, 0);
        },
        _ => panic!("expected a data-pointer failure"),
    }
}

#[test]
fn tape_overflow_fails_fast() {
    let mut p = compile(b"+[>+]");
    match p.run(b"", BUDGET) {
        BFRunResult::Failed(e) => {
            assert_eq!(e.data_ptr, BF_MEMORY_SIZE - 1);
        },
        _ => panic!("expected a data-pointer failure"),
    }
}

#[test]
fn nonterminating_program_exhausts_budget() {
    let mut p = compile(b"+[]");
    match p.run(b"", 1000) {
        BFRunResult::StillRunning(out) => assert_eq!(out, b""),
        _ => panic!("expected the budget to run out"),
    }
}

#[test]
fn input_at_end_of_stream_keeps_cell() {
    let (_p, out) = run_source(b",.", b"");
    assert_eq!(out, vec![0u8]);
    let (_q, out2) = run_source(b"+++,.", b"");
    assert_eq!(out2, vec![3u8]);
}

#[test]
fn multiple_reads_keep_last_byte() {
    let (_p, out) = run_source(b",,.", b"AB");
    assert_eq!(out, b"B");
}

#[test]
fn repeated_output_repeats_current_cell() {
    let (_p, out) = run_source(b"++...", b"");
    assert_eq!(out, vec![2u8, 2, 2]);
}

#[test]
fn bracket_targets_point_at_each_other() {
    let p = compile(b"+[>[-]<-]");
    let instrs = p.get_instructions();
    for (i, instr) in instrs.iter().enumerate() {
        match *instr {
            BFInstr::LoopStart(t) => {
                assert!(matches!(instrs[t], BFInstr::LoopEnd(s) if s == i));
            },
            BFInstr::LoopEnd(s) => {
                assert!(matches!(instrs[s], BFInstr::LoopStart(t) if t == i));
            },
            _ => {},
        }
    }
}

#[test]
fn new_program_is_blank() {
    let p = BFProgram::new();
    assert_eq!(p.memory.len(), BF_MEMORY_SIZE);
    assert!(p.memory.iter().all(|&c| c == 0));
    assert_eq!(p.get_instr_count(), 0);
    assert_eq!(p.get_instructions().len(), 0);
    assert_eq!(p.data_ptr, 0);
    assert_eq!(p.pc, 0);
}

#[test]
fn empty_loop_is_not_optimized() {
    let (p, out) = run_source(b"[]", b"");
    assert_eq!(out, b"");
    assert_eq!(p.instructions, vec![BFInstr::LoopStart(1), BFInstr::LoopEnd(0)]);
    assert_eq!(p.stats.loop_count, 1);
    assert_eq!(p.stats.optimized_loop_count, 0);
}

#[test]
fn move_data_with_unequal_distances_is_not_rewritten() {
    let p = compile(b"[->>+<]");
    assert!(!p.instructions.contains(&BFInstr::AddCellValueRight(1)));
    assert!(!p.instructions.contains(&BFInstr::AddCellValueRight(2)));
    assert_eq!(p.stats.optimized_loop_count, 0);
}
