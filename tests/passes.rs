use bfopt::loops::check_move_loop;
use bfopt::{brackets_balanced, optimize, optimize_dce, optimize_loops, parse, Op};

fn optimized(code: &[u8]) -> Vec<Op> {
    optimize(parse(code.to_vec()))
}

#[test]
fn test_dce_loop_at_start() {
    let code = b"[->+<].".to_vec();
    let ops = parse(code);
    let optimized = optimize(ops);
    assert_eq!(optimized, vec![Op::Output]);
}

#[test]
fn test_dce_redundant_clear() {
    let code = b"+[-][-]".to_vec();
    let ops = parse(code);
    let optimized = optimize(ops);
    assert_eq!(optimized, vec![Op::ValAdd(1), Op::Clear]);
}

#[test]
fn test_dce_scan_loop() {
    let code = b"[<]".to_vec();
    let ops = parse(code);
    let optimized = optimize(ops);
    assert_eq!(optimized, vec![]);

    let code = b"+[<]".to_vec();
    let ops = parse(code);
    let optimized = optimize(ops);
    assert_eq!(optimized, vec![Op::ValAdd(1), Op::ScanLeft]);
}

#[test]
fn test_dce_move_loop() {
    let code = b"[->+<]".to_vec();
    let ops = parse(code);
    let optimized = optimize(ops);
    assert_eq!(optimized, vec![]);

    let code = b"+[->+<]".to_vec();
    let ops = parse(code);
    let optimized = optimize(ops);
    assert_eq!(optimized, vec![Op::ValAdd(1), Op::MulAdd(1, 1), Op::Clear]);
}

#[test]
fn test_merge_ptr_ops() {
    let code = b">>".to_vec();
    let ops = parse(code);
    let optimized = optimize(ops);
    assert_eq!(optimized, vec![Op::PtrAdd(2)]);

    let code = b">><<".to_vec();
    let ops = parse(code);
    let optimized = optimize(ops);
    assert_eq!(optimized, vec![]);

    let code = b">>><".to_vec();
    let ops = parse(code);
    let optimized = optimize(ops);
    assert_eq!(optimized, vec![Op::PtrAdd(2)]);

    let code = b"><<".to_vec();
    let ops = parse(code);
    let optimized = optimize(ops);
    assert_eq!(optimized, vec![Op::PtrSub(1)]);
}

#[test]
fn test_merge_val_ops() {
    let code = b"++".to_vec();
    let ops = parse(code);
    let optimized = optimize(ops);
    assert_eq!(optimized, vec![Op::ValAdd(2)]);

    let code = b"++--".to_vec();
    let ops = parse(code);
    let optimized = optimize(ops);
    assert_eq!(optimized, vec![]);

    let code = b"+++-".to_vec();
    let ops = parse(code);
    let optimized = optimize(ops);
    assert_eq!(optimized, vec![Op::ValAdd(2)]);

    let code = b"+--".to_vec();
    let ops = parse(code);
    let optimized = optimize(ops);
    assert_eq!(optimized, vec![Op::ValSub(1)]);
}

#[test]
fn lowering_pairs_nested_jumps() {
    let ops = parse(b"+[>[.<]+]".to_vec());
    assert_eq!(
        ops,
        vec![
            Op::ValAdd(1),
            Op::Jz(8),
            Op::PtrAdd(1),
            Op::Jz(6),
            Op::Output,
            Op::PtrSub(1),
            Op::Jnz(3),
            Op::ValAdd(1),
            Op::Jnz(1),
        ]
    );
}

#[test]
fn lowering_pairs_every_jump_with_its_counterpart() {
    let ops = parse(b"[[.][,[.]]].[[[.]]]".to_vec());
    for (i, op) in ops.iter().enumerate() {
        match *op {
            Op::Jz(t) => {
                assert!(t > i);
                assert_eq!(ops[t], Op::Jnz(i));
            }
            Op::Jnz(s) => {
                assert!(s < i);
                assert_eq!(ops[s], Op::Jz(i));
            }
            _ => {}
        }
    }
}

#[test]
fn lowering_folds_runs_and_ignores_other_bytes() {
    assert_eq!(parse(b">a>b>".to_vec()), vec![Op::PtrAdd(3)]);
    assert_eq!(parse(b"+-".to_vec()), vec![]);
    assert_eq!(parse(b"---+".to_vec()), vec![Op::ValSub(2)]);
    assert_eq!(parse(b"-++++".to_vec()), vec![Op::ValAdd(3)]);
    assert_eq!(parse(vec![b'+'; 256]), vec![]);
    assert_eq!(parse(vec![b'+'; 257]), vec![Op::ValAdd(1)]);
    assert_eq!(parse(b".,".to_vec()), vec![Op::Output, Op::Input]);
    assert_eq!(parse(Vec::new()), vec![]);
}

#[test]
fn clear_loops_lower_to_clear() {
    assert_eq!(parse(b"[-]".to_vec()), vec![Op::Clear]);
    assert_eq!(parse(b"[+]".to_vec()), vec![Op::Clear]);
    assert_eq!(parse(b">[-]<".to_vec()), vec![Op::PtrAdd(1), Op::Clear, Op::PtrSub(1)]);
    assert_eq!(optimized(b"+[+]"), vec![Op::ValAdd(1), Op::Clear]);
    assert_eq!(optimized(b",[-]."), vec![Op::Input, Op::Clear, Op::Output]);
}

#[test]
fn brackets_are_checked() {
    assert!(brackets_balanced(&b"[[]][]".to_vec()));
    assert!(brackets_balanced(&Vec::new()));
    assert!(!brackets_balanced(&b"]".to_vec()));
    assert!(!brackets_balanced(&b"[".to_vec()));
    assert!(!brackets_balanced(&b"[]][".to_vec()));
}

#[test]
fn move_loop_becomes_multiply_add() {
    assert_eq!(
        optimized(b"+++[->++<]"),
        vec![Op::ValAdd(3), Op::MulAdd(1, 2), Op::Clear]
    );
    assert_eq!(
        optimize_loops(parse(b"[>+++>-<<-]".to_vec())),
        vec![Op::MulAdd(1, 3), Op::MulAdd(2, 255), Op::Clear]
    );
    assert_eq!(
        optimize_loops(parse(b"[-<<+>>]".to_vec())),
        vec![Op::MulAdd(-2, 1), Op::Clear]
    );
}

#[test]
fn loops_that_are_not_move_loops_stay() {
    // the starting cell goes down by two per turn
    let ops = parse(b"[-->+<]".to_vec());
    assert_eq!(optimize_loops(ops.clone()), ops);
    // the body does not come back to where it started
    let ops = parse(b"[->+]".to_vec());
    assert_eq!(optimize_loops(ops.clone()), ops);
    // the body writes output
    let ops = parse(b"[-.]".to_vec());
    assert_eq!(optimize_loops(ops.clone()), ops);
}

#[test]
fn scan_loops_become_scans() {
    assert_eq!(optimize_loops(parse(b"[>]".to_vec())), vec![Op::ScanRight]);
    assert_eq!(optimize_loops(parse(b"[<]".to_vec())), vec![Op::ScanLeft]);
    let ops = parse(b"[>>]".to_vec());
    assert_eq!(optimize_loops(ops.clone()), ops);
}

#[test]
fn loop_pass_patches_targets_after_rewrites() {
    let ops = parse(b",[[-]>[>]<.]".to_vec());
    assert_eq!(
        optimize_loops(ops),
        vec![
            Op::Input,
            Op::Jz(7),
            Op::Clear,
            Op::PtrAdd(1),
            Op::ScanRight,
            Op::PtrSub(1),
            Op::Output,
            Op::Jnz(1),
        ]
    );
}

#[test]
fn dead_code_drops_work_on_known_zero_cells() {
    // a loop right after another one never runs
    assert_eq!(
        optimize_dce(parse(b",[.][.]".to_vec())),
        vec![Op::Input, Op::Jz(3), Op::Output, Op::Jnz(1)]
    );
    // a move leaves the cell unknown, even one that comes back
    assert_eq!(
        optimize_dce(vec![Op::PtrAdd(2), Op::PtrSub(2), Op::Clear, Op::Output]),
        vec![Op::Clear, Op::Output]
    );
    assert_eq!(
        optimize_dce(vec![Op::PtrAdd(1), Op::PtrSub(1), Op::Clear]),
        vec![Op::Clear]
    );
    // a move that leaves forgets it
    assert_eq!(
        optimize_dce(vec![Op::PtrAdd(2), Op::Clear]),
        vec![Op::PtrAdd(2), Op::Clear]
    );
    // multiply-adds from a zero cell add nothing
    assert_eq!(optimize_dce(vec![Op::MulAdd(1, 3), Op::Clear]), vec![]);
    // zero-length moves go away and leave what is known as it was
    assert_eq!(optimize_dce(vec![Op::PtrAdd(0), Op::Output]), vec![Op::Output]);
    assert_eq!(
        optimize_dce(vec![Op::PtrAdd(0), Op::Jz(3), Op::Input, Op::Jnz(1)]),
        vec![]
    );
}

#[test]
fn optimizing_twice_changes_nothing_more() {
    for code in [
        &b"+++[->++<]>."[..],
        &b"++++++++[>++++++++<-]>."[..],
        &b",[>,]<[.<]"[..],
        &b"+[-][-]>[<]"[..],
    ] {
        let once = optimized(code);
        assert_eq!(optimize(once.clone()), once);
    }
}

#[test]
fn folding_left_to_the_optimizer_can_take_two_rounds() {
    // a value change that cancels out leaves the cell unknown in the first round
    let once = optimize(vec![Op::ValAdd(1), Op::ValSub(1), Op::Clear]);
    assert_eq!(once, vec![Op::Clear]);
    assert_eq!(optimize(once), vec![]);
}

#[test]
fn moves_fold_modulo_the_cursor_range() {
    assert_eq!(
        optimize_dce(vec![Op::Input, Op::PtrAdd(usize::MAX), Op::PtrAdd(1), Op::Output]),
        vec![Op::Input, Op::Output]
    );
    assert_eq!(
        optimize_dce(vec![Op::PtrAdd(usize::MAX), Op::PtrAdd(2)]),
        vec![Op::PtrAdd(1)]
    );
    assert_eq!(
        optimize_dce(vec![Op::PtrSub(usize::MAX), Op::PtrSub(usize::MAX)]),
        vec![Op::PtrSub(usize::MAX - 1)]
    );
}

#[test]
fn move_loops_may_wander_far_between_value_changes() {
    // the offset leaves isize and comes back before anything is written
    assert_eq!(
        check_move_loop(&[Op::ValSub(1), Op::PtrAdd(usize::MAX), Op::PtrSub(usize::MAX)]),
        Some(vec![])
    );
    assert_eq!(
        check_move_loop(&[
            Op::ValSub(1),
            Op::PtrAdd(usize::MAX),
            Op::PtrSub(usize::MAX),
            Op::PtrSub(usize::MAX),
            Op::PtrAdd(usize::MAX),
            Op::PtrAdd(3),
            Op::ValAdd(2),
            Op::PtrSub(3),
        ]),
        Some(vec![Op::MulAdd(3, 2)])
    );
    // the cursor wraps: a full turn right and one step further left is one
    // step left
    assert_eq!(
        check_move_loop(&[
            Op::ValSub(1),
            Op::PtrAdd(usize::MAX),
            Op::ValAdd(1),
            Op::PtrSub(usize::MAX),
        ]),
        Some(vec![Op::MulAdd(-1, 1)])
    );
}
