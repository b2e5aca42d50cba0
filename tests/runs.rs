use bfopt::{execute, optimize, parse, Machine, Op, Status, Step};

fn run(ops: &Vec<Op>, input: &[u8]) -> bfopt::Run {
    execute(ops, &input.to_vec(), 1_000_000)
}

#[test]
fn move_loop_arithmetic_on_the_tape() {
    let plain = parse(b"+++[->++<]".to_vec());
    let fast = optimize(plain.clone());
    for ops in [&plain, &fast] {
        let r = run(ops, b"");
        assert_eq!(r.status, Status::Halted);
        assert_eq!(r.machine.cell(0), 0);
        assert_eq!(r.machine.cell(1), 6);
        assert_eq!(r.machine.cursor(), 0);
    }
}

#[test]
fn scan_stops_at_the_nearest_zero() {
    // tape 5, 0, 3, 0 with the cursor on the first cell
    let setup = b"+++++>>+++<<".to_vec();
    let mut code = setup.clone();
    code.extend_from_slice(b"[>]");
    let ops = optimize(parse(code));
    assert_eq!(*ops.last().unwrap(), Op::ScanRight);
    let r = run(&ops, b"");
    assert_eq!(r.status, Status::Halted);
    assert_eq!(r.machine.cursor(), 1);
    assert_eq!(r.machine.cell(0), 5);
    assert_eq!(r.machine.cell(2), 3);

    let mut code = setup;
    code.extend_from_slice(b">>[<]");
    let r = run(&optimize(parse(code)), b"");
    assert_eq!(r.machine.cursor(), 1);
}

#[test]
fn eight_times_eight_prints_one_byte() {
    let ops = optimize(parse(b"++++++++[>++++++++<-]>.".to_vec()));
    let r = run(&ops, b"");
    assert_eq!(r.status, Status::Halted);
    assert_eq!(r.output, vec![64]);
}

#[test]
fn leaving_the_tape_is_a_fault() {
    let r = run(&optimize(parse(b"<+".to_vec())), b"");
    assert_eq!(r.status, Status::Fault);
    let r = run(&parse(b"<.".to_vec()), b"");
    assert_eq!(r.status, Status::Fault);
    assert_eq!(r.machine.cursor(), usize::MAX);
    let r = run(&parse(b"+[>+]".to_vec()), b"");
    assert_eq!(r.status, Status::Fault);
    assert_eq!(r.machine.cursor(), 30000);
    // moving without touching a cell is no fault
    let r = run(&parse(b"<<>>>.".to_vec()), b"");
    assert_eq!(r.status, Status::Halted);
    assert_eq!(r.output, vec![0]);
}

#[test]
fn multiply_add_outside_the_tape_is_a_fault() {
    let r = run(&vec![Op::ValAdd(1), Op::MulAdd(-1, 2)], b"");
    assert_eq!(r.status, Status::Fault);
    let r = run(&vec![Op::MulAdd(-1, 2)], b"");
    assert_eq!(r.status, Status::Halted);
}

#[test]
fn scans_without_a_zero_fault() {
    let r = run(&vec![Op::ValAdd(1), Op::ScanLeft], b"");
    assert_eq!(r.status, Status::Fault);
}

#[test]
fn input_at_end_of_stream_keeps_the_cell() {
    let r = run(&parse(b"+++,.,.".to_vec()), b"A");
    assert_eq!(r.status, Status::Halted);
    assert_eq!(r.output, vec![65, 65]);
}

#[test]
fn bytes_wrap() {
    let r = run(&parse(b"-.".to_vec()), b"");
    assert_eq!(r.output, vec![255]);
    let r = run(&vec![Op::ValAdd(200), Op::MulAdd(1, 3), Op::PtrAdd(1), Op::Output], b"");
    assert_eq!(r.output, vec![88]);
}

#[test]
fn step_budget_runs_out() {
    let r = execute(&parse(b"+[]".to_vec()), &Vec::new(), 10);
    assert_eq!(r.status, Status::OutOfSteps);
}

#[test]
fn optimized_and_plain_runs_agree() {
    for (code, input) in [
        (&b",[->+>++<<]>.>."[..], &b"\x07"[..]),
        (&b",>,<[->[->+>+<<]>[-<+>]<<]>>>."[..], &b"\x06\x07"[..]),
        (&b",[.,]"[..], &b"hello\x00"[..]),
        (&b"++>+++[<[->>+<<]>-]>>[-]<<<[>]."[..], &b""[..]),
        (&b"+[-][-]>[<]+>,[>]<<."[..], &b"\x03"[..]),
        (&b"-[->+++<]>."[..], &b""[..]),
    ] {
        let plain = parse(code.to_vec());
        let fast = optimize(plain.clone());
        let a = run(&plain, input);
        let b = run(&fast, input);
        assert_eq!(a.status, Status::Halted);
        assert_eq!(b.status, Status::Halted);
        assert_eq!(a.output, b.output);
        for i in 0..64 {
            assert_eq!(a.machine.cell(i), b.machine.cell(i));
        }
    }
}

#[test]
fn stepping_by_hand() {
    let ops = parse(b",.".to_vec());
    let mut m = Machine::new();
    assert!(m.wants_input(&ops));
    assert_eq!(m.step(&ops, Some(9)), Step::Continue);
    assert!(!m.wants_input(&ops));
    assert_eq!(m.step(&ops, None), Step::Output(9));
    assert_eq!(m.step(&ops, None), Step::Halted);
    assert_eq!(m.counter(), 2);
}
