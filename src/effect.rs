//! What the body of a move loop does to the tape, as the loop pass records it.
use vstd::prelude::*;
use crate::ir::{Op, is_simple};
use vstd::arithmetic::div_mod::{
    lemma_mod_bound, lemma_small_mod, lemma_add_mod_noop_right, lemma_mod_sub_multiples_vanish,
    lemma_mod_add_multiples_vanish,
};
use crate::loops::{move_scan, find_key, bump, key_of, start_delta, move_of, muladds, scan_of};
use crate::machine::{
    lemma_run_continues, lemma_wrap_step, MachineState, Status, run_from, step_spec, wrap_usize, zero_at_or_after, zero_at_or_before,
};

verus! {

/// The amount that `tab` records for the cell at `x`, for a body run from
/// cursor `q`: the first entry whose offset from `q` lands on `x`.
pub open spec fn amount_at(tab: Seq<(isize, u8)>, q: int, x: int, j: int) -> int
    decreases tab.len() - j,
{
    if j < 0 || j >= tab.len() {
        0
    } else if wrap_usize(q + tab[j].0) == x {
        tab[j].1 as int
    } else {
        amount_at(tab, q, x, j + 1)
    }
}

/// The table recorded after the first `n` instructions of `body`.
pub open spec fn table_after(body: Seq<Op>, n: int) -> Seq<(isize, u8)> {
    match move_scan(body, n) {
        Some((_, tab)) => tab,
        None => Seq::empty(),
    }
}

/// The pointer offset reached after the first `n` instructions of `body`.
pub open spec fn offset_after(body: Seq<Op>, n: int) -> int {
    match move_scan(body, n) {
        Some((off, _)) => off,
        None => 0,
    }
}

pub open spec fn has_key(tab: Seq<(isize, u8)>, key: isize) -> bool {
    exists|m: int| 0 <= m < tab.len() && #[trigger] tab[m].0 == key
}

proof fn lemma_find_key(tab: Seq<(isize, u8)>, key: isize, j: int)
    requires
        0 <= j <= tab.len(),
    ensures
        j <= find_key(tab, key, j) <= tab.len(),
        find_key(tab, key, j) < tab.len() ==> tab[find_key(tab, key, j)].0 == key,
        forall|m: int| j <= m < find_key(tab, key, j) ==> tab[m].0 != key,
    decreases tab.len() - j,
{
    if j < tab.len() && tab[j].0 != key {
        lemma_find_key(tab, key, j + 1);
    }
}

/// Distinct offsets from a cursor land on distinct cells.
proof fn lemma_cells_distinct(q: int, a: isize, b: isize)
    requires
        0 <= q <= usize::MAX,
        a != b,
    ensures
        wrap_usize(q + a) != wrap_usize(q + b),
{
}

proof fn lemma_amount_agree(s: Seq<(isize, u8)>, t: Seq<(isize, u8)>, q: int, x: int, j: int)
    requires
        0 <= j,
        s.len() == t.len(),
        forall|m: int| j <= m < s.len() ==> s[m] == t[m],
    ensures
        amount_at(s, q, x, j) == amount_at(t, q, x, j),
    decreases s.len() - j,
{
    if j < s.len() {
        lemma_amount_agree(s, t, q, x, j + 1);
    }
}

proof fn lemma_amount_update(
    tab: Seq<(isize, u8)>,
    q: int,
    x: int,
    j: int,
    k: int,
    key: isize,
    v: u8,
)
    requires
        0 <= q <= usize::MAX,
        0 <= j <= k < tab.len(),
        tab[k].0 == key,
        forall|m: int| j <= m < k ==> tab[m].0 != key,
    ensures
        amount_at(tab.update(k, (key, v)), q, x, j) == if x == wrap_usize(q + key) {
            v as int
        } else {
            amount_at(tab, q, x, j)
        },
        x == wrap_usize(q + key) ==> amount_at(tab, q, x, j) == tab[k].1,
    decreases k - j,
{
    let t = tab.update(k, (key, v));
    if j < k {
        lemma_cells_distinct(q, tab[j].0, key);
        lemma_amount_update(tab, q, x, j + 1, k, key, v);
    } else {
        if x != wrap_usize(q + key) {
            lemma_amount_agree(tab, t, q, x, k + 1);
        }
    }
}

proof fn lemma_amount_push(tab: Seq<(isize, u8)>, q: int, x: int, j: int, key: isize, v: u8)
    requires
        0 <= q <= usize::MAX,
        0 <= j <= tab.len(),
        forall|m: int| j <= m < tab.len() ==> tab[m].0 != key,
    ensures
        amount_at(tab.push((key, v)), q, x, j) == if x == wrap_usize(q + key) {
            v as int
        } else {
            amount_at(tab, q, x, j)
        },
        x == wrap_usize(q + key) ==> amount_at(tab, q, x, j) == 0,
    decreases tab.len() - j,
{
    let t = tab.push((key, v));
    if j < tab.len() {
        assert(t[j] == tab[j]);
        lemma_cells_distinct(q, tab[j].0, key);
        lemma_amount_push(tab, q, x, j + 1, key, v);
    } else {
        assert(t[j] == (key, v));
        assert(amount_at(t, q, x, j + 1) == 0);
    }
}

/// Adding `d` at `key` adds `d`, modulo 256, to the amount of the cell that
/// `key` lands on, and leaves the others.
proof fn lemma_amount_bump(tab: Seq<(isize, u8)>, q: int, key: isize, d: int, x: int)
    requires
        0 <= q <= usize::MAX,
    ensures
        amount_at(bump(tab, key, d), q, x, 0) == if x == wrap_usize(q + key) {
            (amount_at(tab, q, x, 0) + d) % 256
        } else {
            amount_at(tab, q, x, 0)
        },
        has_key(bump(tab, key, d), key),
        forall|k: isize| has_key(tab, k) ==> has_key(bump(tab, key, d), k),
{
    lemma_find_key(tab, key, 0);
    let k = find_key(tab, key, 0);
    let b = bump(tab, key, d);
    if k < tab.len() {
        lemma_amount_update(tab, q, x, 0, k, key, ((tab[k].1 + d) % 256) as u8);
        assert(b[k].0 == key);
        assert forall|kk: isize| has_key(tab, kk) implies has_key(b, kk) by {
            let m = choose|m: int| 0 <= m < tab.len() && #[trigger] tab[m].0 == kk;
            assert(b[m].0 == kk);
        }
    } else {
        lemma_amount_push(tab, q, x, 0, key, (d % 256) as u8);
        assert(b[tab.len() as int].0 == key);
        assert forall|kk: isize| has_key(tab, kk) implies has_key(b, kk) by {
            let m = choose|m: int| 0 <= m < tab.len() && #[trigger] tab[m].0 == kk;
            assert(b[m].0 == kk);
        }
    }
}

/// Offsets recorded after `a` instructions are still recorded after `b`.
proof fn lemma_keys_grow(body: Seq<Op>, a: int, b: int)
    requires
        0 <= a <= b <= body.len(),
        move_scan(body, b) is Some,
    ensures
        move_scan(body, a) is Some,
        forall|k: isize| #[trigger]
            has_key(table_after(body, a), k) ==> has_key(table_after(body, b), k),
    decreases b - a,
{
    if a < b {
        lemma_keys_grow(body, a, b - 1);
        let (off, tab) = move_scan(body, b - 1)->0;
        assert forall|k: isize| has_key(tab, k) implies has_key(table_after(body, b), k) by {
            match body[b - 1] {
                Op::ValAdd(v) => lemma_amount_bump(tab, 0, key_of(off), v as int, 0),
                Op::ValSub(v) => lemma_amount_bump(tab, 0, key_of(off), -v, 0),
                _ => {},
            }
        }
    }
}

/// The cursor moved by `off` stands where it stands moved by `key_of(off)`.
proof fn lemma_cursor_cell(q: int, off: int)
    requires
        0 <= q <= usize::MAX,
    ensures
        (q + off) % (usize::MAX + 1) == wrap_usize(q + key_of(off)),
{
    let m = usize::MAX + 1;
    let u = off % m;
    lemma_mod_bound(off, m);
    lemma_add_mod_noop_right(q, off, m);
    lemma_mod_sub_multiples_vanish(q + u, m);
    let key = key_of(off) as int;
    assert(key == u || key == u - m);
    assert((q + key) % m == (q + off) % m);
    let x = q + key;
    if x < 0 {
        lemma_mod_add_multiples_vanish(x, m);
        lemma_small_mod((m + x) as nat, m as nat);
    } else if x >= m {
        lemma_mod_sub_multiples_vanish(x, m);
        lemma_small_mod((x - m) as nat, m as nat);
    } else {
        lemma_small_mod(x as nat, m as nat);
    }
}

proof fn lemma_mod_shift(t: int, a: int, d: int)
    ensures
        (t + (a + d) % 256) % 256 == ((t + a) % 256 + d) % 256,
{
    vstd::arithmetic::div_mod::lemma_add_mod_noop_right(t, a + d, 256);
    vstd::arithmetic::div_mod::lemma_add_mod_noop_right(d, t + a, 256);
}

/// The tape that a body of `tab` leaves behind when run from cursor `q`.
pub open spec fn tape_after(tape: Seq<u8>, q: int, tab: Seq<(isize, u8)>) -> Seq<u8> {
    Seq::new(tape.len(), |x: int| ((tape[x] + amount_at(tab, q, x, 0)) % 256) as u8)
}

/// One more value change at `key` is one more update of its cell.
proof fn lemma_tape_step(tape: Seq<u8>, q: int, tab: Seq<(isize, u8)>, key: isize, d: int)
    requires
        0 <= q <= usize::MAX,
        0 <= wrap_usize(q + key) < tape.len(),
    ensures
        ({
            let c = wrap_usize(q + key);
            let before = tape_after(tape, q, tab);
            tape_after(tape, q, bump(tab, key, d)) == before.update(
                c,
                ((before[c] + d) % 256) as u8,
            )
        }),
{
    let c = wrap_usize(q + key);
    let before = tape_after(tape, q, tab);
    let after = tape_after(tape, q, bump(tab, key, d));
    assert forall|x: int| 0 <= x < tape.len() implies #[trigger] after[x] == before.update(
        c,
        ((before[c] + d) % 256) as u8,
    )[x] by {
        lemma_amount_bump(tab, q, key, d, x);
        if x == c {
            lemma_mod_shift(tape[x] as int, amount_at(tab, q, x, 0), d);
        }
    }
    assert(after =~= before.update(c, ((before[c] + d) % 256) as u8));
}

/// The state after the first `j` instructions of a move loop's body, which
/// stands in `ops` from `base` on, run from `s`.
pub open spec fn body_state(body: Seq<Op>, s: MachineState, base: int, j: int) -> MachineState {
    let (off, tab) = move_scan(body, j)->0;
    MachineState {
        tape: tape_after(s.tape, s.ptr, tab),
        ptr: (s.ptr + off) % (usize::MAX + 1),
        pc: base + j,
    }
}

/// Before the first instruction of the body the state is the starting one.
proof fn lemma_body_start(body: Seq<Op>, s: MachineState, base: int)
    requires
        s.pc == base,
        0 <= s.ptr <= usize::MAX,
    ensures
        body_state(body, s, base, 0) == s,
{
    let s0 = body_state(body, s, base, 0);
    assert(move_scan(body, 0) == Some((0int, Seq::<(isize, u8)>::empty())));
    assert(s0.tape =~= s.tape) by {
        assert forall|x: int| 0 <= x < s.tape.len() implies s0.tape[x] == s.tape[x] by {
            assert(amount_at(Seq::<(isize, u8)>::empty(), s.ptr, x, 0) == 0);
            lemma_small_mod(s.tape[x] as nat, 256);
        }
    }
    lemma_small_mod(s.ptr as nat, (usize::MAX + 1) as nat);
}

/// One instruction of a move loop's body takes the state after the first
/// `j - 1` to the state after the first `j`.
proof fn lemma_body_step(ops: Seq<Op>, base: int, body: Seq<Op>, s: MachineState, j: int)
    requires
        move_scan(body, body.len() as int) is Some,
        0 <= base,
        base + body.len() <= ops.len(),
        forall|k: int| 0 <= k < body.len() ==> ops[base + k] == body[k],
        1 <= j <= body.len(),
        s.pc == base,
        0 <= s.ptr <= usize::MAX,
        forall|k: isize|
            has_key(table_after(body, body.len() as int), k) ==> 0 <= #[trigger] wrap_usize(
                s.ptr + k,
            ) < s.tape.len(),
    ensures
        step_spec(ops, body_state(body, s, base, j - 1), None) == (
            crate::machine::Step::Continue,
            body_state(body, s, base, j),
        ),
        is_simple(body[j - 1]),
{
    let n = body.len() as int;
    lemma_keys_grow(body, j, n);
    let prev = body_state(body, s, base, j - 1);
    let next = body_state(body, s, base, j);
    let (off, tab) = move_scan(body, j - 1)->0;
    let op = body[j - 1];
    assert(ops[base + j - 1] == op);
    assert(is_simple(op));
    let q = s.ptr;
    let key = key_of(off);
    match op {
        Op::PtrAdd(k) => {
            lemma_wrap_step(q + off, k as int);
        },
        Op::PtrSub(k) => {
            lemma_wrap_step(q + off, k as int);
        },
        Op::ValAdd(v) => {
            lemma_cursor_cell(q, off);
            lemma_amount_bump(tab, q, key, v as int, 0);
            assert(has_key(table_after(body, j), key));
            lemma_tape_step(s.tape, q, tab, key, v as int);
        },
        Op::ValSub(v) => {
            lemma_cursor_cell(q, off);
            lemma_amount_bump(tab, q, key, -v, 0);
            assert(has_key(table_after(body, j), key));
            lemma_tape_step(s.tape, q, tab, key, -v);
        },
        _ => {},
    }
    assert(step_spec(ops, prev, None) == (crate::machine::Step::Continue, next));
}

proof fn lemma_body_steps(
    ops: Seq<Op>,
    base: int,
    body: Seq<Op>,
    s: MachineState,
    input: Seq<u8>,
    f: nat,
    j: int,
)
    requires
        move_scan(body, body.len() as int) is Some,
        0 <= base,
        base + body.len() <= ops.len(),
        forall|k: int| 0 <= k < body.len() ==> ops[base + k] == body[k],
        0 <= j <= body.len(),
        s.pc == base,
        0 <= s.ptr <= usize::MAX,
        forall|k: isize|
            has_key(table_after(body, body.len() as int), k) ==> 0 <= #[trigger] wrap_usize(
                s.ptr + k,
            ) < s.tape.len(),
    ensures
        run_from(ops, s, input, f + body.len()) == run_from(
            ops,
            body_state(body, s, base, j),
            input,
            (f + body.len() - j) as nat,
        ),
    decreases j,
{
    let n = body.len() as int;
    if j == 0 {
        lemma_body_start(body, s, base);
    } else {
        lemma_body_steps(ops, base, body, s, input, f, j - 1);
        lemma_body_step(ops, base, body, s, j);
        let prev = body_state(body, s, base, j - 1);
        assert(ops[base + j - 1] == body[j - 1]);
        assert(is_simple(body[j - 1]));
        lemma_run_continues(
            ops,
            prev,
            body_state(body, s, base, j),
            input,
            (f + n - (j - 1)) as nat,
        );
    }
}

/// A loop around `body`, standing alone as a program.
pub open spec fn loop_program(body: Seq<Op>) -> Seq<Op> {
    seq![Op::Jz((body.len() + 1) as usize)] + body + seq![Op::Jnz(0)]
}

/// The tape after `i` passes of a body of `tab` from cursor `q`.
pub open spec fn iter_tape(tape: Seq<u8>, q: int, tab: Seq<(isize, u8)>, i: int) -> Seq<u8> {
    Seq::new(tape.len(), |x: int| ((tape[x] + i * amount_at(tab, q, x, 0)) % 256) as u8)
}

proof fn lemma_iter_step(tape: Seq<u8>, q: int, tab: Seq<(isize, u8)>, i: int)
    ensures
        tape_after(iter_tape(tape, q, tab, i), q, tab) == iter_tape(tape, q, tab, i + 1),
{
    let a = tape_after(iter_tape(tape, q, tab, i), q, tab);
    let b = iter_tape(tape, q, tab, i + 1);
    assert forall|x: int| 0 <= x < tape.len() implies #[trigger] a[x] == b[x] by {
        let m = amount_at(tab, q, x, 0);
        vstd::arithmetic::div_mod::lemma_add_mod_noop_right(m, tape[x] + i * m, 256);
        assert((i + 1) * m == i * m + m) by (nonlinear_arith);
    }
    assert(a =~= b);
}

proof fn lemma_amount_self(tab: Seq<(isize, u8)>, q: int, j: int)
    requires
        0 <= q <= usize::MAX,
        0 <= j <= tab.len(),
    ensures
        amount_at(tab, q, q, j) == if find_key(tab, 0, j) < tab.len() {
            tab[find_key(tab, 0, j)].1 as int
        } else {
            0
        },
    decreases tab.len() - j,
{
    if j < tab.len() {
        if tab[j].0 != 0 {
            lemma_cells_distinct(q, tab[j].0, 0);
            lemma_amount_self(tab, q, j + 1);
        }
    }
}

/// The starting cell goes down by one per pass.
proof fn lemma_start_cell(tape: Seq<u8>, q: int, tab: Seq<(isize, u8)>, i: int)
    requires
        0 <= q < tape.len(),
        q <= usize::MAX,
        start_delta(tab) == 255,
        0 <= i <= tape[q],
    ensures
        iter_tape(tape, q, tab, i)[q] == tape[q] - i,
{
    lemma_amount_self(tab, q, 0);
    let v = tape[q] as int;
    assert(v + i * 255 == 256 * i + (v - i)) by (nonlinear_arith);
    vstd::arithmetic::div_mod::lemma_mod_multiples_vanish(i, v - i, 256);
    vstd::arithmetic::div_mod::lemma_small_mod((v - i) as nat, 256);
}

/// The table of a move loop's body holds each offset once.
proof fn lemma_scan_unique(body: Seq<Op>, n: int)
    requires
        move_scan(body, n) is Some,
    ensures
        forall|a: int, b: int|
            0 <= a < b < table_after(body, n).len() ==> #[trigger] table_after(body, n)[a].0
                != #[trigger] table_after(body, n)[b].0,
    decreases n,
{
    if 0 < n <= body.len() {
        lemma_scan_unique(body, n - 1);
        let (off, tab) = move_scan(body, n - 1)->0;
        let t2 = table_after(body, n);
        assert(tab == table_after(body, n - 1));
        match body[n - 1] {
            Op::ValAdd(_) | Op::ValSub(_) => {
                let key = key_of(off);
                lemma_find_key(tab, key, 0);
                let k = find_key(tab, key, 0);
                assert forall|a: int, b: int| 0 <= a < b < t2.len() implies #[trigger] t2[a].0
                    != #[trigger] t2[b].0 by {
                    if k < tab.len() {
                        assert(t2 == tab.update(k, t2[k]));
                        assert(t2[a].0 == tab[a].0 && t2[b].0 == tab[b].0);
                        assert(table_after(body, n - 1)[a].0 != table_after(body, n - 1)[b].0);
                    } else if b < tab.len() {
                        assert(t2[a] == tab[a] && t2[b] == tab[b]);
                        assert(table_after(body, n - 1)[a].0 != table_after(body, n - 1)[b].0);
                    } else {
                        assert(t2[a] == tab[a]);
                        assert(t2[b].0 == key);
                    }
                }
            },
            _ => {
                assert(t2 == tab);
            },
        }
    }
}

/// The state at the start of pass `i` of the loop.
pub open spec fn turn_state(tape: Seq<u8>, q: int, tab: Seq<(isize, u8)>, i: int) -> MachineState {
    MachineState { tape: iter_tape(tape, q, tab, i), ptr: q, pc: 0 }
}

proof fn lemma_move_of_parts(body: Seq<Op>)
    requires
        move_of(body) is Some,
    ensures
        move_scan(body, body.len() as int) is Some,
        offset_after(body, body.len() as int) == 0,
        start_delta(table_after(body, body.len() as int)) == 255,
        move_of(body)->0 == muladds(table_after(body, body.len() as int)),
        has_key(table_after(body, body.len() as int), 0),
{
    let tab = table_after(body, body.len() as int);
    lemma_find_key(tab, 0, 0);
    let k = find_key(tab, 0, 0);
    assert(k < tab.len());
    assert(tab[k].0 == 0);
}

/// Each pass of the loop: the starting cell is not zero, the body runs once
/// and comes back to the starting cell, and the closing jump either goes
/// round again or, once the starting cell is zero, falls out of the loop.
proof fn lemma_loop_turns(
    body: Seq<Op>,
    tape: Seq<u8>,
    q: int,
    input: Seq<u8>,
    i: int,
    f: nat,
)
    requires
        move_of(body) is Some,
        0 <= q < tape.len(),
        q <= usize::MAX,
        forall|k: isize|
            has_key(table_after(body, body.len() as int), k) ==> 0 <= #[trigger] wrap_usize(q + k)
                < tape.len(),
        0 <= i < tape[q],
    ensures
        ({
            let tab = table_after(body, body.len() as int);
            let n = body.len() as int;
            run_from(
                loop_program(body),
                turn_state(tape, q, tab, i),
                input,
                (f + (tape[q] - i) * (n + 2) + 1) as nat,
            ) == (Status::Halted, Seq::<u8>::empty(), MachineState {
                tape: iter_tape(tape, q, tab, tape[q] as int),
                ptr: q,
                pc: n + 2,
            })
        }),
    decreases tape[q] - i,
{
    lemma_move_of_parts(body);
    let tab = table_after(body, body.len() as int);
    let n = body.len() as int;
    let l = loop_program(body);
    let v = tape[q] as int;
    let si = turn_state(tape, q, tab, i);
    lemma_start_cell(tape, q, tab, i);
    lemma_start_cell(tape, q, tab, i + 1);
    assert(l[0] == Op::Jz((n + 1) as usize));
    assert(l[n + 1] == Op::Jnz(0));
    assert forall|k: int| 0 <= k < n implies l[1 + k] == body[k] by {
        assert(l[1 + k] == (seq![Op::Jz((n + 1) as usize)] + body)[1 + k]);
    }
    let s1 = MachineState { tape: iter_tape(tape, q, tab, i), ptr: q, pc: 1 };
    let big = (f + (v - i) * (n + 2) + 1) as nat;
    assert((v - i) * (n + 2) == (v - i - 1) * (n + 2) + n + 2) by (nonlinear_arith);
    assert((v - i - 1) * (n + 2) >= 0) by (nonlinear_arith)
        requires
            v - i - 1 >= 0,
            n >= 0,
    ;
    assert(step_spec(l, si, None) == (crate::machine::Step::Continue, s1));
    assert(run_from(l, si, input, big) == run_from(l, s1, input, (big - 1) as nat));
    let f2 = (big - 1 - n) as nat;
    lemma_body_steps(l, 1, body, s1, input, f2, n);
    let b = body_state(body, s1, 1, n);
    lemma_iter_step(tape, q, tab, i);
    lemma_small_mod(q as nat, (usize::MAX + 1) as nat);
    assert(b == MachineState { tape: iter_tape(tape, q, tab, i + 1), ptr: q, pc: n + 1 });
    if i + 1 < v {
        let next = turn_state(tape, q, tab, i + 1);
        assert(step_spec(l, b, None) == (crate::machine::Step::Continue, next));
        assert(run_from(l, b, input, f2) == run_from(l, next, input, (f2 - 1) as nat));
        lemma_loop_turns(body, tape, q, input, i + 1, f);
    } else {
        let end = MachineState { tape: iter_tape(tape, q, tab, v), ptr: q, pc: n + 2 };
        assert(step_spec(l, b, None) == (crate::machine::Step::Continue, end));
        assert(run_from(l, b, input, f2) == run_from(l, end, input, (f2 - 1) as nat));
        assert(run_from(l, end, input, (f2 - 1) as nat) == (
            Status::Halted,
            Seq::<u8>::empty(),
            end,
        ));
    }
}

/// The tape after the `MulAdd` instructions of the first entries `t` of a
/// table, from cursor `q` whose cell holds `v`.
pub open spec fn mul_tape(tape: Seq<u8>, q: int, t: Seq<(isize, u8)>, v: int) -> Seq<u8> {
    Seq::new(
        tape.len(),
        |x: int|
            if x == q {
                tape[x]
            } else {
                ((tape[x] + v * amount_at(t, q, x, 0)) % 256) as u8
            },
    )
}

proof fn lemma_muladds_prefix(tab: Seq<(isize, u8)>, j: int)
    requires
        0 <= j <= tab.len(),
    ensures
        muladds(tab.take(j)).len() <= muladds(tab).len(),
        forall|i: int|
            0 <= i < muladds(tab.take(j)).len() ==> muladds(tab)[i] == #[trigger] muladds(
                tab.take(j),
            )[i],
    decreases tab.len() - j,
{
    if j < tab.len() {
        lemma_muladds_prefix(tab, j + 1);
        assert(tab.take(j + 1).drop_last() =~= tab.take(j));
        assert(tab.take(j + 1).last() == tab[j]);
        let a = muladds(tab.take(j));
        let b = muladds(tab.take(j + 1));
        assert(b == if tab[j].0 != 0 {
            a.push(Op::MulAdd(tab[j].0, tab[j].1))
        } else {
            a
        });
        assert forall|i: int| 0 <= i < a.len() implies muladds(tab)[i] == #[trigger] a[i] by {
            assert(b[i] == a[i]);
        }
    } else {
        assert(tab.take(j) =~= tab);
    }
}

/// The state after the `MulAdd` instructions of the first `j` entries.
pub open spec fn mul_state(tab: Seq<(isize, u8)>, tape: Seq<u8>, q: int, j: int) -> MachineState {
    MachineState {
        tape: mul_tape(tape, q, tab.take(j), tape[q] as int),
        ptr: q,
        pc: muladds(tab.take(j)).len() as int,
    }
}

proof fn lemma_mul_one(tab: Seq<(isize, u8)>, tape: Seq<u8>, q: int, j: int)
    requires
        0 <= q < tape.len(),
        q <= usize::MAX,
        1 <= j <= tab.len(),
        forall|a: int, b: int| 0 <= a < b < tab.len() ==> #[trigger] tab[a].0 != #[trigger] tab[b].0,
        forall|k: isize| has_key(tab, k) ==> 0 <= #[trigger] wrap_usize(q + k) < tape.len(),
    ensures
        tab[j - 1].0 == 0 ==> mul_state(tab, tape, q, j) == mul_state(tab, tape, q, j - 1),
        tab[j - 1].0 != 0 ==> step_spec(
            muladds(tab).push(Op::Clear),
            mul_state(tab, tape, q, j - 1),
            None,
        ) == (crate::machine::Step::Continue, mul_state(tab, tape, q, j)),
        tab[j - 1].0 != 0 ==> muladds(tab).push(Op::Clear)[mul_state(tab, tape, q, j - 1).pc]
            == Op::MulAdd(tab[j - 1].0, tab[j - 1].1),
        tab[j - 1].0 != 0 ==> mul_state(tab, tape, q, j).pc == mul_state(tab, tape, q, j - 1).pc
            + 1,
{
    let prog = muladds(tab).push(Op::Clear);
    let v = tape[q] as int;
    lemma_muladds_prefix(tab, j);
    let prev_t = tab.take(j - 1);
    let e = tab[j - 1];
    assert(tab.take(j) =~= prev_t.push(e));
    assert(tab.take(j).drop_last() =~= prev_t);
    let m0 = muladds(prev_t).len() as int;
    let before = mul_state(tab, tape, q, j - 1);
    let after = mul_state(tab, tape, q, j);
    assert forall|m: int| 0 <= m < prev_t.len() implies prev_t[m].0 != e.0 by {
        assert(prev_t[m] == tab[m]);
    }
    assert forall|x: int| 0 <= x < tape.len() && x != q implies amount_at(tab.take(j), q, x, 0)
        == if x == wrap_usize(q + e.0) {
        e.1 as int
    } else {
        amount_at(prev_t, q, x, 0)
    } by {
        lemma_amount_push(prev_t, q, x, 0, e.0, e.1);
    }
    if e.0 == 0 {
        assert(after.tape =~= before.tape);
    } else {
        let a = wrap_usize(q + e.0);
        assert(has_key(tab, e.0)) by {
            assert(tab[j - 1].0 == e.0);
        }
        lemma_cells_distinct(q, e.0, 0);
        lemma_amount_push(prev_t, q, a, 0, e.0, e.1);
        assert(prog[m0] == Op::MulAdd(e.0, e.1)) by {
            assert(muladds(tab.take(j))[m0] == Op::MulAdd(e.0, e.1));
        }
        assert(before.tape[q] == v);
        if v == 0 {
            assert(after.tape =~= before.tape);
        } else {
            assert(after.tape =~= before.tape.update(a, ((before.tape[a] + v * e.1) % 256) as u8));
        }
    }
}

proof fn lemma_mul_steps(
    tab: Seq<(isize, u8)>,
    tape: Seq<u8>,
    q: int,
    input: Seq<u8>,
    f: nat,
    j: int,
)
    requires
        0 <= q < tape.len(),
        q <= usize::MAX,
        0 <= j <= tab.len(),
        forall|a: int, b: int| 0 <= a < b < tab.len() ==> #[trigger] tab[a].0 != #[trigger] tab[b].0,
        forall|k: isize| has_key(tab, k) ==> 0 <= #[trigger] wrap_usize(q + k) < tape.len(),
    ensures
        run_from(
            muladds(tab).push(Op::Clear),
            MachineState { tape, ptr: q, pc: 0 },
            input,
            (f + mul_state(tab, tape, q, j).pc) as nat,
        ) == run_from(muladds(tab).push(Op::Clear), mul_state(tab, tape, q, j), input, f),
    decreases j,
{
    let prog = muladds(tab).push(Op::Clear);
    if j == 0 {
        assert(tab.take(0) =~= Seq::<(isize, u8)>::empty());
        assert(mul_state(tab, tape, q, 0).tape =~= tape);
        assert(mul_state(tab, tape, q, 0) == MachineState { tape, ptr: q, pc: 0 });
    } else {
        lemma_mul_one(tab, tape, q, j);
        let before = mul_state(tab, tape, q, j - 1);
        let after = mul_state(tab, tape, q, j);
        if tab[j - 1].0 == 0 {
            lemma_mul_steps(tab, tape, q, input, f, j - 1);
        } else {
            lemma_mul_steps(tab, tape, q, input, f + 1, j - 1);
            assert(run_from(prog, before, input, f + 1) == run_from(prog, after, input, f));
        }
    }
}

/// A move loop standing alone as a program, and the instructions that the
/// loop pass puts in its place, run from the same state in which every cell
/// that the loop writes lies on the tape: both halt without output, with the
/// cursor in the same place and the same tape.
pub proof fn lemma_move_loop_rewrite(body: Seq<Op>, s: MachineState, input: Seq<u8>)
    requires
        move_of(body) is Some,
        body.len() < usize::MAX,
        s.pc == 0,
        0 <= s.ptr <= usize::MAX,
        forall|k: isize|
            has_key(table_after(body, body.len() as int), k) ==> 0 <= #[trigger] wrap_usize(
                s.ptr + k,
            ) < s.tape.len(),
    ensures
        ({
            let n = body.len() as int;
            let rewritten = move_of(body)->0.push(Op::Clear);
            let (ls, lout, lend) = run_from(
                loop_program(body),
                s,
                input,
                (s.tape[s.ptr] * (n + 2) + 3) as nat,
            );
            let (rs, rout, rend) = run_from(rewritten, s, input, (rewritten.len() + 1) as nat);
            &&& ls == Status::Halted
            &&& rs == Status::Halted
            &&& lout.len() == 0
            &&& rout.len() == 0
            &&& lend.ptr == rend.ptr
            &&& lend.tape == rend.tape
        }),
{
    lemma_move_of_parts(body);
    let n = body.len() as int;
    let tab = table_after(body, n);
    let q = s.ptr;
    assert(wrap_usize(q + 0isize) == q);
    let tape = s.tape;
    let v = tape[q] as int;
    let l = loop_program(body);
    // the loop
    let end = MachineState { tape: iter_tape(tape, q, tab, v), ptr: q, pc: n + 2 };
    assert(iter_tape(tape, q, tab, 0) =~= tape);
    assert(turn_state(tape, q, tab, 0) == s);
    if v > 0 {
        lemma_loop_turns(body, tape, q, input, 0, 2);
        assert(v * (n + 2) + 3 == 2 + (v - 0) * (n + 2) + 1);
    } else {
        assert(l[0] == Op::Jz((n + 1) as usize));
        assert(l[n + 1] == Op::Jnz(0));
        let at_close = MachineState { tape, ptr: q, pc: n + 1 };
        assert(step_spec(l, s, None) == (crate::machine::Step::Continue, at_close));
        assert(iter_tape(tape, q, tab, v) =~= tape);
        assert(step_spec(l, at_close, None) == (crate::machine::Step::Continue, end));
        assert(run_from(l, s, input, 3) == run_from(l, at_close, input, 2));
        assert(run_from(l, at_close, input, 2) == run_from(l, end, input, 1));
    }
    // the instructions in its place
    lemma_scan_unique(body, n);
    let prog = muladds(tab).push(Op::Clear);
    let m = muladds(tab).len() as int;
    lemma_mul_steps(tab, tape, q, input, 2, tab.len() as int);
    assert(tab.take(tab.len() as int) =~= tab);
    assert(mul_state(tab, tape, q, tab.len() as int).pc == m);
    let mid = MachineState { tape: mul_tape(tape, q, tab, v), ptr: q, pc: m };
    let done = MachineState { tape: mid.tape.update(q, 0), ptr: q, pc: m + 1 };
    assert(prog[m] == Op::Clear);
    assert(step_spec(prog, mid, None) == (crate::machine::Step::Continue, done));
    assert(run_from(prog, mid, input, 2) == run_from(prog, done, input, 1));
    // the same tape
    lemma_start_cell(tape, q, tab, v);
    assert(end.tape =~= done.tape);
}

proof fn lemma_scan_right_turns(tape: Seq<u8>, p: int, input: Seq<u8>, f: nat)
    requires
        tape.len() <= usize::MAX,
        0 <= p < tape.len(),
        tape[p] != 0,
    ensures
        ({
            let z = zero_at_or_after(tape, p);
            run_from(
                loop_program(seq![Op::PtrAdd(1)]),
                MachineState { tape, ptr: p, pc: 0 },
                input,
                (f + 3 * (z - p) + 1) as nat,
            ) == if z < tape.len() {
                (Status::Halted, Seq::<u8>::empty(), MachineState { tape, ptr: z, pc: 3 })
            } else {
                (Status::Fault, Seq::<u8>::empty(), MachineState {
                    tape,
                    ptr: tape.len() as int,
                    pc: 2,
                })
            }
        }),
    decreases tape.len() - p,
{
    let l = loop_program(seq![Op::PtrAdd(1)]);
    assert(l =~= seq![Op::Jz(2), Op::PtrAdd(1), Op::Jnz(0)]);
    let z = zero_at_or_after(tape, p);
    let s0 = MachineState { tape, ptr: p, pc: 0 };
    let s1 = MachineState { tape, ptr: p, pc: 1 };
    let s2 = MachineState { tape, ptr: p + 1, pc: 2 };
    assert(z == zero_at_or_after(tape, p + 1));
    lemma_zero_after_bounds(tape, p + 1);
    let big = (f + 3 * (z - p) + 1) as nat;
    assert(run_from(l, s0, input, big) == run_from(l, s1, input, (big - 1) as nat));
    assert(run_from(l, s1, input, (big - 1) as nat) == run_from(l, s2, input, (big - 2) as nat));
    if p + 1 < tape.len() {
        if tape[p + 1] == 0 {
            let s3 = MachineState { tape, ptr: p + 1, pc: 3 };
            assert(z == p + 1);
            assert(run_from(l, s2, input, (big - 2) as nat) == run_from(l, s3, input, (big - 3) as nat));
            assert(run_from(l, s3, input, (big - 3) as nat) == (
                Status::Halted,
                Seq::<u8>::empty(),
                s3,
            ));
        } else {
            let next = MachineState { tape, ptr: p + 1, pc: 0 };
            assert(run_from(l, s2, input, (big - 2) as nat) == run_from(l, next, input, (big - 3) as nat));
            lemma_scan_right_turns(tape, p + 1, input, f);
        }
    } else {
        assert(z == tape.len());
        assert(run_from(l, s2, input, (big - 2) as nat) == (Status::Fault, Seq::<u8>::empty(), s2));
    }
}

proof fn lemma_zero_after_bounds(tape: Seq<u8>, i: int)
    requires
        0 <= i <= tape.len(),
    ensures
        i <= zero_at_or_after(tape, i) <= tape.len(),
        zero_at_or_after(tape, i) < tape.len() ==> tape[zero_at_or_after(tape, i)] == 0,
    decreases tape.len() - i,
{
    if i < tape.len() && tape[i] != 0 {
        lemma_zero_after_bounds(tape, i + 1);
    }
}

proof fn lemma_scan_left_turns(tape: Seq<u8>, p: int, input: Seq<u8>, f: nat)
    requires
        tape.len() <= usize::MAX,
        0 <= p < tape.len(),
        tape[p] != 0,
    ensures
        ({
            let z = zero_at_or_before(tape, p);
            run_from(
                loop_program(seq![Op::PtrSub(1)]),
                MachineState { tape, ptr: p, pc: 0 },
                input,
                (f + 3 * (p - z) + 1) as nat,
            ) == if z >= 0 {
                (Status::Halted, Seq::<u8>::empty(), MachineState { tape, ptr: z, pc: 3 })
            } else {
                (Status::Fault, Seq::<u8>::empty(), MachineState {
                    tape,
                    ptr: usize::MAX as int,
                    pc: 2,
                })
            }
        }),
    decreases p,
{
    let l = loop_program(seq![Op::PtrSub(1)]);
    assert(l =~= seq![Op::Jz(2), Op::PtrSub(1), Op::Jnz(0)]);
    let z = zero_at_or_before(tape, p);
    let s0 = MachineState { tape, ptr: p, pc: 0 };
    let s1 = MachineState { tape, ptr: p, pc: 1 };
    let s2 = MachineState { tape, ptr: wrap_usize(p - 1), pc: 2 };
    assert(z == zero_at_or_before(tape, p - 1));
    lemma_zero_before_bounds(tape, p - 1);
    let big = (f + 3 * (p - z) + 1) as nat;
    assert(run_from(l, s0, input, big) == run_from(l, s1, input, (big - 1) as nat));
    assert(run_from(l, s1, input, (big - 1) as nat) == run_from(l, s2, input, (big - 2) as nat));
    if p > 0 {
        if tape[p - 1] == 0 {
            let s3 = MachineState { tape, ptr: p - 1, pc: 3 };
            assert(run_from(l, s2, input, (big - 2) as nat) == run_from(l, s3, input, (big - 3) as nat));
        } else {
            let next = MachineState { tape, ptr: p - 1, pc: 0 };
            assert(run_from(l, s2, input, (big - 2) as nat) == run_from(l, next, input, (big - 3) as nat));
            lemma_scan_left_turns(tape, p - 1, input, f);
        }
    }
}

proof fn lemma_zero_before_bounds(tape: Seq<u8>, i: int)
    requires
        -1 <= i < tape.len(),
    ensures
        -1 <= zero_at_or_before(tape, i) <= i,
        zero_at_or_before(tape, i) >= 0 ==> tape[zero_at_or_before(tape, i)] == 0,
    decreases i + 1,
{
    if i >= 0 && tape[i] != 0 {
        lemma_zero_before_bounds(tape, i - 1);
    }
}

/// A scan loop (`[>]` or `[<]`) standing alone as a program, and the scan that
/// the loop pass puts in its place, run from the same state: both end the same
/// way without output, with the same tape, and where they halt, with the
/// cursor on the same cell.
pub proof fn lemma_scan_loop_rewrite(body: Seq<Op>, s: MachineState, input: Seq<u8>)
    requires
        scan_of(body) is Some,
        s.pc == 0,
        0 <= s.ptr <= usize::MAX,
        s.tape.len() <= usize::MAX,
    ensures
        ({
            let (ls, lout, lend) = run_from(
                loop_program(body),
                s,
                input,
                (3 * s.tape.len() + 4) as nat,
            );
            let (rs, rout, rend) = run_from(seq![scan_of(body)->0], s, input, 2);
            &&& ls == rs
            &&& lout.len() == 0
            &&& rout.len() == 0
            &&& lend.tape == rend.tape
            &&& ls == Status::Halted ==> lend.ptr == rend.ptr
        }),
{
    let tape = s.tape;
    let p = s.ptr;
    let len = tape.len() as int;
    let right = body[0] == Op::PtrAdd(1);
    let l = loop_program(body);
    let r = seq![scan_of(body)->0];
    if right {
        assert(body =~= seq![Op::PtrAdd(1)]);
        assert(l =~= seq![Op::Jz(2), Op::PtrAdd(1), Op::Jnz(0)]);
    } else {
        assert(body =~= seq![Op::PtrSub(1)]);
        assert(l =~= seq![Op::Jz(2), Op::PtrSub(1), Op::Jnz(0)]);
    }
    let fuel = (3 * len + 4) as nat;
    if p >= len {
        // both read the cell under the cursor first
        assert(run_from(l, s, input, fuel) == (Status::Fault, Seq::<u8>::empty(), s));
        assert(run_from(r, s, input, 2) == (Status::Fault, Seq::<u8>::empty(), s));
    } else if tape[p] == 0 {
        let at_close = MachineState { tape, ptr: p, pc: 2 };
        let out_l = MachineState { tape, ptr: p, pc: 3 };
        assert(run_from(l, s, input, fuel) == run_from(l, at_close, input, (fuel - 1) as nat));
        assert(run_from(l, at_close, input, (fuel - 1) as nat) == run_from(
            l,
            out_l,
            input,
            (fuel - 2) as nat,
        ));
        let out_r = MachineState { tape, ptr: p, pc: 1 };
        assert(run_from(r, s, input, 2) == run_from(r, out_r, input, 1));
    } else if right {
        let z = zero_at_or_after(tape, p);
        lemma_zero_after_bounds(tape, p);
        lemma_scan_right_turns(tape, p, input, (fuel - 3 * (z - p) - 1) as nat);
        if z < len {
            let out_r = MachineState { tape, ptr: z, pc: 1 };
            assert(run_from(r, s, input, 2) == run_from(r, out_r, input, 1));
        }
    } else {
        let z = zero_at_or_before(tape, p);
        lemma_zero_before_bounds(tape, p);
        lemma_scan_left_turns(tape, p, input, (fuel - 3 * (p - z) - 1) as nat);
        if z >= 0 {
            let out_r = MachineState { tape, ptr: z, pc: 1 };
            assert(run_from(r, s, input, 2) == run_from(r, out_r, input, 1));
        }
    }
}

} // verus!
