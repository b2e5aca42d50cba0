//! Dead-code elimination driven by what is known of the cell under the cursor.
use vstd::prelude::*;
use crate::ir::{
    Op, is_jump, target, wf_range, well_formed, closed_span, closed_at, close_loop, lemma_wf_frame,
    lemma_closed_whole, lemma_span_plain, lemma_span_loop, is_move, is_value, nonzero, normal, lemma_normal_push, lemma_normal_closed_at,
    is_simple, all_simple,
};
use crate::loops::{
    qualifies, settled, settled_range, lemma_settled_frame, lemma_settled_tail, lemma_close_settled,
    lemma_close_frame,
};
use crate::fold::{
    merged_move, merged_value, plain_tail_change, lemma_tail_change_keeps, lemma_merged_move_tail,
    lemma_merged_value_tail, push_move, push_value, lemma_merged_normal,
};

verus! {

/// What is statically known of the cell under the cursor.
#[derive(Debug, Clone, Copy, PartialEq, Eq, Structural)]
pub enum Knowledge {
    /// The cell certainly holds zero.
    Zero,
    /// Nothing is known of the cell.
    Unknown,
}

/// The state of the pass: the output so far, the positions in it of the loop
/// openings still waiting for their close, and what is known of the cell under
/// the cursor.
pub struct DceState {
    pub out: Seq<Op>,
    pub open: Seq<int>,
    pub cell: Knowledge,
}

pub open spec fn with_out(st: DceState, out: Seq<Op>, cell: Knowledge) -> DceState {
    DceState { out, open: st.open, cell }
}

/// The effect of one instruction that is not a skipped loop. A move leaves the
/// cell unknown, but a move by nothing is dropped and changes nothing.
pub open spec fn dce_apply(op: Op, st: DceState) -> DceState {
    let zero = st.cell == Knowledge::Zero;
    match op {
        Op::Jz(_) => DceState {
            out: st.out.push(Op::Jz(0)),
            open: st.open.push(st.out.len() as int),
            cell: Knowledge::Unknown,
        },
        Op::Jnz(_) => if st.open.len() > 0 {
            let p = st.open.last();
            DceState {
                out: closed_at(st.out, p),
                open: st.open.drop_last(),
                cell: Knowledge::Zero,
            }
        } else {
            with_out(st, st.out.push(Op::Jnz(0)), Knowledge::Zero)
        },
        Op::Clear => if zero {
            st
        } else {
            with_out(st, st.out.push(Op::Clear), Knowledge::Zero)
        },
        Op::MulAdd(_, _) => if zero {
            st
        } else {
            with_out(st, st.out.push(op), st.cell)
        },
        Op::ScanLeft | Op::ScanRight => if zero {
            st
        } else {
            with_out(st, st.out.push(op), Knowledge::Zero)
        },
        Op::PtrAdd(n) => if n == 0 {
            st
        } else {
            with_out(st, merged_move(st.out, true, n), Knowledge::Unknown)
        },
        Op::PtrSub(n) => if n == 0 {
            st
        } else {
            with_out(st, merged_move(st.out, false, n), Knowledge::Unknown)
        },
        Op::ValAdd(n) => with_out(st, merged_value(st.out, true, n), Knowledge::Unknown),
        Op::ValSub(n) => with_out(st, merged_value(st.out, false, n), Knowledge::Unknown),
        Op::Input => with_out(st, st.out.push(op), Knowledge::Unknown),
        Op::Output => with_out(st, st.out.push(op), st.cell),
    }
}

/// The pass from instruction `i` on: a loop entered while the cell is known
/// to be zero is skipped whole; every other instruction goes through
/// `dce_apply`.
pub open spec fn dce_from(ops: Seq<Op>, i: int, st: DceState) -> DceState
    decreases ops.len() - i,
{
    if i < 0 || i >= ops.len() {
        st
    } else if ops[i] is Jz && st.cell == Knowledge::Zero && i < target(ops[i]) < ops.len() {
        dce_from(ops, target(ops[i]) + 1, st)
    } else {
        dce_from(ops, i + 1, dce_apply(ops[i], st))
    }
}

/// The output of the dead-code pass on `ops`.
pub open spec fn dce_result(ops: Seq<Op>) -> Seq<Op> {
    dce_from(
        ops,
        0,
        DceState { out: Seq::empty(), open: Seq::empty(), cell: Knowledge::Zero },
    ).out
}

/// Applies one instruction that is not a jump.
fn dce_plain(
    op: Op,
    out: &mut Vec<Op>,
    cell: &mut Knowledge,
    Ghost(open): Ghost<Seq<int>>,
    Ghost(base): Ghost<int>,
)
    requires
        !is_jump(op),
        0 <= base <= old(out)@.len(),
        base == old(out)@.len() ==> base == 0 || is_jump(old(out)@[base - 1]),
        wf_range(old(out)@, base, old(out)@.len() as int),
    ensures
        (DceState { out: final(out)@, open, cell: *final(cell) }) == dce_apply(
            op,
            (DceState { out: old(out)@, open, cell: *old(cell) }),
        ),
        base <= final(out)@.len(),
        final(out)@.subrange(0, base) == old(out)@.subrange(0, base),
        wf_range(final(out)@, base, final(out)@.len() as int),
        plain_tail_change(old(out)@, final(out)@),
        normal(old(out)@) ==> normal(final(out)@),
{
    let ghost before = out@;
    let zero = *cell == Knowledge::Zero;
    match op {
        Op::PtrAdd(n) => {
            if n != 0 {
                push_move(out, true, n);
                *cell = Knowledge::Unknown;
                proof {
                    lemma_merged_move_tail(before, true, n);
                    if normal(before) {
                        lemma_merged_normal(before, true, true, n as int);
                    }
                }
            }
        },
        Op::PtrSub(n) => {
            if n != 0 {
                push_move(out, false, n);
                *cell = Knowledge::Unknown;
                proof {
                    lemma_merged_move_tail(before, false, n);
                    if normal(before) {
                        lemma_merged_normal(before, true, false, n as int);
                    }
                }
            }
        },
        Op::ValAdd(n) => {
            push_value(out, true, n);
            *cell = Knowledge::Unknown;
            proof {
                lemma_merged_value_tail(before, true, n);
                if normal(before) {
                    lemma_merged_normal(before, false, true, n as int);
                }
            }
        },
        Op::ValSub(n) => {
            push_value(out, false, n);
            *cell = Knowledge::Unknown;
            proof {
                lemma_merged_value_tail(before, false, n);
                if normal(before) {
                    lemma_merged_normal(before, false, false, n as int);
                }
            }
        },
        _ => {
            let emit = match op {
                Op::Clear | Op::MulAdd(_, _) | Op::ScanLeft | Op::ScanRight => !zero,
                _ => true,
            };
            if emit {
                out.push(op);
                let next = match op {
                    Op::Clear | Op::ScanLeft | Op::ScanRight => Knowledge::Zero,
                    Op::Input => Knowledge::Unknown,
                    _ => *cell,
                };
                *cell = next;
                proof {
                    assert(out@.drop_last() =~= before);
                    if normal(before) {
                        lemma_normal_push(before, op);
                    }
                }
            }
        },
    }
    proof {
        lemma_tail_change_keeps(before, out@, base);
    }
}

/// On normal input, in a span entered with the cell unknown: as long as the
/// output of the span only moves and changes values, it is the input read so
/// far and the cell is still unknown.
pub open spec fn tracks_input(
    ops: Seq<Op>,
    lo: int,
    i: int,
    base: int,
    out: Seq<Op>,
    cell: Knowledge,
    entry: Knowledge,
) -> bool {
    normal(ops) && entry == Knowledge::Unknown && all_simple(out.subrange(base, out.len() as int))
        ==> out.subrange(base, out.len() as int) == ops.subrange(lo, i) && cell == Knowledge::Unknown
}

/// What holds while the pass runs over `[lo, hi)` of `ops` and stands at `i`,
/// having started from output `first` with the cell known as `entry`.
#[verifier::opaque]
pub open spec fn dce_inv(
    ops: Seq<Op>,
    lo: int,
    i: int,
    hi: int,
    out: Seq<Op>,
    cell: Knowledge,
    open: Seq<int>,
    first: Seq<Op>,
    entry: Knowledge,
) -> bool {
    let base = first.len() as int;
    &&& lo <= i <= hi
    &&& well_formed(ops)
    &&& closed_span(ops, i, hi)
    &&& first.len() == 0 || is_jump(first.last())
    &&& dce_from(ops, lo, DceState { out: first, open, cell: entry }) == dce_from(
        ops,
        i,
        DceState { out, open, cell },
    )
    &&& base <= out.len()
    &&& out.subrange(0, base) == first
    &&& wf_range(out, base, out.len() as int)
    &&& settled(ops) && normal(ops) ==> settled_range(out, base, out.len() as int)
    &&& tracks_input(ops, lo, i, base, out, cell, entry)
    &&& normal(first) ==> normal(out)
}

proof fn lemma_dce_one_keeps(
    ops: Seq<Op>,
    lo: int,
    i: int,
    base: int,
    first: Seq<Op>,
    before: Seq<Op>,
    after: Seq<Op>,
    f0: Knowledge,
    f1: Knowledge,
    open: Seq<int>,
    entry: Knowledge,
)
    requires
        0 <= lo <= i < ops.len(),
        !is_jump(ops[i]),
        (DceState { out: after, open, cell: f1 }) == dce_apply(
            ops[i],
            (DceState { out: before, open, cell: f0 }),
        ),
        plain_tail_change(before, after),
        first.len() == base,
        0 <= base <= before.len(),
        before.subrange(0, base) == first,
        first.len() == 0 || is_jump(first.last()),
        base <= after.len(),
        tracks_input(ops, lo, i, base, before, f0, entry),
    ensures
        tracks_input(ops, lo, i + 1, base, after, f1, entry),
{
    let seg = after.subrange(base, after.len() as int);
    let prev = before.subrange(base, before.len() as int);
    if normal(ops) && entry == Knowledge::Unknown && all_simple(seg) {
        assert(all_simple(prev)) by {
            if after == before {
                assert(prev =~= seg);
            } else if after.len() == before.len() + 1 && after.drop_last() == before {
                assert forall|k: int| 0 <= k < prev.len() implies is_simple(#[trigger] prev[k]) by {
                    assert(prev[k] == seg[k]);
                }
            } else {
                assert(base < before.len()) by {
                    if base == before.len() && base > 0 {
                        assert(before[base - 1] == before.subrange(0, base)[base - 1]);
                    }
                }
                assert forall|k: int| 0 <= k < prev.len() implies is_simple(#[trigger] prev[k]) by {
                    if k < prev.len() - 1 {
                        assert(prev[k] == seg[k]);
                    } else {
                        assert(prev[k] == before.last());
                    }
                }
            }
        }
        assert(prev == ops.subrange(lo, i) && f0 == Knowledge::Unknown);
        let op = ops[i];
        if before.len() > 0 && (is_move(before.last()) && is_move(op) || is_value(before.last())
            && is_value(op)) {
            if before.len() > base {
                assert(before.last() == prev[prev.len() - 1]);
                assert(before.last() == ops[i - 1]);
            } else {
                assert(before.last() == before.subrange(0, base)[base - 1]);
            }
        }
        assert(nonzero(op));
        assert(after == before.push(op));
        assert(seg[seg.len() - 1] == op);
        assert(is_simple(op));
        assert(f1 == Knowledge::Unknown);
        assert(seg =~= ops.subrange(lo, i + 1)) by {
            assert(seg.drop_last() =~= prev);
        }
    }
}

/// The loop at `i`, entered with the cell not known to be zero: its body
/// goes through the pass and the loop is closed again.
fn dce_nested(
    ops: &Vec<Op>,
    lo: usize,
    i: usize,
    t: usize,
    hi: usize,
    out: &mut Vec<Op>,
    cell: &mut Knowledge,
    Ghost(open): Ghost<Seq<int>>,
    Ghost(first): Ghost<Seq<Op>>,
    Ghost(entry): Ghost<Knowledge>,
)
    requires
        i < t < hi,
        dce_inv(ops@, lo as int, i as int, hi as int, old(out)@, *old(cell), open, first, entry),
        closed_span(ops@, i + 1, t as int),
        closed_span(ops@, t + 1, hi as int),
        ops@[i as int] is Jz,
        target(ops@[i as int]) == t,
        ops@[t as int] is Jnz,
        *old(cell) != Knowledge::Zero,
    ensures
        dce_inv(ops@, lo as int, t + 1, hi as int, final(out)@, *final(cell), open, first, entry),
    decreases hi - i, 0int,
{
    proof {
        reveal(dce_inv);
    }
    let ghost base = first.len() as int;
    let ghost before = out@;
    let p = out.len();
    out.push(Op::Jz(0));
    *cell = Knowledge::Unknown;
    let ghost mid = out@;
    proof {
        if normal(first) {
            lemma_normal_push(before, Op::Jz(0));
        }
    }
    dce_span(ops, i + 1, t, out, cell, Ghost(open.push(p as int)));
    let ghost inner = out@;
    proof {
        assert(inner[p as int] == mid[p as int]);
        assert(open.push(p as int).last() == p as int);
        assert(open.push(p as int).drop_last() =~= open);
        assert forall|k: int| 0 <= k < p implies before[k] == inner[k] by {
            assert(inner.subrange(0, mid.len() as int)[k] == mid[k]);
        }
        lemma_wf_frame(before, inner, base, p as int);
    }
    close_loop(out, p, Ghost(base));
    *cell = Knowledge::Zero;
    proof {
        lemma_close_frame(base, first, before, inner, out@, p as int);
        if normal(first) {
            assert(inner[p as int] is Jz);
            lemma_normal_closed_at(inner, p as int);
        }
        if settled(ops@) && normal(ops@) {
            lemma_settled_frame(before, inner, base, p as int);
            assert(!qualifies(ops@.subrange(i + 1, t as int)));
            lemma_close_settled(ops@, i as int, t as int, base, first, before, inner, out@, p as int);
        }
    }
}

/// One instruction that is not a jump.
fn dce_one(
    ops: &Vec<Op>,
    lo: usize,
    i: usize,
    hi: usize,
    out: &mut Vec<Op>,
    cell: &mut Knowledge,
    Ghost(open): Ghost<Seq<int>>,
    Ghost(first): Ghost<Seq<Op>>,
    Ghost(entry): Ghost<Knowledge>,
)
    requires
        i < hi,
        dce_inv(ops@, lo as int, i as int, hi as int, old(out)@, *old(cell), open, first, entry),
        closed_span(ops@, i + 1, hi as int),
        !is_jump(ops@[i as int]),
    ensures
        dce_inv(ops@, lo as int, i + 1, hi as int, final(out)@, *final(cell), open, first, entry),
{
    proof {
        reveal(dce_inv);
    }
    let ghost base = first.len() as int;
    let ghost before = out@;
    let ghost f0 = *cell;
    proof {
        if out@.len() == base && base > 0 {
            assert(out@[base - 1] == out@.subrange(0, base)[base - 1]);
        }
    }
    dce_plain(ops[i], out, cell, Ghost(open), Ghost(base));
    proof {
        assert(out@.subrange(0, base) =~= first);
        if settled(ops@) && normal(ops@) {
            lemma_settled_tail(before, out@, base);
        }
        lemma_dce_one_keeps(ops@, lo as int, i as int, base, first, before, out@, f0, *cell, open, entry);
    }
}

/// One step of the pass at `i`: a whole loop, skipped or not, or one instruction.
fn dce_step(
    ops: &Vec<Op>,
    lo: usize,
    i: usize,
    hi: usize,
    out: &mut Vec<Op>,
    cell: &mut Knowledge,
    Ghost(open): Ghost<Seq<int>>,
    Ghost(first): Ghost<Seq<Op>>,
    Ghost(entry): Ghost<Knowledge>,
) -> (next: usize)
    requires
        i < hi,
        dce_inv(ops@, lo as int, i as int, hi as int, old(out)@, *old(cell), open, first, entry),
    ensures
        i < next <= hi,
        dce_inv(ops@, lo as int, next as int, hi as int, final(out)@, *final(cell), open, first, entry),
    decreases hi - i, 1int,
{
    proof {
        reveal(dce_inv);
        lemma_span_plain(ops@, i as int, hi as int);
    }
    match ops[i] {
        Op::Jz(t) => {
            proof {
                lemma_span_loop(ops@, i as int, hi as int);
            }
            if *cell == Knowledge::Zero {
                proof {
                    reveal(dce_inv);
                }
            } else {
                dce_nested(ops, lo, i, t, hi, out, cell, Ghost(open), Ghost(first), Ghost(entry));
            }
            t + 1
        },
        Op::Jnz(_) => {
            proof {
                assert(false);
            }
            i + 1
        },
        _ => {
            dce_one(ops, lo, i, hi, out, cell, Ghost(open), Ghost(first), Ghost(entry));
            i + 1
        },
    }
}

/// Runs the pass over the closed span `[lo, hi)` of `ops`, appending to `out`.
fn dce_span(
    ops: &Vec<Op>,
    lo: usize,
    hi: usize,
    out: &mut Vec<Op>,
    cell: &mut Knowledge,
    Ghost(open): Ghost<Seq<int>>,
)
    requires
        well_formed(ops@),
        closed_span(ops@, lo as int, hi as int),
        old(out)@.len() == 0 || is_jump(old(out)@.last()),
    ensures
        dce_from(ops@, lo as int, DceState { out: old(out)@, open, cell: *old(cell) })
            == dce_from(ops@, hi as int, DceState { out: final(out)@, open, cell: *final(cell) }),
        old(out)@.len() <= final(out)@.len(),
        final(out)@.subrange(0, old(out)@.len() as int) == old(out)@,
        wf_range(final(out)@, old(out)@.len() as int, final(out)@.len() as int),
        settled(ops@) && normal(ops@) ==> settled_range(
            final(out)@,
            old(out)@.len() as int,
            final(out)@.len() as int,
        ),
        tracks_input(
            ops@,
            lo as int,
            hi as int,
            old(out)@.len() as int,
            final(out)@,
            *final(cell),
            *old(cell),
        ),
        normal(old(out)@) ==> normal(final(out)@),
    decreases hi - lo, 2int,
{
    let ghost first = out@;
    let ghost entry = *cell;
    proof {
        reveal(dce_inv);
        assert(out@.subrange(0, first.len() as int) =~= first);
        assert(out@.subrange(first.len() as int, out@.len() as int) =~= Seq::<Op>::empty());
        assert(ops@.subrange(lo as int, lo as int) =~= Seq::<Op>::empty());
    }
    let mut i = lo;
    while i < hi
        invariant
            lo <= i <= hi,
            dce_inv(ops@, lo as int, i as int, hi as int, out@, *cell, open, first, entry),
            first == old(out)@,
            entry == *old(cell),
        decreases hi - i,
    {
        i = dce_step(ops, lo, i, hi, out, cell, Ghost(open), Ghost(first), Ghost(entry));
    }
    proof {
        reveal(dce_inv);
    }
}

/// Removes instructions that cannot change what a run does, by tracking
/// whether the cell under the cursor is known to hold zero.
pub fn optimize_dce(ops: Vec<Op>) -> (r: Vec<Op>)
    requires
        well_formed(ops@),
    ensures
        r@ == dce_result(ops@),
        well_formed(r@),
        normal(r@),
        settled(ops@) && normal(ops@) ==> settled(r@),
{
    let mut out: Vec<Op> = Vec::new();
    let mut cell = Knowledge::Zero;
    proof {
        lemma_closed_whole(ops@);
    }
    dce_span(&ops, 0, ops.len(), &mut out, &mut cell, Ghost(Seq::empty()));
    out
}

/// While the pass runs over normal input: an output that ends in a move (a
/// value change) ends in the one just read, and the cell is then unknown;
/// every open position holds an opening jump.
pub open spec fn replay_inv(z: Seq<Op>, i: int, st: DceState) -> bool {
    &&& 0 <= i <= z.len()
    &&& st.out.len() > 0 && (is_move(st.out.last()) || is_value(st.out.last())) ==> {
        &&& i >= 1
        &&& st.cell == Knowledge::Unknown
        &&& is_move(st.out.last()) ==> is_move(z[i - 1])
        &&& is_value(st.out.last()) ==> is_value(z[i - 1])
    }
    &&& forall|e: int| #[trigger]
        st.open.contains(e) ==> 0 <= e < st.out.len() && st.out[e] is Jz
}

/// On normal input the pass only appends, closing loops as it goes: the
/// output is kept but for the open positions, which stay opening jumps, and
/// running the pass again over the output from where `st` stands reproduces
/// the same end state.
proof fn lemma_dce_replay(z: Seq<Op>, i: int, st: DceState)
    requires
        well_formed(z),
        normal(z),
        replay_inv(z, i, st),
    ensures
        ({
            let f = dce_from(z, i, st);
            &&& st.out.len() <= f.out.len()
            &&& forall|k: int|
                0 <= k < st.out.len() && !st.open.contains(k) ==> f.out[k] == st.out[k]
            &&& forall|k: int| #[trigger] st.open.contains(k) ==> f.out[k] is Jz
            &&& dce_from(f.out, st.out.len() as int, st) == f
        }),
    decreases z.len() - i,
{
    if i >= z.len() {
        return;
    }
    if z[i] is Jz && st.cell == Knowledge::Zero && i < target(z[i]) < z.len() {
        lemma_dce_replay(z, target(z[i]) + 1, st);
        return;
    }
    let st2 = dce_apply(z[i], st);
    let k = st.out.len() as int;
    if st2 == st {
        lemma_dce_replay(z, i + 1, st);
        return;
    }
    lemma_dce_step_appends(z, i, st);
    lemma_dce_replay(z, i + 1, st2);
    let f = dce_from(z, i + 1, st2);
    if z[i] is Jz {
        assert(st2.open.contains(k)) by {
            assert(st2.open[st2.open.len() - 1] == k);
        }
        assert(f.out[k] is Jz);
    } else {
        assert(!st2.open.contains(k));
        assert(f.out[k] == st2.out[k]);
    }
    assert(dce_apply(f.out[k], st) == st2);
    assert forall|m: int| 0 <= m < k && !st.open.contains(m) implies f.out[m] == st.out[m] by {
        assert(!st2.open.contains(m));
    }
    assert forall|e: int| #[trigger] st.open.contains(e) implies f.out[e] is Jz by {
        if !st2.open.contains(e) {
            assert(st2.out[e] is Jz);
        }
    }
}

/// One step of the pass on normal input that does not leave the state as it
/// was appends exactly one instruction.
#[verifier::rlimit(40)]
proof fn lemma_dce_step_appends(z: Seq<Op>, i: int, st: DceState)
    requires
        well_formed(z),
        normal(z),
        replay_inv(z, i, st),
        i < z.len(),
        !(z[i] is Jz && st.cell == Knowledge::Zero && i < target(z[i]) < z.len()),
        dce_apply(z[i], st) != st,
    ensures
        ({
            let st2 = dce_apply(z[i], st);
            let k = st.out.len() as int;
            &&& st2.out.len() == k + 1
            &&& z[i] is Jz ==> st2.out[k] is Jz && st2.open == st.open.push(k)
            &&& z[i] is Jnz ==> st2.out[k] is Jnz
            &&& !is_jump(z[i]) ==> st2.out[k] == z[i] && st2.open == st.open
            &&& forall|m: int| 0 <= m < k && !st.open.contains(m) ==> st2.out[m] == st.out[m]
            &&& forall|e: int| #[trigger] st2.open.contains(e) ==> e == k || st.open.contains(e)
            &&& forall|e: int| #[trigger]
                st.open.contains(e) ==> st2.open.contains(e) || (st2.out[e] is Jz && e < k)
            &&& z[i] is Jz ==> st.cell != Knowledge::Zero
            &&& replay_inv(z, i + 1, st2)
        }),
{
    let st2 = dce_apply(z[i], st);
    let k = st.out.len() as int;
    let op = z[i];
    match op {
        Op::PtrAdd(n) => {
            if k > 0 && is_move(st.out.last()) {
                assert(is_move(z[i - 1]));
            }
            assert(nonzero(z[i]));
            assert(st2.out == st.out.push(op));
        },
        Op::PtrSub(n) => {
            if k > 0 && is_move(st.out.last()) {
                assert(is_move(z[i - 1]));
            }
            assert(nonzero(z[i]));
            assert(st2.out == st.out.push(op));
        },
        Op::ValAdd(n) => {
            if k > 0 && is_value(st.out.last()) {
                assert(is_value(z[i - 1]));
            }
            assert(nonzero(z[i]));
            assert(st2.out == st.out.push(op));
        },
        Op::ValSub(n) => {
            if k > 0 && is_value(st.out.last()) {
                assert(is_value(z[i - 1]));
            }
            assert(nonzero(z[i]));
            assert(st2.out == st.out.push(op));
        },
        Op::Jz(t) => {
            assert(i < target(z[i]) < z.len());
            assert forall|e: int| #[trigger] st2.open.contains(e) implies e == k || st.open.contains(
                e,
            ) by {
                let j = choose|j: int| 0 <= j < st2.open.len() && st2.open[j] == e;
                if j < st.open.len() {
                    assert(st.open[j] == e);
                }
            }
            assert forall|e: int| #[trigger] st.open.contains(e) implies st2.open.contains(e) by {
                let j = choose|j: int| 0 <= j < st.open.len() && st.open[j] == e;
                assert(st2.open[j] == e);
            }
        },
        Op::Jnz(_) => {
            if st.open.len() > 0 {
                let p = st.open.last();
                assert(st.open.contains(p));
                assert forall|e: int| #[trigger] st2.open.contains(e) implies st.open.contains(e) by {
                    let j = choose|j: int| 0 <= j < st2.open.len() && st2.open[j] == e;
                    assert(st.open[j] == e);
                }
                assert forall|e: int| #[trigger] st.open.contains(e) implies st2.open.contains(e)
                    || (st2.out[e] is Jz && e < k) by {
                    let j = choose|j: int| 0 <= j < st.open.len() && st.open[j] == e;
                    if j < st.open.len() - 1 {
                        assert(st2.open[j] == e);
                    }
                }
            }
        },
        _ => {
            assert(st2.out == st.out.push(op));
        },
    }
}

/// The dead-code pass, run again over its own output on normal input,
/// changes nothing.
pub proof fn lemma_dce_idempotent(z: Seq<Op>)
    requires
        well_formed(z),
        normal(z),
    ensures
        dce_result(dce_result(z)) == dce_result(z),
{
    let st = DceState { out: Seq::empty(), open: Seq::empty(), cell: Knowledge::Zero };
    lemma_dce_replay(z, 0, st);
}

} // verus!
