//! Rewriting of recognisable loops into branch-free instructions.
use vstd::prelude::*;
use crate::ir::{
    Op, Building, target, is_jump, is_simple, is_move, all_simple, normal, lemma_normal_push,
    lemma_normal_closed_at, wf_range, well_formed, closed_span,
    closed_at, close_loop, lemma_wf_frame, lemma_wf_extend, lemma_wf_shrink, lemma_closed_whole,
    lemma_span_plain, lemma_span_loop,
};
use crate::fold::{plain_tail_change, lemma_tail_change_keeps};
use crate::machine::{lemma_wrap_step, wrap_usize};

verus! {

/// The scan that a loop body stands for: a body of a single step right
/// (left) is a scan right (left).
pub open spec fn scan_of(body: Seq<Op>) -> Option<Op> {
    if body.len() == 1 {
        match body[0] {
            Op::PtrAdd(1) => Some(Op::ScanRight),
            Op::PtrSub(1) => Some(Op::ScanLeft),
            _ => None,
        }
    } else {
        None
    }
}

/// Position of `key` in `tab` at or after `j`, or `tab.len()` when absent.
pub open spec fn find_key(tab: Seq<(isize, u8)>, key: isize, j: int) -> int
    decreases tab.len() - j,
{
    if j < 0 || j >= tab.len() {
        tab.len() as int
    } else if tab[j].0 == key {
        j
    } else {
        find_key(tab, key, j + 1)
    }
}

/// `tab` with `d` added, modulo 256, to the amount kept for `key`; a new key
/// goes at the end.
pub open spec fn bump(tab: Seq<(isize, u8)>, key: isize, d: int) -> Seq<(isize, u8)> {
    let k = find_key(tab, key, 0);
    if k < tab.len() {
        tab.update(k, (key, ((tab[k].1 + d) % 256) as u8))
    } else {
        tab.push((key, (d % 256) as u8))
    }
}

/// The offset `x` as the cursor sees it: reduced modulo the range of the
/// cursor into the range of `isize`, which is what a `MulAdd` names.
pub open spec fn key_of(x: int) -> isize {
    let u = x % (usize::MAX + 1);
    if u > isize::MAX {
        (u - (usize::MAX + 1)) as isize
    } else {
        u as isize
    }
}

/// Runs the first `n` instructions of a loop body abstractly: the pointer
/// offset reached, and for each offset written, in order of first write, the
/// change made there modulo 256. Offsets are kept exactly; a change is
/// recorded under its offset as the wrapping cursor sees it (`key_of`). `None`
/// where an instruction other than a move or a value change occurs.
pub open spec fn move_scan(body: Seq<Op>, n: int) -> Option<(int, Seq<(isize, u8)>)>
    decreases n,
{
    if n <= 0 || n > body.len() {
        Some((0, Seq::empty()))
    } else {
        match move_scan(body, n - 1) {
            None => None,
            Some((off, tab)) => match body[n - 1] {
                Op::PtrAdd(k) => Some((off + k, tab)),
                Op::PtrSub(k) => Some((off - k, tab)),
                Op::ValAdd(v) => Some((off, bump(tab, key_of(off), v as int))),
                Op::ValSub(v) => Some((off, bump(tab, key_of(off), -v))),
                _ => None,
            },
        }
    }
}

/// The change kept for offset zero.
pub open spec fn start_delta(tab: Seq<(isize, u8)>) -> int {
    let k = find_key(tab, 0, 0);
    if k < tab.len() {
        tab[k].1 as int
    } else {
        0
    }
}

/// One `MulAdd` per offset other than zero, in the order of the table.
pub open spec fn muladds(tab: Seq<(isize, u8)>) -> Seq<Op>
    decreases tab.len(),
{
    if tab.len() == 0 {
        Seq::empty()
    } else if tab.last().0 != 0 {
        muladds(tab.drop_last()).push(Op::MulAdd(tab.last().0, tab.last().1))
    } else {
        muladds(tab.drop_last())
    }
}

/// The instructions that a move loop with this body stands for (the final
/// `Clear` aside): the body only moves and changes values, comes back to
/// where it started, and takes one from the starting cell.
pub open spec fn move_of(body: Seq<Op>) -> Option<Seq<Op>> {
    match move_scan(body, body.len() as int) {
        Some((off, tab)) => if off == 0 && start_delta(tab) == 255 {
            Some(muladds(tab))
        } else {
            None
        },
        None => None,
    }
}

/// The effect of an instruction that is copied through.
pub open spec fn loops_copy(op: Op, b: Building) -> Building {
    match op {
        Op::Jz(_) => Building { out: b.out.push(Op::Jz(0)), open: b.open.push(b.out.len() as int) },
        Op::Jnz(_) => if b.open.len() > 0 {
            Building { out: closed_at(b.out, b.open.last()), open: b.open.drop_last() }
        } else {
            Building { out: b.out.push(op), open: b.open }
        },
        _ => Building { out: b.out.push(op), open: b.open },
    }
}

/// The loop pass from instruction `i` on: a loop whose body is a scan or a
/// move loop is replaced whole; everything else is copied.
pub open spec fn loops_from(ops: Seq<Op>, i: int, b: Building) -> Building
    decreases ops.len() - i,
{
    if i < 0 || i >= ops.len() {
        b
    } else if ops[i] is Jz && i < target(ops[i]) < ops.len() {
        let t = target(ops[i]);
        let body = ops.subrange(i + 1, t);
        if scan_of(body) is Some {
            loops_from(ops, t + 1, Building { out: b.out.push(scan_of(body)->0), open: b.open })
        } else if move_of(body) is Some {
            loops_from(
                ops,
                t + 1,
                Building { out: b.out + move_of(body)->0.push(Op::Clear), open: b.open },
            )
        } else {
            loops_from(ops, i + 1, loops_copy(ops[i], b))
        }
    } else {
        loops_from(ops, i + 1, loops_copy(ops[i], b))
    }
}

/// The output of the loop pass on `ops`.
pub open spec fn loops_result(ops: Seq<Op>) -> Seq<Op> {
    loops_from(ops, 0, Building { out: Seq::empty(), open: Seq::empty() }).out
}

proof fn lemma_scan_stays_none(body: Seq<Op>, a: int, b: int)
    requires
        0 <= a <= b <= body.len(),
        move_scan(body, a) is None,
    ensures
        move_scan(body, b) is None,
    decreases b - a,
{
    if a < b {
        lemma_scan_stays_none(body, a + 1, b);
    }
}

proof fn lemma_muladds_plain(tab: Seq<(isize, u8)>)
    ensures
        forall|k: int| 0 <= k < muladds(tab).len() ==> #[trigger] muladds(tab)[k] is MulAdd,
    decreases tab.len(),
{
    if tab.len() > 0 {
        lemma_muladds_plain(tab.drop_last());
    }
}

/// Recognises a loop body that scans for a zero cell.
pub fn check_scan_loop(body: &[Op]) -> (r: Option<Op>)
    ensures
        r == scan_of(body@),
{
    if body.len() == 1 {
        match body[0] {
            Op::PtrAdd(1) => Some(Op::ScanRight),
            Op::PtrSub(1) => Some(Op::ScanLeft),
            _ => None,
        }
    } else {
        None
    }
}

/// Position of `key` in `tab`, or `tab.len()` when absent.
fn position_of(tab: &Vec<(isize, u8)>, key: isize) -> (k: usize)
    ensures
        k == find_key(tab@, key, 0),
{
    let mut k: usize = 0;
    while k < tab.len()
        invariant
            k <= tab@.len(),
            find_key(tab@, key, 0) == find_key(tab@, key, k as int),
        decreases tab@.len() - k,
    {
        if tab[k].0 == key {
            return k;
        }
        k = k + 1;
    }
    k
}

/// Adds `n` (or takes it, where `up` is false) to the amount kept for `key`.
fn bump_entry(tab: &mut Vec<(isize, u8)>, key: isize, up: bool, n: u8)
    ensures
        final(tab)@ == bump(old(tab)@, key, if up {
            n as int
        } else {
            -n
        }),
{
    let k = position_of(tab, key);
    if k < tab.len() {
        let v = tab[k].1;
        let w = if up {
            v.wrapping_add(n)
        } else {
            v.wrapping_sub(n)
        };
        tab.set(k, (key, w));
    } else {
        let w = if up {
            n
        } else {
            0u8.wrapping_sub(n)
        };
        tab.push((key, w));
    }
}

/// `x` reduced modulo 2^128 into the range of `i128`.
pub open spec fn crop128(x: int) -> int {
    (x + 0x8000_0000_0000_0000_0000_0000_0000_0000int) % 0x1_0000_0000_0000_0000_0000_0000_0000_0000int
        - 0x8000_0000_0000_0000_0000_0000_0000_0000int
}

/// Adding to an offset and then reducing it is wrapping addition on `i128`.
proof fn lemma_crop_add(x: int, d: int)
    requires
        -0x1_0000_0000_0000_0000 < d < 0x1_0000_0000_0000_0000,
    ensures
        crop128(x + d) == if crop128(x) + d > i128::MAX {
            crop128(x) + d - 0x1_0000_0000_0000_0000_0000_0000_0000_0000int
        } else if crop128(x) + d < i128::MIN {
            crop128(x) + d + 0x1_0000_0000_0000_0000_0000_0000_0000_0000int
        } else {
            crop128(x) + d
        },
{
}

/// An offset no larger than `usize::MAX` squared is told apart from zero by
/// its reduction.
proof fn lemma_crop_exact(x: int)
    requires
        -(usize::MAX * usize::MAX) <= x <= usize::MAX * usize::MAX,
    ensures
        x == 0 <==> crop128(x) == 0,
{
    assert(usize::MAX * usize::MAX <= 0xffff_ffff_ffff_fffe_0000_0000_0000_0001) by (nonlinear_arith)
        requires
            0 <= usize::MAX <= 0xffff_ffff_ffff_ffff,
    ;
}

/// After `j` instructions the offset is at most `j` moves of `usize::MAX`.
proof fn lemma_offset_bound(j: int)
    requires
        0 <= j <= usize::MAX,
    ensures
        (j + 1) * usize::MAX == j * usize::MAX + usize::MAX,
        j * usize::MAX <= usize::MAX * usize::MAX,
        0 <= j * usize::MAX,
{
    assert((j + 1) * usize::MAX == j * usize::MAX + usize::MAX) by (nonlinear_arith);
    assert(j * usize::MAX <= usize::MAX * usize::MAX) by (nonlinear_arith)
        requires
            0 <= j <= usize::MAX,
    ;
    assert(0 <= j * usize::MAX) by (nonlinear_arith)
        requires
            0 <= j,
    ;
}

/// Recognises a move loop and returns the `MulAdd` instructions it stands for.
pub fn check_move_loop(body: &[Op]) -> (r: Option<Vec<Op>>)
    ensures
        match r {
            Some(v) => move_of(body@) == Some(v@),
            None => move_of(body@) is None,
        },
{
    // the running offset, exact where it is tested against zero (see
    // `lemma_crop_exact`), and as the cursor sees it
    let mut ptr_offset: i128 = 0;
    let mut cursor_offset: usize = 0;
    let ghost mut off: int = 0;
    let mut deltas: Vec<(isize, u8)> = Vec::new();
    let len = body.len();
    let mut j: usize = 0;
    while j < len
        invariant
            j <= body@.len(),
            len == body@.len(),
            move_scan(body@, j as int) == Some((off, deltas@)),
            ptr_offset == crop128(off),
            cursor_offset == off % (usize::MAX + 1),
            -(j * usize::MAX) <= off <= j * usize::MAX,
        decreases body@.len() - j,
    {
        proof {
            lemma_offset_bound(j as int);
        }
        match body[j] {
            Op::PtrAdd(n) => {
                proof {
                    lemma_crop_add(off, n as int);
                    lemma_wrap_step(off, n as int);
                    off = off + n;
                }
                ptr_offset = ptr_offset.wrapping_add(n as i128);
                cursor_offset = cursor_offset.wrapping_add(n);
            },
            Op::PtrSub(n) => {
                proof {
                    lemma_crop_add(off, -n);
                    lemma_wrap_step(off, n as int);
                    off = off - n;
                }
                ptr_offset = ptr_offset.wrapping_sub(n as i128);
                cursor_offset = cursor_offset.wrapping_sub(n);
            },
            Op::ValAdd(_) | Op::ValSub(_) => {
                let key: isize = if cursor_offset > isize::MAX as usize {
                    let below = usize::MAX - cursor_offset;
                    -(below as isize) - 1
                } else {
                    cursor_offset as isize
                };
                proof {
                    assert(key == key_of(off));
                }
                match body[j] {
                    Op::ValAdd(n) => bump_entry(&mut deltas, key, true, n),
                    Op::ValSub(n) => bump_entry(&mut deltas, key, false, n),
                    _ => {},
                }
            },
            _ => {
                proof {
                    lemma_scan_stays_none(body@, j + 1, body@.len() as int);
                }
                return None;
            },
        }
        j = j + 1;
    }
    proof {
        lemma_offset_bound(j as int);
        lemma_crop_exact(off);
    }
    if ptr_offset != 0 {
        return None;
    }
    let k = position_of(&deltas, 0);
    let start = if k < deltas.len() {
        deltas[k].1
    } else {
        0
    };
    if start != 255 {
        return None;
    }
    let mut result: Vec<Op> = Vec::new();
    let mut m: usize = 0;
    while m < deltas.len()
        invariant
            m <= deltas@.len(),
            result@ == muladds(deltas@.take(m as int)),
        decreases deltas@.len() - m,
    {
        let (offset, delta) = deltas[m];
        proof {
            assert(deltas@.take(m + 1).drop_last() =~= deltas@.take(m as int));
        }
        if offset != 0 {
            result.push(Op::MulAdd(offset, delta));
        }
        m = m + 1;
    }
    proof {
        assert(deltas@.take(deltas@.len() as int) =~= deltas@);
    }
    Some(result)
}

/// Appends an instruction that is not a jump, keeping what holds of the range
/// `[base, ..)` of `out`.
fn push_plain(out: &mut Vec<Op>, op: Op, Ghost(base): Ghost<int>)
    requires
        !is_jump(op),
        0 <= base <= old(out)@.len(),
        wf_range(old(out)@, base, old(out)@.len() as int),
        settled_range(old(out)@, base, old(out)@.len() as int),
    ensures
        final(out)@ == old(out)@.push(op),
        wf_range(final(out)@, base, final(out)@.len() as int),
        settled_range(final(out)@, base, final(out)@.len() as int),
{
    let ghost before = out@;
    out.push(op);
    proof {
        lemma_wf_frame(before, out@, base, before.len() as int);
        lemma_settled_frame(before, out@, base, before.len() as int);
        lemma_wf_extend(out@, base, before.len() as int);
        lemma_settled_extend(out@, base, before.len() as int);
    }
}

/// Closing a loop whose body the loop pass would leave alone keeps a range
/// settled; the range then holds a jump.
pub(crate) proof fn lemma_close_settled(
    ops: Seq<Op>,
    i: int,
    t: int,
    base: int,
    first: Seq<Op>,
    before: Seq<Op>,
    inner: Seq<Op>,
    after: Seq<Op>,
    p: int,
)
    requires
        0 <= base <= p,
        p == before.len(),
        first.len() == base,
        before.subrange(0, base) == first,
        wf_range(before, base, p),
        settled_range(before, base, p),
        p < inner.len(),
        inner[p] is Jz,
        forall|k: int| 0 <= k < p ==> before[k] == inner[k],
        wf_range(inner, p + 1, inner.len() as int),
        settled_range(inner, p + 1, inner.len() as int),
        all_simple(inner.subrange(p + 1, inner.len() as int)) ==> inner.subrange(
            p + 1,
            inner.len() as int,
        ) == ops.subrange(i + 1, t),
        !qualifies(ops.subrange(i + 1, t)),
        after == closed_at(inner, p),
        wf_range(after, base, after.len() as int),
    ensures
        settled_range(after, base, after.len() as int),
{
    let q = inner.len() as int;
    assert(after.subrange(p + 1, q) =~= inner.subrange(p + 1, q));
    assert(!qualifies(after.subrange(p + 1, q))) by {
        if qualifies(after.subrange(p + 1, q)) {
            lemma_qualifies_simple(after.subrange(p + 1, q));
        }
    }
    lemma_settled_frame(inner, after, p + 1, q);
    lemma_settled_frame(before, after, base, p);
    lemma_wf_frame(inner, after, p + 1, q);
    lemma_settled_wrap(after, p, q + 1);
    lemma_wf_frame(before, after, base, p);
    lemma_settled_append(after, base, p, q + 1);
}

/// Right after a loop is closed, the output from `base` on holds a jump and
/// everything before `base` is as it was.
pub(crate) proof fn lemma_close_frame(
    base: int,
    first: Seq<Op>,
    before: Seq<Op>,
    inner: Seq<Op>,
    after: Seq<Op>,
    p: int,
)
    requires
        0 <= base <= p,
        p == before.len(),
        first.len() == base,
        before.subrange(0, base) == first,
        p < inner.len(),
        forall|k: int| 0 <= k < p ==> before[k] == inner[k],
        after == closed_at(inner, p),
    ensures
        after.subrange(0, base) == first,
        !all_simple(after.subrange(base, after.len() as int)),
        !is_simple(after.last()),
{
    assert(after.subrange(0, base) =~= first) by {
        assert forall|k: int| 0 <= k < base implies after.subrange(0, base)[k] == first[k] by {
            assert(first[k] == before.subrange(0, base)[k]);
        }
    }
    let seg = after.subrange(base, after.len() as int);
    assert(seg[p - base] == after[p]);
}

/// What the loop pass keeps true of its output when it closes a loop that
/// it leaves in place.
proof fn lemma_close_keeps(
    ops: Seq<Op>,
    i: int,
    t: int,
    base: int,
    first: Seq<Op>,
    before: Seq<Op>,
    inner: Seq<Op>,
    after: Seq<Op>,
    p: int,
)
    requires
        0 <= base <= p,
        p == before.len(),
        first.len() == base,
        before.subrange(0, base) == first,
        wf_range(before, base, p),
        settled_range(before, base, p),
        p < inner.len(),
        inner[p] is Jz,
        forall|k: int| 0 <= k < p ==> before[k] == inner[k],
        wf_range(inner, p + 1, inner.len() as int),
        settled_range(inner, p + 1, inner.len() as int),
        all_simple(inner.subrange(p + 1, inner.len() as int)) ==> inner.subrange(
            p + 1,
            inner.len() as int,
        ) == ops.subrange(i + 1, t),
        !qualifies(ops.subrange(i + 1, t)),
        after == closed_at(inner, p),
        wf_range(after, base, after.len() as int),
        normal(ops) && normal(first) ==> normal(inner),
    ensures
        after.subrange(0, base) == first,
        settled_range(after, base, after.len() as int),
        !all_simple(after.subrange(base, after.len() as int)),
        normal(ops) && normal(first) ==> normal(after) && !is_simple(after.last()),
{
    lemma_close_settled(ops, i, t, base, first, before, inner, after, p);
    lemma_close_frame(base, first, before, inner, after, p);
    if normal(ops) && normal(first) {
        lemma_normal_closed_at(inner, p);
    }
}

/// A change of the tail by a merge keeps a well-formed range settled.
pub(crate) proof fn lemma_settled_tail(s: Seq<Op>, r: Seq<Op>, base: int)
    requires
        0 <= base <= s.len(),
        base == s.len() ==> base == 0 || is_jump(s[base - 1]),
        wf_range(s, base, s.len() as int),
        settled_range(s, base, s.len() as int),
        plain_tail_change(s, r),
    ensures
        settled_range(r, base, r.len() as int),
{
    let len = s.len() as int;
    lemma_tail_change_keeps(s, r, base);
    if r == s {
    } else if r.len() == len + 1 && r.drop_last() == s {
        lemma_settled_frame(s, r, base, len);
        lemma_wf_frame(s, r, base, len);
        lemma_settled_extend(r, base, len);
    } else {
        assert(base < len);
        lemma_settled_shrink(s, base, len);
        lemma_wf_shrink(s, base, len);
        assert forall|k: int| base <= k < len - 1 implies s[k] == r[k] by {
            if r.len() == len {
                assert(r.drop_last()[k] == s.drop_last()[k]);
            } else {
                assert(r[k] == s.drop_last()[k]);
            }
        }
        lemma_settled_frame(s, r, base, len - 1);
        if r.len() == len {
            lemma_wf_frame(s, r, base, len - 1);
            lemma_settled_extend(r, base, len - 1);
        }
    }
}

/// A plain instruction taken off the end of a well-formed range keeps it settled.
pub(crate) proof fn lemma_settled_shrink(s: Seq<Op>, lo: int, hi: int)
    requires
        settled_range(s, lo, hi),
        wf_range(s, lo, hi),
        lo < hi,
        !is_jump(s[hi - 1]),
    ensures
        settled_range(s, lo, hi - 1),
{
}

/// What the loop pass keeps true of its output when it copies an
/// instruction that is not a jump.
proof fn lemma_copy_keeps(
    ops: Seq<Op>,
    lo: int,
    i: int,
    base: int,
    first: Seq<Op>,
    before: Seq<Op>,
    after: Seq<Op>,
)
    requires
        0 <= lo <= i < ops.len(),
        !is_jump(ops[i]),
        after == before.push(ops[i]),
        first.len() == base,
        0 <= base <= before.len(),
        before.subrange(0, base) == first,
        first.len() == 0 || first.last() is Jz,
        all_simple(before.subrange(base, before.len() as int)) ==> before.subrange(
            base,
            before.len() as int,
        ) == ops.subrange(lo, i),
        normal(ops) && normal(first) ==> normal(before) && (before.len() > base && is_simple(
            before.last(),
        ) ==> i > lo && before.last() == ops[i - 1]),
    ensures
        after.subrange(0, base) == first,
        all_simple(after.subrange(base, after.len() as int)) ==> after.subrange(
            base,
            after.len() as int,
        ) == ops.subrange(lo, i + 1),
        normal(ops) && normal(first) ==> normal(after) && (after.len() > base && is_simple(
            after.last(),
        ) ==> i + 1 > lo && after.last() == ops[i]),
{
    assert(after.subrange(0, base) =~= before.subrange(0, base));
    let seg = after.subrange(base, after.len() as int);
    let prev = before.subrange(base, before.len() as int);
    assert(seg.drop_last() =~= prev);
    if all_simple(seg) {
        assert forall|k: int| 0 <= k < prev.len() implies is_simple(#[trigger] prev[k]) by {
            assert(prev[k] == seg[k]);
        }
        assert(seg =~= ops.subrange(lo, i + 1));
    }
    if normal(ops) && normal(first) {
        if before.len() == base && base > 0 {
            assert(before.last() == before.subrange(0, base)[base - 1]);
        }
        if before.len() > base && is_simple(before.last()) {
            assert(before.last() == ops[i - 1]);
            assert(!(is_move(ops[i - 1]) && is_move(ops[i])));
        }
        lemma_normal_push(before, ops[i]);
    }
}

/// What holds of the output while the loop pass runs over `[lo, hi)` of `ops`
/// and stands at `i`, having started from `first` with open positions `open`.
#[verifier::opaque]
pub open spec fn loops_inv(
    ops: Seq<Op>,
    lo: int,
    i: int,
    hi: int,
    out: Seq<Op>,
    open: Seq<int>,
    first: Seq<Op>,
) -> bool {
    let base = first.len() as int;
    &&& lo <= i <= hi
    &&& well_formed(ops)
    &&& closed_span(ops, i, hi)
    &&& first.len() == 0 || first.last() is Jz
    &&& loops_from(ops, lo, Building { out: first, open }) == loops_from(
        ops,
        i,
        Building { out, open },
    )
    &&& base <= out.len()
    &&& out.subrange(0, base) == first
    &&& wf_range(out, base, out.len() as int)
    &&& settled_range(out, base, out.len() as int)
    &&& all_simple(out.subrange(base, out.len() as int)) ==> out.subrange(base, out.len() as int)
        == ops.subrange(lo, i)
    &&& normal(ops) && normal(first) ==> normal(out) && (out.len() > base && is_simple(out.last())
        ==> i > lo && out.last() == ops[i - 1])
}

/// The loop at `i` is replaced by the instructions `rep`, none of them a jump,
/// ending in one that is not a move or a value change.
fn loops_replace(
    ops: &Vec<Op>,
    lo: usize,
    i: usize,
    t: usize,
    hi: usize,
    out: &mut Vec<Op>,
    rep: &Vec<Op>,
    Ghost(open): Ghost<Seq<int>>,
    Ghost(first): Ghost<Seq<Op>>,
)
    requires
        i < t < hi,
        loops_inv(ops@, lo as int, i as int, hi as int, old(out)@, open, first),
        closed_span(ops@, t + 1, hi as int),
        ops@[i as int] is Jz,
        target(ops@[i as int]) == t,
        rep@.len() > 0,
        forall|k: int| 0 <= k < rep@.len() ==> #[trigger] rep@[k] is MulAdd || k == rep@.len() - 1,
        !is_jump(rep@.last()) && !is_simple(rep@.last()),
        ({
            let body = ops@.subrange(i + 1, t as int);
            ||| scan_of(body) is Some && rep@ == seq![scan_of(body)->0]
            ||| scan_of(body) is None && move_of(body) is Some && rep@ == move_of(body)->0.push(
                Op::Clear,
            )
        }),
    ensures
        loops_inv(ops@, lo as int, t + 1, hi as int, final(out)@, open, first),
{
    proof {
        reveal(loops_inv);
    }
    let ghost base = first.len() as int;
    let ghost before = out@;
    let ghost heads = rep@.drop_last();
    let mut k: usize = 0;
    let last = rep.len() - 1;
    while k < last
        invariant
            k <= last,
            last == rep@.len() - 1,
            heads == rep@.drop_last(),
            0 <= base <= before.len(),
            out@ == before + heads.take(k as int),
            wf_range(out@, base, out@.len() as int),
            settled_range(out@, base, out@.len() as int),
            normal(before) ==> normal(out@),
            forall|m: int| 0 <= m < rep@.len() ==> #[trigger] rep@[m] is MulAdd || m == rep@.len() - 1,
        decreases last - k,
    {
        let ghost prev = out@;
        push_plain(out, rep[k], Ghost(base));
        proof {
            assert(rep@[k as int] is MulAdd);
            assert(out@ =~= before + heads.take(k + 1));
            if normal(before) {
                lemma_normal_push(prev, rep@[k as int]);
            }
        }
        k = k + 1;
    }
    let ghost prev = out@;
    push_plain(out, rep[last], Ghost(base));
    proof {
        assert(heads.take(last as int) =~= heads);
        assert(out@ =~= before + rep@);
        assert(out@.subrange(0, base) =~= first);
        let seg = out@.subrange(base, out@.len() as int);
        assert(seg[seg.len() - 1] == rep@.last());
        if normal(ops@) && normal(first) {
            lemma_normal_push(prev, rep@.last());
        }
    }
}

/// The loop at `i`, left in place: its body goes through the pass and the
/// loop is closed again.
fn loops_nested(
    ops: &Vec<Op>,
    lo: usize,
    i: usize,
    t: usize,
    hi: usize,
    out: &mut Vec<Op>,
    Ghost(open): Ghost<Seq<int>>,
    Ghost(first): Ghost<Seq<Op>>,
)
    requires
        i < t < hi,
        loops_inv(ops@, lo as int, i as int, hi as int, old(out)@, open, first),
        closed_span(ops@, i + 1, t as int),
        closed_span(ops@, t + 1, hi as int),
        ops@[i as int] is Jz,
        target(ops@[i as int]) == t,
        ops@[t as int] is Jnz,
        !qualifies(ops@.subrange(i + 1, t as int)),
    ensures
        loops_inv(ops@, lo as int, t + 1, hi as int, final(out)@, open, first),
    decreases hi - i, 0int,
{
    proof {
        reveal(loops_inv);
    }
    let ghost base = first.len() as int;
    let ghost before = out@;
    let p = out.len();
    out.push(Op::Jz(0));
    let ghost mid = out@;
    proof {
        if normal(ops@) && normal(first) {
            lemma_normal_push(before, Op::Jz(0));
        }
    }
    loops_span(ops, i + 1, t, out, Ghost(open.push(p as int)));
    let ghost inner = out@;
    proof {
        assert(inner[p as int] == mid[p as int]);
        assert(open.push(p as int).last() == p as int);
        assert(open.push(p as int).drop_last() =~= open);
        assert forall|k: int| 0 <= k < p implies before[k] == inner[k] by {
            assert(inner.subrange(0, mid.len() as int)[k] == mid[k]);
        }
        lemma_wf_frame(before, inner, base, p as int);
        lemma_settled_frame(before, inner, base, p as int);
    }
    close_loop(out, p, Ghost(base));
    proof {
        lemma_close_keeps(ops@, i as int, t as int, base, first, before, inner, out@, p as int);
    }
}

/// One instruction that is not a jump, copied.
fn loops_copy_one(
    ops: &Vec<Op>,
    lo: usize,
    i: usize,
    hi: usize,
    out: &mut Vec<Op>,
    Ghost(open): Ghost<Seq<int>>,
    Ghost(first): Ghost<Seq<Op>>,
)
    requires
        i < hi,
        loops_inv(ops@, lo as int, i as int, hi as int, old(out)@, open, first),
        closed_span(ops@, i + 1, hi as int),
        !is_jump(ops@[i as int]),
    ensures
        loops_inv(ops@, lo as int, i + 1, hi as int, final(out)@, open, first),
{
    proof {
        reveal(loops_inv);
    }
    let ghost base = first.len() as int;
    let ghost before = out@;
    push_plain(out, ops[i], Ghost(base));
    proof {
        lemma_copy_keeps(ops@, lo as int, i as int, base, first, before, out@);
    }
}

/// One step of the loop pass at `i`: a whole loop, or one instruction.
fn loops_step(
    ops: &Vec<Op>,
    lo: usize,
    i: usize,
    hi: usize,
    out: &mut Vec<Op>,
    Ghost(open): Ghost<Seq<int>>,
    Ghost(first): Ghost<Seq<Op>>,
) -> (next: usize)
    requires
        i < hi,
        loops_inv(ops@, lo as int, i as int, hi as int, old(out)@, open, first),
    ensures
        i < next <= hi,
        loops_inv(ops@, lo as int, next as int, hi as int, final(out)@, open, first),
    decreases hi - i, 1int,
{
    proof {
        reveal(loops_inv);
        lemma_span_plain(ops@, i as int, hi as int);
    }
    match ops[i] {
        Op::Jz(t) => {
            proof {
                lemma_span_loop(ops@, i as int, hi as int);
            }
            let body = vstd::slice::slice_subrange(ops.as_slice(), i + 1, t);
            if let Some(scan_op) = check_scan_loop(body) {
                let rep = vec![scan_op];
                proof {
                    assert(rep@ =~= seq![scan_op]);
                }
                loops_replace(ops, lo, i, t, hi, out, &rep, Ghost(open), Ghost(first));
            } else if let Some(mul_ops) = check_move_loop(body) {
                proof {
                    let scanned = move_scan(body@, body@.len() as int)->Some_0;
                    lemma_muladds_plain(scanned.1);
                }
                let mut rep = mul_ops;
                rep.push(Op::Clear);
                loops_replace(ops, lo, i, t, hi, out, &rep, Ghost(open), Ghost(first));
            } else {
                loops_nested(ops, lo, i, t, hi, out, Ghost(open), Ghost(first));
            }
            t + 1
        },
        Op::Jnz(_) => {
            proof {
                assert(false);
            }
            i + 1
        },
        _ => {
            loops_copy_one(ops, lo, i, hi, out, Ghost(open), Ghost(first));
            i + 1
        },
    }
}

/// Runs the loop pass over the closed span `[lo, hi)` of `ops`, appending to `out`.
fn loops_span(ops: &Vec<Op>, lo: usize, hi: usize, out: &mut Vec<Op>, Ghost(open): Ghost<Seq<int>>)
    requires
        well_formed(ops@),
        closed_span(ops@, lo as int, hi as int),
        old(out)@.len() == 0 || old(out)@.last() is Jz,
    ensures
        loops_from(ops@, lo as int, Building { out: old(out)@, open }) == loops_from(
            ops@,
            hi as int,
            Building { out: final(out)@, open },
        ),
        old(out)@.len() <= final(out)@.len(),
        final(out)@.subrange(0, old(out)@.len() as int) == old(out)@,
        wf_range(final(out)@, old(out)@.len() as int, final(out)@.len() as int),
        settled_range(final(out)@, old(out)@.len() as int, final(out)@.len() as int),
        all_simple(final(out)@.subrange(old(out)@.len() as int, final(out)@.len() as int))
            ==> final(out)@.subrange(old(out)@.len() as int, final(out)@.len() as int)
            == ops@.subrange(lo as int, hi as int),
        normal(ops@) && normal(old(out)@) ==> normal(final(out)@),
    decreases hi - lo, 2int,
{
    let ghost first = out@;
    proof {
        reveal(loops_inv);
        assert(out@.subrange(0, first.len() as int) =~= first);
        assert(out@.subrange(first.len() as int, out@.len() as int) =~= Seq::<Op>::empty());
        assert(ops@.subrange(lo as int, lo as int) =~= Seq::<Op>::empty());
    }
    let mut i = lo;
    while i < hi
        invariant
            lo <= i <= hi,
            loops_inv(ops@, lo as int, i as int, hi as int, out@, open, first),
            first == old(out)@,
        decreases hi - i,
    {
        i = loops_step(ops, lo, i, hi, out, Ghost(open), Ghost(first));
    }
}

/// Replaces every scan loop and move loop by its branch-free equivalent.
pub fn optimize_loops(ops: Vec<Op>) -> (r: Vec<Op>)
    requires
        well_formed(ops@),
    ensures
        r@ == loops_result(ops@),
        well_formed(r@),
        settled(r@),
        normal(ops@) ==> normal(r@),
{
    let mut out: Vec<Op> = Vec::new();
    proof {
        lemma_closed_whole(ops@);
    }
    loops_span(&ops, 0, ops.len(), &mut out, Ghost(Seq::empty()));
    out
}

/// The loop pass would rewrite a loop with this body.
pub open spec fn qualifies(body: Seq<Op>) -> bool {
    scan_of(body) is Some || move_of(body) is Some
}

/// No loop that opens and closes within `[lo, hi)` has a body that the loop
/// pass would rewrite.
pub open spec fn settled_range(s: Seq<Op>, lo: int, hi: int) -> bool {
    &&& 0 <= lo <= hi <= s.len()
    &&& forall|p: int|
        #![trigger s[p]]
        lo <= p < hi && s[p] is Jz && p < target(s[p]) < hi ==> !qualifies(
            s.subrange(p + 1, target(s[p])),
        )
}

/// No loop of `s` has a body that the loop pass would rewrite.
pub open spec fn settled(s: Seq<Op>) -> bool {
    settled_range(s, 0, s.len() as int)
}

proof fn lemma_scan_some_simple(body: Seq<Op>, n: int)
    requires
        0 <= n <= body.len(),
        move_scan(body, n) is Some,
    ensures
        forall|k: int| 0 <= k < n ==> is_simple(#[trigger] body[k]),
    decreases n,
{
    if n > 0 {
        lemma_scan_some_simple(body, n - 1);
    }
}

/// A body that the loop pass rewrites only moves and changes values.
pub(crate) proof fn lemma_qualifies_simple(body: Seq<Op>)
    requires
        qualifies(body),
    ensures
        all_simple(body),
{
    if move_of(body) is Some {
        lemma_scan_some_simple(body, body.len() as int);
    }
}

pub(crate) proof fn lemma_settled_frame(s: Seq<Op>, t: Seq<Op>, lo: int, hi: int)
    requires
        settled_range(s, lo, hi),
        hi <= t.len(),
        forall|k: int| lo <= k < hi ==> s[k] == t[k],
    ensures
        settled_range(t, lo, hi),
{
    assert forall|p: int| lo <= p < hi && t[p] is Jz && p < target(t[p]) < hi implies !qualifies(
        t.subrange(p + 1, target(t[p])),
    ) by {
        assert(s[p] == t[p]);
        assert(s.subrange(p + 1, target(s[p])) =~= t.subrange(p + 1, target(t[p])));
    }
}

pub(crate) proof fn lemma_settled_append(s: Seq<Op>, lo: int, m: int, hi: int)
    requires
        settled_range(s, lo, m),
        settled_range(s, m, hi),
        wf_range(s, lo, m),
    ensures
        settled_range(s, lo, hi),
{
}

/// A plain instruction added after a well-formed range keeps it settled.
pub(crate) proof fn lemma_settled_extend(s: Seq<Op>, lo: int, hi: int)
    requires
        settled_range(s, lo, hi),
        wf_range(s, lo, hi),
        hi < s.len(),
        !is_jump(s[hi]),
    ensures
        settled_range(s, lo, hi + 1),
{
}

/// A loop around a settled body that the loop pass would leave alone.
pub(crate) proof fn lemma_settled_wrap(s: Seq<Op>, lo: int, hi: int)
    requires
        0 <= lo,
        lo + 2 <= hi <= s.len(),
        s[lo] is Jz,
        target(s[lo]) == hi - 1,
        s[hi - 1] is Jnz,
        wf_range(s, lo + 1, hi - 1),
        settled_range(s, lo + 1, hi - 1),
        !qualifies(s.subrange(lo + 1, hi - 1)),
    ensures
        settled_range(s, lo, hi),
{
    assert forall|p: int| lo <= p < hi && s[p] is Jz && p < target(s[p]) < hi implies !qualifies(
        s.subrange(p + 1, target(s[p])),
    ) by {
        if p > lo {
            assert(p < hi - 1);
            assert(target(s[p]) < hi - 1);
        }
    }
}

/// Over a closed span of settled input the loop pass copies every
/// instruction to the same position, closing each loop where it was closed.
proof fn lemma_loops_keep_span(ops: Seq<Op>, lo: int, hi: int, b: Building) -> (b2: Building)
    requires
        well_formed(ops),
        settled(ops),
        closed_span(ops, lo, hi),
        b.out.len() == lo,
        forall|e: int| #[trigger] b.open.contains(e) ==> 0 <= e < lo,
        forall|m: int| 0 <= m < lo && !b.open.contains(m) ==> b.out[m] == ops[m],
    ensures
        loops_from(ops, lo, b) == loops_from(ops, hi, b2),
        b2.open == b.open,
        b2.out.len() == hi,
        forall|m: int| 0 <= m < hi && !b.open.contains(m) ==> b2.out[m] == ops[m],
        forall|m: int| 0 <= m < lo ==> b2.out[m] == b.out[m],
    decreases hi - lo,
{
    if lo >= hi {
        return b;
    }
    lemma_span_plain(ops, lo, hi);
    if ops[lo] is Jz {
        lemma_span_loop(ops, lo, hi);
        let t = target(ops[lo]);
        let b1 = loops_copy(ops[lo], b);
        assert(loops_from(ops, lo, b) == loops_from(ops, lo + 1, b1));
        assert forall|e: int| #[trigger] b1.open.contains(e) implies 0 <= e < lo + 1 by {
            let j = choose|j: int| 0 <= j < b1.open.len() && b1.open[j] == e;
            if j < b.open.len() {
                assert(b.open[j] == e);
                assert(b.open.contains(e));
            }
        }
        assert forall|m: int| 0 <= m < lo + 1 && !b1.open.contains(m) implies b1.out[m]
            == ops[m] by {
            assert(b1.open[b1.open.len() - 1] == lo);
            if b.open.contains(m) {
                let j = choose|j: int| 0 <= j < b.open.len() && b.open[j] == m;
                assert(b1.open[j] == m);
            }
        }
        let b_mid = lemma_loops_keep_span(ops, lo + 1, t, b1);
        assert(b1.open.last() == lo);
        assert(b1.open.drop_last() =~= b.open);
        let b3 = loops_copy(ops[t], b_mid);
        assert(loops_from(ops, t, b_mid) == loops_from(ops, t + 1, b3));
        assert(b3.out[lo] == ops[lo]);
        assert(b3.out[t] == ops[t]);
        assert forall|m: int| 0 <= m < t + 1 && !b.open.contains(m) implies b3.out[m]
            == ops[m] by {
            if lo < m < t {
                assert(!b1.open.contains(m)) by {
                    if b1.open.contains(m) {
                        let j = choose|j: int| 0 <= j < b1.open.len() && b1.open[j] == m;
                        if j < b.open.len() {
                            assert(b.open[j] == m);
                            assert(b.open.contains(m));
                        }
                    }
                }
            }
        }
        lemma_loops_keep_span(ops, t + 1, hi, b3)
    } else {
        let b1 = loops_copy(ops[lo], b);
        assert(loops_from(ops, lo, b) == loops_from(ops, lo + 1, b1));
        lemma_loops_keep_span(ops, lo + 1, hi, b1)
    }
}

/// The loop pass leaves well-formed settled input as it is.
pub proof fn lemma_loops_keep_settled(ops: Seq<Op>)
    requires
        well_formed(ops),
        settled(ops),
    ensures
        loops_result(ops) == ops,
{
    lemma_closed_whole(ops);
    let b = Building { out: Seq::empty(), open: Seq::empty() };
    let b2 = lemma_loops_keep_span(ops, 0, ops.len() as int, b);
    assert(b2.out =~= ops);
}

} // verus!
