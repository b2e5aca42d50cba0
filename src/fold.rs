//! Folding of adjacent pointer moves and adjacent value changes as they are
//! appended to an instruction sequence.
use vstd::prelude::*;
use crate::ir::{
    Op, is_jump, is_move, is_value, nonzero, normal, closed_at, wf_range, lemma_wf_extend, lemma_wf_shrink,
    lemma_wf_frame, lemma_normal_push,
};

verus! {

/// A pointer move in the given direction (`true` is rightwards).
pub open spec fn move_op(right: bool, n: usize) -> Op {
    if right {
        Op::PtrAdd(n)
    } else {
        Op::PtrSub(n)
    }
}

/// A value change in the given direction (`true` adds).
pub open spec fn value_op(up: bool, n: u8) -> Op {
    if up {
        Op::ValAdd(n)
    } else {
        Op::ValSub(n)
    }
}

/// `s` followed by a move of `n` in direction `right`, merged with a move that
/// ends `s`: equal directions add up modulo the range of the cursor, opposite
/// directions cancel, and a move that comes to nothing is left out.
pub open spec fn merged_move(s: Seq<Op>, right: bool, n: usize) -> Seq<Op> {
    if s.len() > 0 && (s.last() is PtrAdd || s.last() is PtrSub) {
        let d = s.last() is PtrAdd;
        let p: usize = match s.last() {
            Op::PtrAdd(p) => p,
            Op::PtrSub(p) => p,
            _ => 0,
        };
        if d == right {
            let q = if p + n > usize::MAX {
                p + n - (usize::MAX + 1)
            } else {
                p + n
            };
            if q == 0 {
                s.drop_last()
            } else {
                s.drop_last().push(move_op(right, q as usize))
            }
        } else if p > n {
            s.drop_last().push(move_op(d, (p - n) as usize))
        } else if p < n {
            s.drop_last().push(move_op(right, (n - p) as usize))
        } else {
            s.drop_last()
        }
    } else if n == 0 {
        s
    } else {
        s.push(move_op(right, n))
    }
}

/// `s` followed by a change of `n` in direction `up`, merged with a change
/// that ends `s`: equal directions add modulo 256, opposite directions cancel,
/// a change that comes to nothing is left out.
pub open spec fn merged_value(s: Seq<Op>, up: bool, n: u8) -> Seq<Op> {
    if s.len() > 0 && (s.last() is ValAdd || s.last() is ValSub) {
        let d = s.last() is ValAdd;
        let p: u8 = match s.last() {
            Op::ValAdd(p) => p,
            Op::ValSub(p) => p,
            _ => 0,
        };
        if d == up {
            if (p + n) % 256 == 0 {
                s.drop_last()
            } else {
                s.drop_last().push(value_op(up, ((p + n) % 256) as u8))
            }
        } else if p > n {
            s.drop_last().push(value_op(d, (p - n) as u8))
        } else if p < n {
            s.drop_last().push(value_op(up, (n - p) as u8))
        } else {
            s.drop_last()
        }
    } else if n == 0 {
        s
    } else {
        s.push(value_op(up, n))
    }
}

/// The ways a merge changes a sequence: it is kept, grows by an instruction
/// that is not a jump, or its last instruction, not a jump, is dropped or
/// replaced by another that is not a jump.
pub open spec fn plain_tail_change(s: Seq<Op>, r: Seq<Op>) -> bool {
    ||| r == s
    ||| r.len() == s.len() + 1 && r.drop_last() == s && !is_jump(r.last())
    ||| s.len() > 0 && !is_jump(s.last()) && r == s.drop_last()
    ||| s.len() > 0 && !is_jump(s.last()) && r.len() == s.len() && r.drop_last() == s.drop_last()
        && !is_jump(r.last())
}

/// A change of the tail leaves everything before a jump that it cannot reach
/// as it was, and keeps a well-formed range well-formed.
pub(crate) proof fn lemma_tail_change_keeps(s: Seq<Op>, r: Seq<Op>, base: int)
    requires
        0 <= base <= s.len(),
        base == s.len() ==> base == 0 || is_jump(s[base - 1]),
        wf_range(s, base, s.len() as int),
        plain_tail_change(s, r),
    ensures
        base <= r.len(),
        r.subrange(0, base) == s.subrange(0, base),
        wf_range(r, base, r.len() as int),
{
    let len = s.len() as int;
    if r == s {
    } else if r.len() == len + 1 && r.drop_last() == s {
        lemma_wf_frame(s, r, base, len);
        lemma_wf_extend(r, base, len);
        assert(r.subrange(0, base) =~= s.subrange(0, base));
    } else {
        assert(base < len);
        lemma_wf_shrink(s, base, len);
        let t = s.drop_last();
        lemma_wf_frame(s, t, base, len - 1);
        if r.len() == len {
            lemma_wf_frame(t, r, base, len - 1);
            lemma_wf_extend(r, base, len - 1);
        }
        assert(r.subrange(0, base) =~= s.subrange(0, base));
    }
}

pub(crate) proof fn lemma_merged_move_tail(s: Seq<Op>, right: bool, n: usize)
    ensures
        plain_tail_change(s, merged_move(s, right, n)),
{
    let r = merged_move(s, right, n);
    if s.len() > 0 {
        assert(s.drop_last().push(r.last()).drop_last() =~= s.drop_last());
    }
    if r.len() == s.len() + 1 {
        assert(s.push(r.last()).drop_last() =~= s);
    }
}

pub(crate) proof fn lemma_merged_value_tail(s: Seq<Op>, up: bool, n: u8)
    ensures
        plain_tail_change(s, merged_value(s, up, n)),
{
    let r = merged_value(s, up, n);
    if s.len() > 0 {
        assert(s.drop_last().push(r.last()).drop_last() =~= s.drop_last());
    }
    if r.len() == s.len() + 1 {
        assert(s.push(r.last()).drop_last() =~= s);
    }
}

/// Appends a pointer move to `out`, merged with the move that ends it.
pub(crate) fn push_move(out: &mut Vec<Op>, right: bool, n: usize)
    ensures
        final(out)@ == merged_move(old(out)@, right, n),
{
    let len = out.len();
    if len > 0 {
        let last = out[len - 1];
        let (is_move, d, p) = match last {
            Op::PtrAdd(p) => (true, true, p),
            Op::PtrSub(p) => (true, false, p),
            _ => (false, false, 0),
        };
        if is_move {
            if d == right {
                let q = p.wrapping_add(n);
                if q == 0 {
                    out.pop();
                } else {
                    out.set(len - 1, if right { Op::PtrAdd(q) } else { Op::PtrSub(q) });
                }
            } else if p > n {
                out.set(len - 1, if d { Op::PtrAdd(p - n) } else { Op::PtrSub(p - n) });
            } else if p < n {
                out.pop();
                out.push(if right { Op::PtrAdd(n - p) } else { Op::PtrSub(n - p) });
            } else {
                out.pop();
            }
            proof {
                assert(out@ =~= merged_move(old(out)@, right, n));
            }
            return;
        }
    }
    if n != 0 {
        out.push(if right { Op::PtrAdd(n) } else { Op::PtrSub(n) });
    }
}

/// Appends a value change to `out`, merged with the change that ends it.
pub(crate) fn push_value(out: &mut Vec<Op>, up: bool, n: u8)
    ensures
        final(out)@ == merged_value(old(out)@, up, n),
{
    let len = out.len();
    if len > 0 {
        let last = out[len - 1];
        let (is_value, d, p) = match last {
            Op::ValAdd(p) => (true, true, p),
            Op::ValSub(p) => (true, false, p),
            _ => (false, false, 0u8),
        };
        if is_value {
            if d == up {
                let q = p.wrapping_add(n);
                if q == 0 {
                    out.pop();
                } else {
                    out.set(len - 1, if up { Op::ValAdd(q) } else { Op::ValSub(q) });
                }
            } else if p > n {
                out.set(len - 1, if d { Op::ValAdd(p - n) } else { Op::ValSub(p - n) });
            } else if p < n {
                out.pop();
                out.push(if up { Op::ValAdd(n - p) } else { Op::ValSub(n - p) });
            } else {
                out.pop();
            }
            proof {
                assert(out@ =~= merged_value(old(out)@, up, n));
            }
            return;
        }
    }
    if n != 0 {
        out.push(if up { Op::ValAdd(n) } else { Op::ValSub(n) });
    }
}

proof fn lemma_normal_replace_last(s: Seq<Op>, x: Op)
    requires
        normal(s),
        s.len() > 0,
        nonzero(x),
        is_move(x) == is_move(s.last()),
        is_value(x) == is_value(s.last()),
    ensures
        normal(s.drop_last()),
        normal(s.drop_last().push(x)),
{
    let r = s.drop_last().push(x);
    assert forall|k: int| 0 < k < r.len() implies !(is_move(r[k - 1]) && is_move(#[trigger] r[k]))
        && !(is_value(r[k - 1]) && is_value(r[k])) by {
        assert(r[k - 1] == s[k - 1]);
        if k < s.len() - 1 {
            assert(r[k] == s[k]);
        }
    }
    let d = s.drop_last();
    assert forall|k: int| 0 < k < d.len() implies !(is_move(d[k - 1]) && is_move(#[trigger] d[k]))
        && !(is_value(d[k - 1]) && is_value(d[k])) by {
        assert(d[k - 1] == s[k - 1] && d[k] == s[k]);
    }
}

/// A move or a value change merged into a normal sequence keeps it normal.
pub(crate) proof fn lemma_merged_normal(s: Seq<Op>, is_ptr: bool, dir: bool, n: int)
    requires
        normal(s),
        0 <= n <= usize::MAX,
        !is_ptr ==> n < 256,
    ensures
        is_ptr ==> normal(merged_move(s, dir, n as usize)),
        !is_ptr ==> normal(merged_value(s, dir, n as u8)),
{
    let r = if is_ptr {
        merged_move(s, dir, n as usize)
    } else {
        merged_value(s, dir, n as u8)
    };
    if s.len() > 0 {
        assert(nonzero(s.last()));
        assert(s.last() == s[s.len() - 1]);
    }
    if r.len() == s.len() + 1 {
        assert(r == s.push(r.last()));
        lemma_normal_push(s, r.last());
    } else if r.len() + 1 == s.len() {
        lemma_normal_replace_last(s, s.last());
        assert(r == s.drop_last());
    } else if r != s {
        assert(r.drop_last() =~= s.drop_last());
        lemma_normal_replace_last(s, r.last());
        assert(r =~= s.drop_last().push(r.last()));
    }
}

} // verus!
