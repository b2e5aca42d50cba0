use vstd::prelude::*;

verus! {

/// One instruction of the intermediate representation.
#[derive(Debug, Clone, Copy, PartialEq, Eq, Structural)]
pub enum Op {
    /// Move the cursor right by the given count (wrapping).
    PtrAdd(usize),
    /// Move the cursor left by the given count (wrapping).
    PtrSub(usize),
    /// Add to the current cell, modulo 256.
    ValAdd(u8),
    /// Subtract from the current cell, modulo 256.
    ValSub(u8),
    /// Write the current cell to the output stream.
    Output,
    /// Read one byte of input into the current cell.
    Input,
    /// Jump to the given index when the current cell is zero.
    Jz(usize),
    /// Jump to the given index when the current cell is not zero.
    Jnz(usize),
    /// Set the current cell to zero.
    Clear,
    /// Add `cell * factor` to the cell at `cursor + offset`; the current cell is kept.
    MulAdd(isize, u8),
    /// Move the cursor left to the nearest zero cell at or before it.
    ScanLeft,
    /// Move the cursor right to the nearest zero cell at or after it.
    ScanRight,
}

pub open spec fn is_jump(op: Op) -> bool {
    op is Jz || op is Jnz
}

pub open spec fn is_move(op: Op) -> bool {
    op is PtrAdd || op is PtrSub
}

pub open spec fn is_value(op: Op) -> bool {
    op is ValAdd || op is ValSub
}

/// Moves and value changes are by a non-zero amount.
pub open spec fn nonzero(op: Op) -> bool {
    match op {
        Op::PtrAdd(n) => n != 0,
        Op::PtrSub(n) => n != 0,
        Op::ValAdd(n) => n != 0,
        Op::ValSub(n) => n != 0,
        _ => true,
    }
}

/// Nothing left to fold: no move or value change by zero, and no two moves
/// or two value changes side by side.
pub open spec fn normal(s: Seq<Op>) -> bool {
    &&& forall|k: int| 0 <= k < s.len() ==> nonzero(#[trigger] s[k])
    &&& forall|k: int|
        0 < k < s.len() ==> !(is_move(s[k - 1]) && is_move(#[trigger] s[k])) && !(is_value(
            s[k - 1],
        ) && is_value(s[k]))
}

/// A move or a value change.
pub open spec fn is_simple(op: Op) -> bool {
    is_move(op) || is_value(op)
}

/// Every instruction of `s` is a move or a value change.
pub open spec fn all_simple(s: Seq<Op>) -> bool {
    forall|k: int| 0 <= k < s.len() ==> is_simple(#[trigger] s[k])
}

/// Appending an instruction that does not sit beside one of its own kind
/// keeps a sequence normal.
pub(crate) proof fn lemma_normal_push(s: Seq<Op>, x: Op)
    requires
        normal(s),
        nonzero(x),
        s.len() > 0 ==> !(is_move(s.last()) && is_move(x)) && !(is_value(s.last()) && is_value(x)),
    ensures
        normal(s.push(x)),
{
    let r = s.push(x);
    assert forall|k: int| 0 < k < r.len() implies !(is_move(r[k - 1]) && is_move(#[trigger] r[k]))
        && !(is_value(r[k - 1]) && is_value(r[k])) by {
        if k < s.len() {
            assert(r[k - 1] == s[k - 1] && r[k] == s[k]);
        }
    }
}

/// Closing a loop keeps a sequence normal.
pub(crate) proof fn lemma_normal_closed_at(s: Seq<Op>, p: int)
    requires
        normal(s),
        0 <= p < s.len(),
        s[p] is Jz,
    ensures
        normal(closed_at(s, p)),
{
    let u = s.update(p, Op::Jz(s.len() as usize));
    assert forall|k: int| 0 < k < u.len() implies !(is_move(u[k - 1]) && is_move(#[trigger] u[k]))
        && !(is_value(u[k - 1]) && is_value(u[k])) by {
        assert(s[k - 1] == u[k - 1] || k - 1 == p);
        assert(s[k] == u[k] || k == p);
    }
    lemma_normal_push(u, Op::Jnz(p as usize));
}

/// The index a jump refers to (zero for any other instruction).
pub open spec fn target(op: Op) -> int {
    match op {
        Op::Jz(t) => t as int,
        Op::Jnz(t) => t as int,
        _ => 0,
    }
}

/// Within `[lo, hi)`, every jump is paired with its counterpart inside the
/// same range, each pointing at the other, and the pairs do not cross.
pub open spec fn wf_range(s: Seq<Op>, lo: int, hi: int) -> bool {
    &&& 0 <= lo <= hi <= s.len()
    &&& forall|i: int|
        #![trigger s[i]]
        lo <= i < hi && s[i] is Jz ==> {
            &&& i < target(s[i]) < hi
            &&& s[target(s[i])] is Jnz
            &&& target(s[target(s[i])]) == i
        }
    &&& forall|j: int|
        #![trigger s[j]]
        lo <= j < hi && s[j] is Jnz ==> {
            &&& lo <= target(s[j]) < j
            &&& s[target(s[j])] is Jz
            &&& target(s[target(s[j])]) == j
        }
    &&& forall|i: int, j: int|
        #![trigger s[i], s[j]]
        lo <= i < j < hi && s[i] is Jz && s[j] is Jz && j < target(s[i]) ==> target(s[j])
            < target(s[i])
}

/// `s` with the loop opened at `p` closed at its end: the opening jump is
/// pointed at the new closing jump, which points back at it.
pub open spec fn closed_at(s: Seq<Op>, p: int) -> Seq<Op> {
    s.update(p, Op::Jz(s.len() as usize)).push(Op::Jnz(p as usize))
}

/// An instruction sequence under construction, with the positions of the
/// loop openings that still wait for their close.
pub struct Building {
    pub out: Seq<Op>,
    pub open: Seq<int>,
}

/// Well-formedness of a whole instruction sequence: every jump is paired.
pub open spec fn well_formed(s: Seq<Op>) -> bool {
    wf_range(s, 0, s.len() as int)
}

/// In a well-formed `s`, no jump pair has exactly one end inside `[lo, hi)`.
pub open spec fn closed_span(s: Seq<Op>, lo: int, hi: int) -> bool {
    &&& 0 <= lo <= hi <= s.len()
    &&& forall|j: int|
        #![trigger s[j]]
        lo <= j < hi ==> (s[j] is Jz ==> target(s[j]) < hi) && (s[j] is Jnz ==> lo <= target(
            s[j],
        ))
}

pub(crate) proof fn lemma_wf_append(s: Seq<Op>, lo: int, m: int, hi: int)
    requires
        wf_range(s, lo, m),
        wf_range(s, m, hi),
    ensures
        wf_range(s, lo, hi),
{
}

pub(crate) proof fn lemma_wf_wrap(s: Seq<Op>, lo: int, hi: int)
    requires
        0 <= lo,
        lo + 2 <= hi <= s.len(),
        s[lo] is Jz,
        target(s[lo]) == hi - 1,
        s[hi - 1] is Jnz,
        target(s[hi - 1]) == lo,
        wf_range(s, lo + 1, hi - 1),
    ensures
        wf_range(s, lo, hi),
{
    assert forall|i: int| lo <= i < hi && s[i] is Jz implies i < target(s[i]) < hi && s[target(s[i])] is Jnz
        && target(s[target(s[i])]) == i by {
        if i > lo {
            assert(i < hi - 1);
        }
    }
    assert forall|j: int| lo <= j < hi && s[j] is Jnz implies lo <= target(s[j]) < j && s[target(s[j])] is Jz
        && target(s[target(s[j])]) == j by {
        if j < hi - 1 {
            assert(lo < j);
        }
    }
    assert forall|i: int, j: int|
        lo <= i < j < hi && s[i] is Jz && s[j] is Jz && j < target(s[i]) implies target(s[j])
        < target(s[i]) by {
        assert(j < hi - 1);
        if i > lo {
            assert(i < hi - 1);
        }
    }
}

/// Closes the loop opened at `p`, whose body follows it up to the end of `out`.
pub(crate) fn close_loop(out: &mut Vec<Op>, p: usize, Ghost(base): Ghost<int>)
    requires
        0 <= base <= p < old(out)@.len(),
        old(out)@[p as int] is Jz,
        wf_range(old(out)@, base, p as int),
        wf_range(old(out)@, p + 1, old(out)@.len() as int),
    ensures
        final(out)@ == closed_at(old(out)@, p as int),
        wf_range(final(out)@, base, final(out)@.len() as int),
{
    let ghost before = out@;
    let q = out.len();
    out.set(p, Op::Jz(q));
    out.push(Op::Jnz(p));
    proof {
        lemma_wf_frame(before, out@, p + 1, q as int);
        lemma_wf_wrap(out@, p as int, q + 1);
        lemma_wf_frame(before, out@, base, p as int);
        lemma_wf_append(out@, base, p as int, q + 1);
    }
}

pub(crate) proof fn lemma_wf_frame(s: Seq<Op>, t: Seq<Op>, lo: int, hi: int)
    requires
        wf_range(s, lo, hi),
        hi <= t.len(),
        forall|k: int| lo <= k < hi ==> s[k] == t[k],
    ensures
        wf_range(t, lo, hi),
{
    assert forall|i: int| lo <= i < hi && t[i] is Jz implies i < target(t[i]) < hi && t[target(t[i])] is Jnz
        && target(t[target(t[i])]) == i by {
        assert(s[i] == t[i]);
    }
    assert forall|j: int| lo <= j < hi && t[j] is Jnz implies lo <= target(t[j]) < j && t[target(t[j])] is Jz
        && target(t[target(t[j])]) == j by {
        assert(s[j] == t[j]);
    }
    assert forall|i: int, j: int|
        lo <= i < j < hi && t[i] is Jz && t[j] is Jz && j < target(t[i]) implies target(t[j])
        < target(t[i]) by {
        assert(s[i] == t[i] && s[j] == t[j]);
    }
}

/// An instruction that is not a jump can be added at the end of a range.
pub(crate) proof fn lemma_wf_extend(s: Seq<Op>, lo: int, hi: int)
    requires
        wf_range(s, lo, hi),
        hi < s.len(),
        !is_jump(s[hi]),
    ensures
        wf_range(s, lo, hi + 1),
{
}

/// An instruction that is not a jump can be taken off the end of a range.
pub(crate) proof fn lemma_wf_shrink(s: Seq<Op>, lo: int, hi: int)
    requires
        wf_range(s, lo, hi),
        lo < hi,
        !is_jump(s[hi - 1]),
    ensures
        wf_range(s, lo, hi - 1),
{
    assert forall|i: int| lo <= i < hi - 1 && s[i] is Jz implies target(s[i]) < hi - 1 by {
        if target(s[i]) == hi - 1 {
            assert(s[hi - 1] is Jnz);
        }
    }
}

/// A whole well-formed sequence is a closed span.
pub(crate) proof fn lemma_closed_whole(s: Seq<Op>)
    requires
        well_formed(s),
    ensures
        closed_span(s, 0, s.len() as int),
{
}

/// The first instruction of a closed span is never a closing jump, and a span
/// that starts with something other than a jump stays closed past it.
pub(crate) proof fn lemma_span_plain(s: Seq<Op>, i: int, hi: int)
    requires
        well_formed(s),
        closed_span(s, i, hi),
        i < hi,
    ensures
        !(s[i] is Jnz),
        !(s[i] is Jz) ==> closed_span(s, i + 1, hi),
{
    if !(s[i] is Jz) {
        assert forall|j: int| i + 1 <= j < hi && s[j] is Jnz implies i + 1 <= target(s[j]) by {
            if target(s[j]) == i {
                assert(s[i] is Jz);
            }
        }
    }
}

/// A loop that opens a closed span: its body and what follows it are closed spans.
pub(crate) proof fn lemma_span_loop(s: Seq<Op>, i: int, hi: int)
    requires
        well_formed(s),
        closed_span(s, i, hi),
        i < hi,
        s[i] is Jz,
    ensures
        i < target(s[i]) < hi,
        s[target(s[i])] is Jnz,
        target(s[target(s[i])]) == i,
        closed_span(s, i + 1, target(s[i])),
        closed_span(s, target(s[i]) + 1, hi),
{
    let t = target(s[i]);
    assert forall|j: int| i + 1 <= j < t implies (s[j] is Jz ==> target(s[j]) < t) && (s[j] is Jnz
        ==> i + 1 <= target(s[j])) by {
        if s[j] is Jnz {
            let src = target(s[j]);
            if src == i {
                assert(s[t] is Jnz && target(s[t]) == i);
            }
        }
    }
    assert forall|j: int| t + 1 <= j < hi implies (s[j] is Jz ==> target(s[j]) < hi) && (s[j] is Jnz
        ==> t + 1 <= target(s[j])) by {
        if s[j] is Jnz {
            let src = target(s[j]);
            assert(i <= src < j);
            assert(s[src] is Jz && target(s[src]) == j);
            if i < src < t {
                assert(target(s[src]) < t);
            }
            assert(src != i);
            assert(src != t);
        }
    }
}

} // verus!
