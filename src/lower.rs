//! Lowering of program text to instructions.
use vstd::prelude::*;
use crate::ir::{
    Op, Building, is_jump, normal, wf_range, well_formed, closed_at, close_loop, lemma_wf_frame,
    lemma_normal_push, lemma_normal_closed_at,
};
use crate::fold::{
    merged_move, merged_value, lemma_tail_change_keeps, lemma_merged_move_tail,
    lemma_merged_value_tail, push_move, push_value, lemma_merged_normal,
};

verus! {

/// How a character changes the bracket depth.
pub open spec fn depth_change(c: u8) -> int {
    if c == 91 {
        1
    } else if c == 93 {
        -1
    } else {
        0
    }
}

/// Opened brackets minus closed brackets in `s`.
pub open spec fn depth(s: Seq<u8>) -> int
    decreases s.len(),
{
    if s.len() == 0 {
        0
    } else {
        depth(s.drop_last()) + depth_change(s.last())
    }
}

/// Every closing bracket closes an earlier opening one, and every opening
/// bracket is closed.
pub open spec fn balanced(s: Seq<u8>) -> bool {
    &&& forall|n: int| 0 <= n <= s.len() ==> #[trigger] depth(s.take(n)) >= 0
    &&& depth(s) == 0
}

/// `[-]` or `[+]` starts at `i`.
pub open spec fn clear_at(s: Seq<u8>, i: int) -> bool {
    &&& 0 <= i
    &&& i + 2 < s.len()
    &&& s[i] == 91
    &&& s[i + 2] == 93
    &&& (s[i + 1] == 45 || s[i + 1] == 43)
}

/// The effect of the character at `i` when it does not start `[-]` or `[+]`.
pub open spec fn lower_char(c: u8, b: Building) -> Building {
    if c == 62 {
        Building { out: merged_move(b.out, true, 1), open: b.open }
    } else if c == 60 {
        Building { out: merged_move(b.out, false, 1), open: b.open }
    } else if c == 43 {
        Building { out: merged_value(b.out, true, 1), open: b.open }
    } else if c == 45 {
        Building { out: merged_value(b.out, false, 1), open: b.open }
    } else if c == 46 {
        Building { out: b.out.push(Op::Output), open: b.open }
    } else if c == 44 {
        Building { out: b.out.push(Op::Input), open: b.open }
    } else if c == 91 {
        Building { out: b.out.push(Op::Jz(0)), open: b.open.push(b.out.len() as int) }
    } else if c == 93 {
        if b.open.len() > 0 {
            Building { out: closed_at(b.out, b.open.last()), open: b.open.drop_last() }
        } else {
            Building { out: b.out.push(Op::Jnz(0)), open: b.open }
        }
    } else {
        b
    }
}

/// Lowering from character `i` on: `[-]` and `[+]` become `Clear`, moves and
/// value changes fold into their neighbours, brackets become jump pairs.
pub open spec fn lower_from(s: Seq<u8>, i: int, b: Building) -> Building
    decreases s.len() - i,
{
    if i < 0 || i >= s.len() {
        b
    } else if clear_at(s, i) {
        lower_from(s, i + 3, Building { out: b.out.push(Op::Clear), open: b.open })
    } else {
        lower_from(s, i + 1, lower_char(s[i], b))
    }
}

/// The instructions that the program text `s` lowers to.
pub open spec fn lower(s: Seq<u8>) -> Seq<Op> {
    lower_from(s, 0, Building { out: Seq::empty(), open: Seq::empty() }).out
}

/// `[-]` and `[+]`, wherever they stand, lower to a single `Clear`.
pub proof fn lemma_clear_loop_lowers_to_clear(s: Seq<u8>, i: int, b: Building)
    requires
        clear_at(s, i),
    ensures
        lower_from(s, i, b) == lower_from(
            s,
            i + 3,
            Building { out: b.out.push(Op::Clear), open: b.open },
        ),
{
}

/// The eight characters that carry meaning.
pub open spec fn is_instruction(c: u8) -> bool {
    c == 62 || c == 60 || c == 43 || c == 45 || c == 46 || c == 44 || c == 91 || c == 93
}

/// The instruction characters of `s`, in order.
pub open spec fn instructions_of(s: Seq<u8>) -> Seq<u8>
    decreases s.len(),
{
    if s.len() == 0 {
        Seq::empty()
    } else if is_instruction(s.last()) {
        instructions_of(s.drop_last()).push(s.last())
    } else {
        instructions_of(s.drop_last())
    }
}

/// Keeps the instruction characters of `raw` and drops everything else.
pub fn filter_instructions(raw: &Vec<u8>) -> (r: Vec<u8>)
    ensures
        r@ == instructions_of(raw@),
{
    let mut r: Vec<u8> = Vec::new();
    let mut k: usize = 0;
    while k < raw.len()
        invariant
            k <= raw@.len(),
            r@ == instructions_of(raw@.take(k as int)),
        decreases raw@.len() - k,
    {
        let c = raw[k];
        proof {
            assert(raw@.take(k + 1).drop_last() =~= raw@.take(k as int));
        }
        if c == 62 || c == 60 || c == 43 || c == 45 || c == 46 || c == 44 || c == 91 || c == 93 {
            r.push(c);
        }
        k = k + 1;
    }
    proof {
        assert(raw@.take(raw@.len() as int) =~= raw@);
    }
    r
}

proof fn lemma_depth_step(s: Seq<u8>, k: int)
    requires
        0 <= k < s.len(),
    ensures
        depth(s.take(k + 1)) == depth(s.take(k)) + depth_change(s[k]),
{
    assert(s.take(k + 1).drop_last() =~= s.take(k));
}

/// Tells whether every bracket of `code` is matched.
pub fn brackets_balanced(code: &Vec<u8>) -> (r: bool)
    ensures
        r == balanced(code@),
{
    let mut d: usize = 0;
    let mut k: usize = 0;
    proof {
        assert(code@.take(0) =~= Seq::<u8>::empty());
    }
    while k < code.len()
        invariant
            k <= code@.len(),
            d == depth(code@.take(k as int)),
            d <= k,
            forall|n: int| 0 <= n <= k ==> #[trigger] depth(code@.take(n)) >= 0,
        decreases code@.len() - k,
    {
        proof {
            lemma_depth_step(code@, k as int);
        }
        let c = code[k];
        if c == 91 {
            d = d + 1;
        } else if c == 93 {
            if d == 0 {
                proof {
                    assert(depth(code@.take(k + 1)) < 0);
                }
                return false;
            }
            d = d - 1;
        }
        k = k + 1;
    }
    proof {
        assert(code@.take(code@.len() as int) =~= code@);
    }
    d == 0
}

/// What holds while the characters from `i` are lowered and the lowering
/// stands at `k`, having started from output `first`.
#[verifier::opaque]
pub open spec fn lower_inv(
    code: Seq<u8>,
    i: int,
    k: int,
    out: Seq<Op>,
    open: Seq<int>,
    first: Seq<Op>,
) -> bool {
    let base = first.len() as int;
    &&& 0 <= i <= k <= code.len()
    &&& balanced(code)
    &&& depth(code.take(k)) == depth(code.take(i))
    &&& depth(code.take(i)) >= 0
    &&& lower_from(code, i, Building { out: first, open }) == lower_from(
        code,
        k,
        Building { out, open },
    )
    &&& base <= out.len()
    &&& out.subrange(0, base) == first
    &&& first.len() == 0 || is_jump(first.last())
    &&& wf_range(out, base, out.len() as int)
    &&& normal(first) ==> normal(out)
}

/// `[-]` or `[+]` at `k` becomes `Clear`.
fn lower_clear(
    code: &Vec<u8>,
    i: usize,
    k: usize,
    out: &mut Vec<Op>,
    Ghost(open): Ghost<Seq<int>>,
    Ghost(first): Ghost<Seq<Op>>,
)
    requires
        lower_inv(code@, i as int, k as int, old(out)@, open, first),
        clear_at(code@, k as int),
    ensures
        lower_inv(code@, i as int, k + 3, final(out)@, open, first),
{
    proof {
        reveal(lower_inv);
    }
    let ghost base = first.len() as int;
    let ghost before = out@;
    proof {
        if out@.len() == base && base > 0 {
            assert(out@[base - 1] == out@.subrange(0, base)[base - 1]);
        }
    }
    out.push(Op::Clear);
    proof {
        lemma_depth_step(code@, k as int);
        lemma_depth_step(code@, k + 1);
        lemma_depth_step(code@, k + 2);
        assert(out@.drop_last() =~= before);
        lemma_tail_change_keeps(before, out@, base);
        if normal(first) {
            lemma_normal_push(before, Op::Clear);
        }
    }
}

/// A `[` at `k` that does not start `[-]` or `[+]`: the loop it opens is
/// lowered whole; returns the position after its `]`.
fn lower_nested(
    code: &Vec<u8>,
    i: usize,
    k: usize,
    out: &mut Vec<Op>,
    Ghost(open): Ghost<Seq<int>>,
    Ghost(first): Ghost<Seq<Op>>,
) -> (next: usize)
    requires
        k < code@.len(),
        lower_inv(code@, i as int, k as int, old(out)@, open, first),
        code@[k as int] == 91,
        !clear_at(code@, k as int),
    ensures
        k < next <= code@.len(),
        lower_inv(code@, i as int, next as int, final(out)@, open, first),
    decreases code@.len() - k, 0int,
{
    proof {
        reveal(lower_inv);
        lemma_depth_step(code@, k as int);
    }
    let len = code.len();
    let ghost base = first.len() as int;
    let ghost before = out@;
    let p = out.len();
    out.push(Op::Jz(0));
    let ghost mid = out@;
    proof {
        if normal(first) {
            lemma_normal_push(before, Op::Jz(0));
        }
    }
    let j = lower_span(code, k + 1, out, Ghost(open.push(p as int)));
    let ghost body = out@;
    proof {
        lemma_depth_step(code@, j as int);
        assert(body[p as int] == mid[p as int]);
        assert(open.push(p as int).last() == p as int);
        assert(open.push(p as int).drop_last() =~= open);
        assert forall|n: int| 0 <= n < p implies before[n] == body[n] by {
            assert(body.subrange(0, mid.len() as int)[n] == mid[n]);
        }
        lemma_wf_frame(before, body, base, p as int);
        assert(!clear_at(code@, j as int));
    }
    close_loop(out, p, Ghost(base));
    proof {
        assert(out@.subrange(0, base) =~= first) by {
            assert forall|n: int| 0 <= n < base implies out@.subrange(0, base)[n] == first[n] by {
                assert(first[n] == before.subrange(0, base)[n]);
            }
        }
        if normal(first) {
            assert(body[p as int] is Jz);
            lemma_normal_closed_at(body, p as int);
        }
    }
    j + 1
}

/// A character at `k` other than a bracket.
fn lower_plain(
    code: &Vec<u8>,
    i: usize,
    k: usize,
    out: &mut Vec<Op>,
    Ghost(open): Ghost<Seq<int>>,
    Ghost(first): Ghost<Seq<Op>>,
)
    requires
        k < code@.len(),
        lower_inv(code@, i as int, k as int, old(out)@, open, first),
        code@[k as int] != 91,
        code@[k as int] != 93,
    ensures
        lower_inv(code@, i as int, k + 1, final(out)@, open, first),
{
    proof {
        reveal(lower_inv);
        lemma_depth_step(code@, k as int);
    }
    let len = code.len();
    let ghost base = first.len() as int;
    let ghost before = out@;
    proof {
        if out@.len() == base && base > 0 {
            assert(out@[base - 1] == out@.subrange(0, base)[base - 1]);
        }
    }
    let c = code[k];
    if c == 62 {
        push_move(out, true, 1);
        proof {
            lemma_merged_move_tail(before, true, 1);
        }
    } else if c == 60 {
        push_move(out, false, 1);
        proof {
            lemma_merged_move_tail(before, false, 1);
        }
    } else if c == 43 {
        push_value(out, true, 1);
        proof {
            lemma_merged_value_tail(before, true, 1);
        }
    } else if c == 45 {
        push_value(out, false, 1);
        proof {
            lemma_merged_value_tail(before, false, 1);
        }
    } else if c == 46 {
        out.push(Op::Output);
        proof {
            assert(out@.drop_last() =~= before);
        }
    } else if c == 44 {
        out.push(Op::Input);
        proof {
            assert(out@.drop_last() =~= before);
        }
    }
    proof {
        lemma_tail_change_keeps(before, out@, base);
        if normal(first) {
            if c == 62 || c == 60 {
                lemma_merged_normal(before, true, c == 62, 1);
            } else if c == 43 || c == 45 {
                lemma_merged_normal(before, false, c == 43, 1);
            } else if c == 46 || c == 44 {
                lemma_normal_push(before, out@.last());
                assert(out@ == before.push(out@.last()));
            }
        }
    }
}

/// Lowers the characters from `i` on, up to the bracket that closes the
/// current depth (or the end of the text, at depth zero), whose position is
/// returned.
fn lower_span(code: &Vec<u8>, i: usize, out: &mut Vec<Op>, Ghost(open): Ghost<Seq<int>>) -> (j:
    usize)
    requires
        balanced(code@),
        i <= code@.len(),
        depth(code@.take(i as int)) >= 0,
        old(out)@.len() == 0 || is_jump(old(out)@.last()),
    ensures
        i <= j <= code@.len(),
        depth(code@.take(i as int)) == 0 ==> j == code@.len(),
        depth(code@.take(i as int)) > 0 ==> j < code@.len() && code@[j as int] == 93 && depth(
            code@.take(j as int),
        ) == depth(code@.take(i as int)),
        lower_from(code@, i as int, Building { out: old(out)@, open }) == lower_from(
            code@,
            j as int,
            Building { out: final(out)@, open },
        ),
        old(out)@.len() <= final(out)@.len(),
        final(out)@.subrange(0, old(out)@.len() as int) == old(out)@,
        wf_range(final(out)@, old(out)@.len() as int, final(out)@.len() as int),
        normal(old(out)@) ==> normal(final(out)@),
    decreases code@.len() - i, 1int,
{
    let ghost first = out@;
    proof {
        reveal(lower_inv);
        assert(out@.subrange(0, first.len() as int) =~= first);
    }
    let len = code.len();
    let mut k = i;
    while k < len
        invariant
            i <= k <= len,
            len == code@.len(),
            first == old(out)@,
            lower_inv(code@, i as int, k as int, out@, open, first),
        decreases len - k,
    {
        let c = code[k];
        if c == 93 {
            proof {
                reveal(lower_inv);
                lemma_depth_step(code@, k as int);
                assert(depth(code@.take(k + 1)) >= 0);
            }
            return k;
        }
        if c == 91 && len - k > 2 && code[k + 2] == 93 && (code[k + 1] == 45 || code[k + 1] == 43) {
            lower_clear(code, i, k, out, Ghost(open), Ghost(first));
            k = k + 3;
        } else if c == 91 {
            k = lower_nested(code, i, k, out, Ghost(open), Ghost(first));
        } else {
            lower_plain(code, i, k, out, Ghost(open), Ghost(first));
            k = k + 1;
        }
    }
    proof {
        reveal(lower_inv);
        assert(code@.take(len as int) =~= code@);
    }
    k
}

/// Lowers balanced program text to well-formed instructions.
pub fn parse(code: Vec<u8>) -> (r: Vec<Op>)
    requires
        balanced(code@),
    ensures
        r@ == lower(code@),
        well_formed(r@),
        normal(r@),
{
    let mut out: Vec<Op> = Vec::new();
    proof {
        assert(code@.take(0) =~= Seq::<u8>::empty());
    }
    let j = lower_span(&code, 0, &mut out, Ghost(Seq::empty()));
    proof {
        assert(out@.subrange(0, 0) =~= Seq::<Op>::empty());
    }
    out
}

} // verus!
