//! An optimizing compiler and interpreter core for a minimal byte-tape
//! language: lowering of program text to instructions, loop rewriting,
//! dead-code elimination, and the execution semantics shared by the backends.
use vstd::prelude::*;

pub mod ir;
pub mod fold;
pub mod dce;
pub mod lower;
pub mod loops;
pub mod machine;
pub mod effect;

pub use ir::Op;
pub use lower::{parse, brackets_balanced, filter_instructions};
pub use loops::optimize_loops;
pub use dce::optimize_dce;
pub use machine::{Machine, Step, Status, Run, execute};

verus! {

/// The optimizer pipeline: loop rewriting, then dead-code elimination.
///
/// On input with nothing left to fold (as `parse` produces), the pipeline is
/// idempotent: optimizing its result once more gives that result back.
pub fn optimize(ops: Vec<Op>) -> (r: Vec<Op>)
    requires
        ir::well_formed(ops@),
    ensures
        r@ == dce::dce_result(loops::loops_result(ops@)),
        ir::well_formed(r@),
        ir::normal(ops@) ==> dce::dce_result(loops::loops_result(r@)) == r@,
{
    let z = optimize_loops(ops);
    let r = optimize_dce(z);
    proof {
        if ir::normal(ops@) {
            loops::lemma_loops_keep_settled(r@);
            dce::lemma_dce_idempotent(z@);
        }
    }
    r
}

} // verus!
