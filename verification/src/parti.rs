//! Maximising the product of the parts of an integer partition.
use vstd::prelude::*;

pub mod bigbrain;

verus! {

/// The product of a sequence of parts.
pub open spec fn seq_prod(s: Seq<u64>) -> int
    decreases s.len(),
{
    if s.len() == 0 {
        1
    } else {
        s[0] * seq_prod(s.drop_first())
    }
}

/// The sum of a sequence of parts.
pub open spec fn seq_sum(s: Seq<u64>) -> int
    decreases s.len(),
{
    if s.len() == 0 {
        0
    } else {
        s[0] + seq_sum(s.drop_first())
    }
}

} // verus!
