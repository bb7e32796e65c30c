use vstd::prelude::*;

pub mod bitops;
pub mod clock;
pub mod coords;
pub mod board;
pub mod parti;
pub mod rng;
pub mod scramble;
pub mod tree;
pub mod types;
pub mod util;

verus! {

} // verus!
