//! The logic of the user programs shipped with the kernel.
use vstd::prelude::*;

pub mod greet;
pub mod ls;
pub mod sys;

verus! {
} // verus!
