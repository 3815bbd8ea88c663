//! Device drivers.
use vstd::prelude::*;

pub mod ata;

verus! {
} // verus!
