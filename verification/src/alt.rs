//! Alternatives, the options that a menu offers.

use vstd::prelude::*;

verus! {

/// One alternative, identified by its position in the table of labels.
#[derive(Clone, Copy, Debug, PartialEq, Eq, Structural, Hash, PartialOrd, Ord)]
pub struct Alt(pub u32);

} // verus!
