//! Tactic vocabulary shared with the cooperating process.
use vstd::prelude::*;

verus! {

/// A checking tactic selecting how a hole is presented.
#[derive(Debug, PartialEq, Eq)]
pub enum ChkTactic {
    SilentHole(Option<String>),
    UnleashHole(Option<String>),
    UnleashSynHole(Option<String>),
}

} // verus!
