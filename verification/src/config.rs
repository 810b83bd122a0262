//! Small configuration helpers for invariants enforced even in `no_std` contexts.

use vstd::prelude::*;

verus! {

/// Enforces a required condition: callers must establish `condition`; `_message` names it.
/// With the condition holding, this does nothing.
pub fn require(condition: bool, _message: &str)
    requires
        condition,
{
}

} // verus!
