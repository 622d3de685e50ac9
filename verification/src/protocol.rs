//! Reserved for the voting protocol layer.

use vstd::prelude::*;

verus! {

/// Reserved entry point; does nothing yet.
pub fn placeholder() {
}

} // verus!
