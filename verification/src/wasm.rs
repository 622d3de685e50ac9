//! Reserved for the browser bindings.

use vstd::prelude::*;

verus! {

/// Reserved entry point; does nothing yet.
pub fn placeholder() {
}

} // verus!
