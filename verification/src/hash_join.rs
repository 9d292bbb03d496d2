//! Hash joins. So far only the entry point of the one-pass join exists.

use vstd::prelude::*;

verus! {

/// One-pass hash join for two relations of which one fits into main memory.
/// No relation is read yet: this does nothing, whatever `path` names.
pub fn simple_hash_join(path: &str) {
}

} // verus!
