//! Snapshot objects, as described by Afek, Attiya, Dolev, Gafni, Merritt
//! and Shavit.
pub mod bits;
pub mod bounded;
pub mod unbounded;

pub use self::bounded::{BoundedAtomicSnapshot, BoundedMutexSnapshot, BoundedSnapshot};
pub use self::unbounded::{UnboundedAtomicSnapshot, UnboundedMutexSnapshot, UnboundedSnapshot};

use vstd::prelude::*;

verus! {

/// How often the processes were seen to move during a scan, in total.
pub open spec fn moved_count(moved: Seq<u8>) -> int
    decreases moved.len(),
{
    if moved.len() == 0 {
        0
    } else {
        moved_count(moved.drop_last()) + moved.last()
    }
}

} // verus!
