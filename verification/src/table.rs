//! What the two table layouts share.

use vstd::prelude::*;
use crate::entry::EntryView;
use crate::name::stored_name;

verus! {

/// The length of the header that precedes the table.
pub const HEADER_LEN: u32 = 8;

/// The length in bytes of the stored name of `e`.
pub open spec fn name_len(e: EntryView) -> nat {
    stored_name(e.name).len()
}

/// What walking a table finds.
pub struct Scan {
    /// The entries found, in the order of their records.
    pub entries: Seq<EntryView>,
    /// Where the walk stopped.
    pub pos: nat,
    /// Whether the walk ended in order, at what the layout takes for the
    /// end of a table, and not at a record that cannot be right.
    pub complete: bool,
}

/// A walk that found nothing and stopped at `pos`.
pub open spec fn stop(pos: nat, complete: bool) -> Scan {
    Scan { entries: Seq::empty(), pos, complete }
}

} // verus!
