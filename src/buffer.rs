//! The interface shared by the two in-memory write buffer strategies.

use vstd::prelude::*;

use crate::write_path::LogEntry;

verus! {

/// A key/value pair as the specifications see it.
pub type EntryView = (Seq<u8>, Seq<u8>);

/// Bytes that one entry adds to a buffer's size.
pub open spec fn entry_size(e: EntryView) -> nat {
    e.0.len() + e.1.len()
}

/// Sum of key length plus value length over every entry of `log`.
pub open spec fn total_size(log: Seq<EntryView>) -> nat
    decreases log.len(),
{
    if log.len() == 0 {
        0
    } else {
        total_size(log.drop_last()) + entry_size(log.last())
    }
}

/// The entries of a vector of `LogEntry`, as pairs of byte sequences.
pub open spec fn entries_view(v: Seq<LogEntry>) -> Seq<EntryView> {
    v.map_values(|e: LogEntry| e@)
}

/// A mutable in-memory buffer of key/value writes.
///
/// `log` is every entry inserted so far, in insertion order, duplicates
/// included; `size` is always `total_size(log)`. What a frozen buffer hands
/// to the segment writer is described by `is_snapshot`, which each strategy
/// fixes.
pub trait WriteBuffer: Sized {
    spec fn wf(&self) -> bool;

    spec fn log(&self) -> Seq<EntryView>;

    /// `s` is the sequence of entries a buffer whose history is `log` yields.
    spec fn is_snapshot(log: Seq<EntryView>, s: Seq<EntryView>) -> bool;

    fn new() -> (r: Self)
        ensures
            r.wf(),
            r.log() == Seq::<EntryView>::empty(),
    ;

    fn put(&mut self, key: Vec<u8>, value: Vec<u8>)
        requires
            old(self).wf(),
            total_size(old(self).log()) + key@.len() + value@.len() <= usize::MAX,
        ensures
            final(self).wf(),
            final(self).log() == old(self).log().push((key@, value@)),
    ;

    fn size(&self) -> (r: usize)
        requires
            self.wf(),
        ensures
            r == total_size(self.log()),
    ;

    fn is_empty(&self) -> (r: bool)
        requires
            self.wf(),
        ensures
            r == (self.log().len() == 0),
    ;

    /// Consumes a frozen buffer and yields its entries for persistence.
    fn into_entries(self) -> (r: Vec<LogEntry>)
        requires
            self.wf(),
        ensures
            Self::is_snapshot(self.log(), entries_view(r@)),
    ;
}

} // verus!
