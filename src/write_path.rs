//! The insertion-ordered write buffer: entries are kept in the order they
//! were written, duplicates included.

use vstd::prelude::*;

use crate::buffer::{entries_view, total_size, EntryView, WriteBuffer};

verus! {

/// One key/value write.
#[derive(Clone)]
pub struct LogEntry {
    pub key: Vec<u8>,
    pub value: Vec<u8>,
}

impl View for LogEntry {
    type V = EntryView;

    open spec fn view(&self) -> EntryView {
        (self.key@, self.value@)
    }
}

/// Append-only buffer; a segment written from it keeps the insertion order.
pub struct MemTable {
    entries: Vec<LogEntry>,
    size: usize,
}

impl WriteBuffer for MemTable {
    closed spec fn wf(&self) -> bool {
        self.size == total_size(entries_view(self.entries@))
    }

    closed spec fn log(&self) -> Seq<EntryView> {
        entries_view(self.entries@)
    }

    open spec fn is_snapshot(log: Seq<EntryView>, s: Seq<EntryView>) -> bool {
        s == log
    }

    fn new() -> (r: Self) {
        let r = MemTable { entries: Vec::new(), size: 0 };
        assert(entries_view(r.entries@) =~= Seq::<EntryView>::empty());
        r
    }

    fn put(&mut self, key: Vec<u8>, value: Vec<u8>) {
        let entry_size = key.len() + value.len();
        let ghost before = entries_view(self.entries@);
        self.entries.push(LogEntry { key, value });
        assert(entries_view(self.entries@).drop_last() =~= before);
        self.size = self.size + entry_size;
    }

    fn size(&self) -> (r: usize) {
        self.size
    }

    fn is_empty(&self) -> (r: bool) {
        self.entries.len() == 0
    }

    fn into_entries(self) -> (r: Vec<LogEntry>) {
        self.entries
    }
}

} // verus!
