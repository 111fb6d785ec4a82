//! The key-ordered write buffer, kept in a concurrent skip list: a segment
//! written from it lists its keys in ascending byte order, and a later write
//! of a key replaces the earlier one.

use crossbeam_skiplist::SkipMap;
use vstd::prelude::*;

use crate::buffer::{entries_view, total_size, EntryView, WriteBuffer};
use crate::segment::{all_fit, decode_records, encode_records, lemma_segment_round_trip};
use crate::write_path::LogEntry;

verus! {

#[verifier::external_type_specification]
#[verifier::external_body]
#[verifier::reject_recursive_types(K)]
#[verifier::reject_recursive_types(V)]
pub struct ExSkipMap<K, V>(SkipMap<K, V>);

/// A skip map from byte-string keys to byte-string values.
pub type ByteSkipMap = SkipMap<Vec<u8>, Vec<u8>>;

/// What a skip map of byte-string keys and values holds.
pub uninterp spec fn skipmap_contents(m: ByteSkipMap) -> Map<Seq<u8>, Seq<u8>>;

/// Lexicographic order of byte strings, the order of `Ord` on `Vec<u8>`:
/// the first differing byte decides, and a proper prefix comes first.
pub open spec fn bytes_lt(a: Seq<u8>, b: Seq<u8>) -> bool
    decreases a.len(),
{
    if a.len() == 0 {
        b.len() > 0
    } else if b.len() == 0 {
        false
    } else if a[0] != b[0] {
        a[0] < b[0]
    } else {
        bytes_lt(a.drop_first(), b.drop_first())
    }
}

/// `s` lists every entry of `m` once, in strictly ascending key order.
pub open spec fn is_key_ordered_listing(s: Seq<EntryView>, m: Map<Seq<u8>, Seq<u8>>) -> bool {
    &&& forall|i: int, j: int| 0 <= i < j < s.len() ==> bytes_lt(#[trigger] s[i].0, #[trigger] s[j].0)
    &&& forall|i: int| 0 <= i < s.len() ==> m.contains_key(#[trigger] s[i].0) && m[s[i].0] == s[i].1
    &&& forall|k: Seq<u8>| #[trigger] m.contains_key(k) ==> exists|i: int| 0 <= i < s.len() && s[i].0 == k
}

/// Each key of `log` with the value of its last write.
pub open spec fn latest_values(log: Seq<EntryView>) -> Map<Seq<u8>, Seq<u8>>
    decreases log.len(),
{
    if log.len() == 0 {
        Map::empty()
    } else {
        latest_values(log.drop_last()).insert(log.last().0, log.last().1)
    }
}

/// Relies on `SkipMap::new`: the new map is empty.
#[verifier::external_body]
fn skipmap_new() -> (r: ByteSkipMap)
    ensures
        skipmap_contents(r).dom() == Set::<Seq<u8>>::empty(),
{
    SkipMap::new()
}

/// Relies on `SkipMap::insert`: afterwards the key maps to the value; an
/// entry that held the key before is removed.
#[verifier::external_body]
fn skipmap_insert(m: &mut ByteSkipMap, key: Vec<u8>, value: Vec<u8>)
    ensures
        skipmap_contents(*final(m)) == skipmap_contents(*old(m)).insert(key@, value@),
{
    m.insert(key, value);
}

/// Relies on `SkipMap::is_empty`: whether the map holds no entry.
#[verifier::external_body]
fn skipmap_is_empty(m: &ByteSkipMap) -> (r: bool)
    ensures
        r == (skipmap_contents(*m).dom() == Set::<Seq<u8>>::empty()),
{
    m.is_empty()
}

/// Relies on `SkipMap::iter`: every entry of the map once, sorted by key;
/// each key and value is cloned out into a `LogEntry`.
#[verifier::external_body]
fn skipmap_sorted_entries(m: &ByteSkipMap) -> (r: Vec<LogEntry>)
    ensures
        is_key_ordered_listing(entries_view(r@), skipmap_contents(*m)),
{
    m.iter().map(|e| LogEntry { key: e.key().clone(), value: e.value().clone() }).collect()
}

proof fn lemma_latest_values_empty(log: Seq<EntryView>)
    ensures
        (latest_values(log).dom() == Set::<Seq<u8>>::empty()) == (log.len() == 0),
{
    if log.len() > 0 {
        assert(latest_values(log).contains_key(log.last().0));
    } else {
        assert(latest_values(log).dom() =~= Set::<Seq<u8>>::empty());
    }
}

/// Skip-list buffer: duplicate keys keep the last value written, while
/// `size` still counts every write.
pub struct MemTable {
    entries: ByteSkipMap,
    size: usize,
    log: Ghost<Seq<EntryView>>,
}

impl MemTable {
    /// The entries, sorted by key, each key with its latest value.
    pub fn iter(&self) -> (r: Vec<LogEntry>)
        requires
            self.wf(),
        ensures
            is_key_ordered_listing(entries_view(r@), latest_values(self.log())),
    {
        skipmap_sorted_entries(&self.entries)
    }
}

impl WriteBuffer for MemTable {
    closed spec fn wf(&self) -> bool {
        &&& skipmap_contents(self.entries) == latest_values(self.log@)
        &&& self.size == total_size(self.log@)
    }

    closed spec fn log(&self) -> Seq<EntryView> {
        self.log@
    }

    open spec fn is_snapshot(log: Seq<EntryView>, s: Seq<EntryView>) -> bool {
        is_key_ordered_listing(s, latest_values(log))
    }

    fn new() -> (r: Self) {
        let entries = skipmap_new();
        assert(skipmap_contents(entries) =~= latest_values(Seq::<EntryView>::empty()));
        MemTable { entries, size: 0, log: Ghost(Seq::empty()) }
    }

    fn put(&mut self, key: Vec<u8>, value: Vec<u8>) {
        let entry_size = key.len() + value.len();
        let ghost entry = (key@, value@);
        skipmap_insert(&mut self.entries, key, value);
        self.size = self.size + entry_size;
        self.log = Ghost(self.log@.push(entry));
        assert(self.log@.drop_last() =~= old(self).log@);
    }

    fn size(&self) -> (r: usize) {
        self.size
    }

    fn is_empty(&self) -> (r: bool) {
        proof {
            lemma_latest_values_empty(self.log@);
        }
        skipmap_is_empty(&self.entries)
    }

    fn into_entries(self) -> (r: Vec<LogEntry>) {
        self.iter()
    }
}

pub proof fn lemma_bytes_lt_irreflexive(a: Seq<u8>)
    ensures
        !bytes_lt(a, a),
    decreases a.len(),
{
    if a.len() > 0 {
        lemma_bytes_lt_irreflexive(a.drop_first());
    }
}

pub proof fn lemma_bytes_lt_transitive(a: Seq<u8>, b: Seq<u8>, c: Seq<u8>)
    requires
        bytes_lt(a, b),
        bytes_lt(b, c),
    ensures
        bytes_lt(a, c),
    decreases a.len(),
{
    if a.len() > 0 && b.len() > 0 && c.len() > 0 && a[0] == b[0] && b[0] == c[0] {
        lemma_bytes_lt_transitive(a.drop_first(), b.drop_first(), c.drop_first());
    }
}

/// A map has one key-ordered listing at most: the snapshot of the skip-list
/// buffer is fully determined by what the buffer holds.
pub proof fn lemma_key_ordered_listing_unique(
    s1: Seq<EntryView>,
    s2: Seq<EntryView>,
    m: Map<Seq<u8>, Seq<u8>>,
)
    requires
        is_key_ordered_listing(s1, m),
        is_key_ordered_listing(s2, m),
    ensures
        s1 == s2,
    decreases s1.len() + s2.len(),
{
    if s1.len() == 0 || s2.len() == 0 {
        if s1.len() > 0 {
            assert(m.contains_key(s1[0].0));
        }
        if s2.len() > 0 {
            assert(m.contains_key(s2[0].0));
        }
        assert(s1 =~= s2);
    } else {
        let k1 = s1[0].0;
        let k2 = s2[0].0;
        assert(m.contains_key(k1));
        assert(m.contains_key(k2));
        if k1 != k2 {
            let j1 = choose|j: int| 0 <= j < s1.len() && s1[j].0 == k2;
            let j2 = choose|j: int| 0 <= j < s2.len() && s2[j].0 == k1;
            assert(j1 != 0 && j2 != 0);
            assert(bytes_lt(s1[0].0, s1[j1].0));
            assert(bytes_lt(s2[0].0, s2[j2].0));
            lemma_bytes_lt_transitive(k1, k2, k1);
            lemma_bytes_lt_irreflexive(k1);
        }
        let rest = m.remove(k1);
        let t1 = s1.drop_first();
        let t2 = s2.drop_first();
        assert forall|i: int| 0 <= i < t1.len() implies rest.contains_key(#[trigger] t1[i].0)
            && rest[t1[i].0] == t1[i].1 by {
            assert(bytes_lt(s1[0].0, s1[i + 1].0));
            lemma_bytes_lt_irreflexive(k1);
        }
        assert forall|i: int| 0 <= i < t2.len() implies rest.contains_key(#[trigger] t2[i].0)
            && rest[t2[i].0] == t2[i].1 by {
            assert(bytes_lt(s2[0].0, s2[i + 1].0));
            lemma_bytes_lt_irreflexive(k1);
        }
        assert forall|k: Seq<u8>| #[trigger] rest.contains_key(k) implies exists|i: int|
            0 <= i < t1.len() && t1[i].0 == k by {
            let j = choose|j: int| 0 <= j < s1.len() && s1[j].0 == k;
            assert(t1[j - 1].0 == k);
        }
        assert forall|k: Seq<u8>| #[trigger] rest.contains_key(k) implies exists|i: int|
            0 <= i < t2.len() && t2[i].0 == k by {
            let j = choose|j: int| 0 <= j < s2.len() && s2[j].0 == k;
            assert(t2[j - 1].0 == k);
        }
        assert forall|i: int, j: int| 0 <= i < j < t1.len() implies bytes_lt(
            #[trigger] t1[i].0,
            #[trigger] t1[j].0,
        ) by {
            assert(bytes_lt(s1[i + 1].0, s1[j + 1].0));
        }
        assert forall|i: int, j: int| 0 <= i < j < t2.len() implies bytes_lt(
            #[trigger] t2[i].0,
            #[trigger] t2[j].0,
        ) by {
            assert(bytes_lt(s2[i + 1].0, s2[j + 1].0));
        }
        lemma_key_ordered_listing_unique(t1, t2, rest);
        assert(s1[0].1 == m[k1] && s2[0].1 == m[k1]);
        assert(s1[0] == s2[0]);
        assert(s1 =~= seq![s1[0]] + t1);
        assert(s2 =~= seq![s2[0]] + t2);
    }
}

/// A segment written from the skip-list buffer, whatever order the writes
/// came in, decodes to its keys in strictly ascending byte order, each key
/// once with the value last written for it.
pub proof fn lemma_sorted_segment(log: Seq<EntryView>, s: Seq<EntryView>)
    requires
        MemTable::is_snapshot(log, s),
        all_fit(s),
    ensures
        decode_records(encode_records(s)) == Some(s),
        forall|i: int, j: int| 0 <= i < j < s.len() ==> bytes_lt(#[trigger] s[i].0, #[trigger] s[j].0),
        forall|i: int| 0 <= i < s.len() ==> latest_values(log)[#[trigger] s[i].0] == s[i].1,
{
    lemma_segment_round_trip(s);
}

} // verus!
