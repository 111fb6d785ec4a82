//! The segment file format: a bare sequence of records, each a 4-byte
//! little-endian key length, the key bytes, a 4-byte little-endian value
//! length and the value bytes. No header, checksum or footer.

use vstd::bytes::{
    lemma_auto_spec_u32_to_from_le_bytes, spec_u32_from_le_bytes, spec_u32_to_le_bytes,
    u32_from_le_bytes, u32_to_le_bytes,
};
use vstd::prelude::*;
use vstd::slice::{slice_subrange, slice_to_vec};

use crate::buffer::{entries_view, EntryView};
use crate::write_path::LogEntry;

verus! {

/// Why a buffer could not be turned into a segment.
#[derive(Debug, Clone, Copy, PartialEq, Eq, Structural)]
pub enum SegmentError {
    /// A key or a value is longer than a 4-byte length prefix can state.
    RecordTooLong,
}

/// Both lengths of the entry fit in a 4-byte length prefix.
pub open spec fn fits_record(e: EntryView) -> bool {
    e.0.len() <= u32::MAX && e.1.len() <= u32::MAX
}

pub open spec fn all_fit(es: Seq<EntryView>) -> bool {
    forall|i: int| 0 <= i < es.len() ==> fits_record(#[trigger] es[i])
}

/// The bytes of one record.
pub open spec fn encode_record(e: EntryView) -> Seq<u8> {
    spec_u32_to_le_bytes(e.0.len() as u32) + e.0 + spec_u32_to_le_bytes(e.1.len() as u32) + e.1
}

/// The bytes of a segment holding `es`, in order.
pub open spec fn encode_records(es: Seq<EntryView>) -> Seq<u8>
    decreases es.len(),
{
    if es.len() == 0 {
        Seq::empty()
    } else {
        encode_records(es.drop_last()) + encode_record(es.last())
    }
}

/// The little-endian `u32` stored at `b[at..at + 4]`.
pub open spec fn read_len(b: Seq<u8>, at: int) -> int {
    spec_u32_from_le_bytes(b.subrange(at, at + 4)) as int
}

/// The records that `b` holds, or `None` where `b` is not a sequence of
/// whole records.
pub open spec fn decode_records(b: Seq<u8>) -> Option<Seq<EntryView>>
    decreases b.len(),
{
    if b.len() == 0 {
        Some(Seq::empty())
    } else if b.len() < 4 {
        None
    } else {
        let kl = read_len(b, 0);
        if b.len() < 8 + kl {
            None
        } else {
            let vl = read_len(b, 4 + kl);
            if b.len() < 8 + kl + vl {
                None
            } else {
                match decode_records(b.subrange(8 + kl + vl, b.len() as int)) {
                    Some(rest) => Some(
                        seq![(b.subrange(4, 4 + kl), b.subrange(8 + kl, 8 + kl + vl))] + rest,
                    ),
                    None => None,
                }
            }
        }
    }
}

fn append_record(out: &mut Vec<u8>, key: &Vec<u8>, value: &Vec<u8>)
    requires
        key@.len() <= u32::MAX,
        value@.len() <= u32::MAX,
    ensures
        final(out)@ == old(out)@ + encode_record((key@, value@)),
{
    let ghost start = out@;
    let mut key_len = u32_to_le_bytes(key.len() as u32);
    out.append(&mut key_len);
    out.extend_from_slice(key.as_slice());
    assert(out@ =~= start + spec_u32_to_le_bytes(key@.len() as u32) + key@);
    let mut value_len = u32_to_le_bytes(value.len() as u32);
    out.append(&mut value_len);
    out.extend_from_slice(value.as_slice());
    assert(out@ =~= start + encode_record((key@, value@)));
}

/// Serializes `entries`, in order, into the bytes of one segment file.
///
/// Fails exactly when some key or value is too long for its length prefix.
pub fn encode_segment(entries: &Vec<LogEntry>) -> (r: Result<Vec<u8>, SegmentError>)
    ensures
        match r {
            Ok(bytes) => all_fit(entries_view(entries@)) && bytes@ == encode_records(
                entries_view(entries@),
            ),
            Err(e) => !all_fit(entries_view(entries@)) && e == SegmentError::RecordTooLong,
        },
{
    let ghost es = entries_view(entries@);
    let mut out: Vec<u8> = Vec::new();
    let mut i: usize = 0;
    while i < entries.len()
        invariant
            i <= entries@.len(),
            es == entries_view(entries@),
            all_fit(es.take(i as int)),
            out@ == encode_records(es.take(i as int)),
        decreases entries@.len() - i,
    {
        let entry = &entries[i];
        if entry.key.len() > 0xffff_ffffusize || entry.value.len() > 0xffff_ffffusize {
            assert(!fits_record(es[i as int]));
            return Err(SegmentError::RecordTooLong);
        }
        append_record(&mut out, &entry.key, &entry.value);
        assert(es.take(i + 1).drop_last() =~= es.take(i as int));
        assert(all_fit(es.take(i + 1)));
        i = i + 1;
    }
    assert(es.take(i as int) =~= es);
    Ok(out)
}

fn read_u32_at(bytes: &Vec<u8>, at: usize) -> (r: usize)
    requires
        at + 4 <= bytes.len(),
    ensures
        r == read_len(bytes@, at as int),
{
    let n = u32_from_le_bytes(slice_subrange(bytes.as_slice(), at, at + 4));
    n as usize
}

/// Parses the bytes of a segment file back into its entries.
///
/// Returns `None` exactly when `bytes` is not a sequence of whole records.
pub fn decode_segment(bytes: &Vec<u8>) -> (r: Option<Vec<LogEntry>>)
    ensures
        match r {
            Some(v) => decode_records(bytes@) == Some(entries_view(v@)),
            None => decode_records(bytes@) is None,
        },
{
    let ghost b = bytes@;
    let mut out: Vec<LogEntry> = Vec::new();
    let mut pos: usize = 0;
    assert(b.subrange(0, b.len() as int) =~= b);
    while pos < bytes.len()
        invariant
            pos <= b.len(),
            b == bytes@,
            decode_records(b) == match decode_records(b.subrange(pos as int, b.len() as int)) {
                Some(rest) => Some(entries_view(out@) + rest),
                None => None,
            },
        decreases b.len() - pos,
    {
        let ghost tail = b.subrange(pos as int, b.len() as int);
        let avail = bytes.len() - pos;
        if avail < 4 {
            return None;
        }
        let key_len = read_u32_at(bytes, pos);
        assert(tail.subrange(0, 4) =~= b.subrange(pos as int, pos + 4));
        if avail - 4 < key_len || avail - 4 - key_len < 4 {
            return None;
        }
        let value_at = pos + 4 + key_len;
        let value_len = read_u32_at(bytes, value_at);
        assert(tail.subrange(4 + key_len, 8 + key_len) =~= b.subrange(
            value_at as int,
            value_at + 4,
        ));
        if avail - 8 - key_len < value_len {
            return None;
        }
        let key = slice_to_vec(slice_subrange(bytes.as_slice(), pos + 4, value_at));
        let value = slice_to_vec(slice_subrange(bytes.as_slice(), value_at + 4, value_at + 4 + value_len));
        assert(key@ =~= tail.subrange(4, 4 + key_len));
        assert(value@ =~= tail.subrange(8 + key_len, 8 + key_len + value_len));
        let ghost before = entries_view(out@);
        out.push(LogEntry { key, value });
        assert(entries_view(out@) =~= before.push((key@, value@)));
        let next = value_at + 4 + value_len;
        assert(tail.subrange(8 + key_len + value_len, tail.len() as int) =~= b.subrange(
            next as int,
            b.len() as int,
        ));
        proof {
            match decode_records(b.subrange(next as int, b.len() as int)) {
                Some(rest) => {
                    assert(before.push((key@, value@)) + rest =~= before + (seq![(key@, value@)] + rest));
                },
                None => {},
            }
        }
        pos = next;
    }
    assert(entries_view(out@) + Seq::<EntryView>::empty() =~= entries_view(out@));
    Some(out)
}

proof fn lemma_encode_front(es: Seq<EntryView>)
    requires
        es.len() > 0,
    ensures
        encode_records(es) == encode_record(es[0]) + encode_records(es.drop_first()),
    decreases es.len(),
{
    if es.len() > 1 {
        lemma_encode_front(es.drop_last());
        assert(es.drop_last().drop_first() =~= es.drop_first().drop_last());
        assert(encode_records(es.drop_first()) == encode_records(es.drop_first().drop_last())
            + encode_record(es.drop_first().last()));
        assert(encode_records(es) =~= encode_record(es[0]) + encode_records(es.drop_first()));
    } else {
        assert(es.drop_last() =~= Seq::<EntryView>::empty());
        assert(es.drop_first() =~= Seq::<EntryView>::empty());
        assert(encode_records(es) =~= encode_record(es[0]) + encode_records(es.drop_first()));
    }
}

proof fn lemma_decode_record(e: EntryView, rest: Seq<u8>)
    requires
        fits_record(e),
    ensures
        decode_records(encode_record(e) + rest) == match decode_records(rest) {
            Some(tail) => Some(seq![e] + tail),
            None => None::<Seq<EntryView>>,
        },
{
    lemma_auto_spec_u32_to_from_le_bytes();
    let b = encode_record(e) + rest;
    let kl = e.0.len() as int;
    let vl = e.1.len() as int;
    let kb = spec_u32_to_le_bytes(e.0.len() as u32);
    let vb = spec_u32_to_le_bytes(e.1.len() as u32);
    assert(b.subrange(0, 4) =~= kb);
    assert(read_len(b, 0) == kl);
    assert(b.subrange(4 + kl, 8 + kl) =~= vb);
    assert(read_len(b, 4 + kl) == vl);
    assert(b.subrange(4, 4 + kl) =~= e.0);
    assert(b.subrange(8 + kl, 8 + kl + vl) =~= e.1);
    assert(b.subrange(8 + kl + vl, b.len() as int) =~= rest);
}

/// Decoding the bytes that `encode_records` gives for a sequence of entries
/// yields exactly that sequence, every key and value with its length.
pub proof fn lemma_segment_round_trip(es: Seq<EntryView>)
    requires
        all_fit(es),
    ensures
        decode_records(encode_records(es)) == Some(es),
    decreases es.len(),
{
    if es.len() == 0 {
        assert(encode_records(es) =~= Seq::<u8>::empty());
    } else {
        lemma_encode_front(es);
        assert(all_fit(es.drop_first()));
        lemma_segment_round_trip(es.drop_first());
        lemma_decode_record(es[0], encode_records(es.drop_first()));
        assert(seq![es[0]] + es.drop_first() =~= es);
    }
}

/// A byte string that decodes is exactly the encoding of what it decodes
/// to: no two segments decode to the same entries.
pub proof fn lemma_segment_decode_exact(b: Seq<u8>)
    requires
        decode_records(b) is Some,
    ensures
        all_fit(decode_records(b)->Some_0),
        encode_records(decode_records(b)->Some_0) == b,
    decreases b.len(),
{
    lemma_auto_spec_u32_to_from_le_bytes();
    let es = decode_records(b)->Some_0;
    if b.len() == 0 {
        assert(es =~= Seq::<EntryView>::empty());
        assert(encode_records(es) =~= b);
    } else {
        let kl = read_len(b, 0);
        let vl = read_len(b, 4 + kl);
        let rest = b.subrange(8 + kl + vl, b.len() as int);
        lemma_segment_decode_exact(rest);
        let e = (b.subrange(4, 4 + kl), b.subrange(8 + kl, 8 + kl + vl));
        let tail = decode_records(rest)->Some_0;
        assert(es == seq![e] + tail);
        assert(es[0] == e);
        assert(es.drop_first() =~= tail);
        assert(all_fit(es)) by {
            assert forall|i: int| 0 <= i < es.len() implies fits_record(#[trigger] es[i]) by {
                if i > 0 {
                    assert(es[i] == tail[i - 1]);
                }
            }
        }
        lemma_encode_front(es);
        assert(spec_u32_to_le_bytes(e.0.len() as u32) =~= b.subrange(0, 4));
        assert(spec_u32_to_le_bytes(e.1.len() as u32) =~= b.subrange(4 + kl, 8 + kl));
        assert(encode_record(e) + rest =~= b);
    }
}

/// Minimum number of digits in a segment file name.
pub const NAME_DIGITS: usize = 6;

pub open spec fn digit_char(d: nat) -> char {
    seq!['0', '1', '2', '3', '4', '5', '6', '7', '8', '9'][d as int]
}

/// Decimal digits of `n`, most significant first, without leading zeros.
pub open spec fn decimal(n: nat) -> Seq<char>
    decreases n,
{
    if n < 10 {
        seq![digit_char(n)]
    } else {
        decimal(n / 10).push(digit_char(n % 10))
    }
}

/// `s` preceded by as many `'0'` as make it `width` characters long.
pub open spec fn zero_padded(s: Seq<char>, width: nat) -> Seq<char> {
    if s.len() >= width {
        s
    } else {
        Seq::new((width - s.len()) as nat, |_i: int| '0') + s
    }
}

/// Name of the segment file with sequence number `n`: the number in decimal,
/// zero-padded to six digits, followed by `.sst`.
pub open spec fn segment_name(n: nat) -> Seq<char> {
    zero_padded(decimal(n), NAME_DIGITS as nat) + seq!['.', 's', 's', 't']
}

fn digit(d: usize) -> (c: char)
    requires
        d < 10,
    ensures
        c == digit_char(d as nat),
{
    let digits: [char; 10] = ['0', '1', '2', '3', '4', '5', '6', '7', '8', '9'];
    digits[d]
}

fn push_decimal(n: usize, out: &mut Vec<char>)
    ensures
        final(out)@ == old(out)@ + decimal(n as nat),
    decreases n,
{
    if n >= 10 {
        push_decimal(n / 10, out);
    }
    out.push(digit(n % 10));
    assert(out@ =~= old(out)@ + decimal(n as nat));
}

/// Relies on `String`'s `FromIterator<char>`: the string of exactly these
/// characters, in order.
#[verifier::external_body]
fn string_from_chars(chars: Vec<char>) -> (r: String)
    ensures
        r@ == chars@,
{
    String::from_iter(chars)
}

/// File name of the segment with sequence number `n`.
pub fn segment_file_name(n: usize) -> (r: String)
    ensures
        r@ == segment_name(n as nat),
{
    let mut digits: Vec<char> = Vec::new();
    push_decimal(n, &mut digits);
    assert(digits@ =~= decimal(n as nat));
    let mut name: Vec<char> = Vec::new();
    while name.len() + digits.len() < NAME_DIGITS
        invariant
            name@ =~= Seq::new(name@.len(), |_i: int| '0'),
            digits@ == decimal(n as nat),
            name@.len() + digits@.len() <= NAME_DIGITS || name@.len() == 0,
        decreases NAME_DIGITS - name@.len(),
    {
        name.push('0');
    }
    let mut digits = digits;
    name.append(&mut digits);
    name.push('.');
    name.push('s');
    name.push('s');
    name.push('t');
    assert(name@ =~= segment_name(n as nat));
    string_from_chars(name)
}

/// The number a decimal digit character stands for.
pub open spec fn digit_value(c: char) -> nat {
    if c == '1' {
        1
    } else if c == '2' {
        2
    } else if c == '3' {
        3
    } else if c == '4' {
        4
    } else if c == '5' {
        5
    } else if c == '6' {
        6
    } else if c == '7' {
        7
    } else if c == '8' {
        8
    } else if c == '9' {
        9
    } else {
        0
    }
}

/// The number that a string of decimal digits denotes.
pub open spec fn decimal_value(s: Seq<char>) -> nat
    decreases s.len(),
{
    if s.len() == 0 {
        0
    } else {
        decimal_value(s.drop_last()) * 10 + digit_value(s.last())
    }
}

proof fn lemma_decimal_value(n: nat)
    ensures
        decimal_value(decimal(n)) == n,
    decreases n,
{
    let d = n % 10;
    assert(digit_value(digit_char(d)) == d) by {
        assert(0 <= d < 10);
        if d == 0 {} else if d == 1 {} else if d == 2 {} else if d == 3 {} else if d == 4 {}
        else if d == 5 {} else if d == 6 {} else if d == 7 {} else if d == 8 {} else {}
    }
    if n >= 10 {
        lemma_decimal_value(n / 10);
        assert(decimal(n).drop_last() =~= decimal(n / 10));
        assert(decimal(n).last() == digit_char(d));
        assert(n == (n / 10) * 10 + d);
    } else {
        assert(decimal(n).drop_last() =~= Seq::<char>::empty());
        assert(decimal(n).last() == digit_char(d));
        assert(d == n);
    }
    assert(decimal(n).len() > 0);
    assert(decimal_value(decimal(n)) == decimal_value(decimal(n).drop_last()) * 10 + digit_value(
        decimal(n).last(),
    ));
}

proof fn lemma_leading_zeros(k: nat, s: Seq<char>)
    ensures
        decimal_value(Seq::new(k, |_i: int| '0') + s) == decimal_value(s),
    decreases s.len() + k,
{
    let zeros = Seq::new(k, |_i: int| '0');
    if s.len() > 0 {
        lemma_leading_zeros(k, s.drop_last());
        assert((zeros + s).drop_last() =~= zeros + s.drop_last());
    } else if k > 0 {
        let fewer = Seq::new((k - 1) as nat, |_i: int| '0');
        lemma_leading_zeros((k - 1) as nat, s);
        assert((zeros + s).drop_last() =~= fewer + s);
        assert(fewer + s =~= fewer);
    } else {
        assert(zeros + s =~= Seq::<char>::empty());
    }
}

/// Distinct sequence numbers name distinct segment files, so every frozen
/// buffer is persisted to a file of its own.
pub proof fn lemma_segment_names_distinct(a: nat, b: nat)
    requires
        a != b,
    ensures
        segment_name(a) != segment_name(b),
{
    assert forall|n: nat| decimal_value(#[trigger] segment_name(n).take(segment_name(n).len() - 4)) == n by {
        let d = decimal(n);
        lemma_decimal_value(n);
        let name = segment_name(n);
        assert(name.take(name.len() - 4) =~= zero_padded(d, NAME_DIGITS as nat));
        if d.len() < NAME_DIGITS {
            lemma_leading_zeros((NAME_DIGITS - d.len()) as nat, d);
        }
    }
    let na = segment_name(a);
    let nb = segment_name(b);
    assert(decimal_value(na.take(na.len() - 4)) == a);
    assert(decimal_value(nb.take(nb.len() - 4)) == b);
}

/// Hands out segment sequence numbers: strictly increasing, without gaps
/// or reuse, starting at zero.
pub struct SegmentCounter {
    next: usize,
}

impl SegmentCounter {
    /// The number the next allocation hands out.
    pub closed spec fn next_number(&self) -> nat {
        self.next as nat
    }

    pub fn new() -> (r: SegmentCounter)
        ensures
            r.next_number() == 0,
    {
        SegmentCounter { next: 0 }
    }

    /// Takes the next sequence number; `None` once every `usize` has been
    /// handed out, leaving the counter as it was.
    pub fn allocate(&mut self) -> (r: Option<usize>)
        ensures
            old(self).next_number() < usize::MAX ==> r == Some(old(self).next_number() as usize)
                && final(self).next_number() == old(self).next_number() + 1,
            old(self).next_number() >= usize::MAX ==> r is None && final(self).next_number()
                == old(self).next_number(),
    {
        if self.next == usize::MAX {
            None
        } else {
            let n = self.next;
            self.next = n + 1;
            Some(n)
        }
    }
}

} // verus!
