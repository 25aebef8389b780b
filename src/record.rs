use crate::bytes::{
    append_bytes, copy_range, from_le32, le32, lemma_le32_round_trip, push_le32, read_le32,
};
use crate::memtable::{entries_view, Entry, EntryView, SlotView};
use vstd::prelude::*;

verus! {

/// Length of the three 4-byte fields that start a record.
pub const HEADER_LEN: usize = 12;

/// The value-length field of a tombstone record, which carries no value bytes.
pub const TOMBSTONE_LEN: u32 = 0xffff_ffff;

/// The number of value bytes a stored value takes.
pub open spec fn payload_len(v: SlotView) -> int {
    match v {
        Some(b) => b.len() as int,
        None => 0,
    }
}

/// The value bytes a stored value takes.
pub open spec fn payload(v: SlotView) -> Seq<u8> {
    match v {
        Some(b) => b,
        None => Seq::empty(),
    }
}

/// An entry whose record length fits the 4-byte size field.
pub open spec fn fits(e: EntryView) -> bool {
    8 + e.0.len() + payload_len(e.1) <= 0xffff_ffff
}

/// The value-length field of a record.
pub open spec fn value_len_field(v: SlotView) -> u32 {
    match v {
        Some(b) => b.len() as u32,
        None => TOMBSTONE_LEN,
    }
}

/// One record: `[total_size:4][key_len:4][value_len:4][key][value][0x00]`, all
/// integers little-endian, `total_size` counting the two length fields and both
/// byte strings (not itself nor the trailing zero, so `total_size + 1` bytes
/// follow it); a tombstone has value length `TOMBSTONE_LEN` and no value bytes.
pub open spec fn record_bytes(e: EntryView) -> Seq<u8> {
    le32((8 + e.0.len() + payload_len(e.1)) as u32) + le32(e.0.len() as u32) + le32(
        value_len_field(e.1),
    ) + e.0 + payload(e.1) + seq![0u8]
}

/// The records of a sequence of entries, one after another.
pub open spec fn records_bytes(s: Seq<EntryView>) -> Seq<u8>
    decreases s.len(),
{
    if s.len() == 0 {
        Seq::empty()
    } else {
        records_bytes(s.drop_last()) + record_bytes(s.last())
    }
}

/// The record that starts at `at` in `d`, with the position after it; `None`
/// where the bytes there are not a complete, consistent record.
pub open spec fn parse_one(d: Seq<u8>, at: int) -> Option<(EntryView, int)> {
    if at < 0 || at + 12 > d.len() {
        None
    } else {
        let size = from_le32(d.subrange(at, at + 4)) as int;
        let klen = from_le32(d.subrange(at + 4, at + 8)) as int;
        let vfield = from_le32(d.subrange(at + 8, at + 12));
        let vlen = if vfield == TOMBSTONE_LEN {
            0
        } else {
            vfield as int
        };
        let end = at + 12 + klen + vlen;
        if size != 8 + klen + vlen || end >= d.len() || d[end] != 0 {
            None
        } else {
            let key = d.subrange(at + 12, at + 12 + klen);
            let value = if vfield == TOMBSTONE_LEN {
                None
            } else {
                Some(d.subrange(at + 12 + klen, end))
            };
            Some(((key, value), end + 1))
        }
    }
}

/// The records from `at` to the end of `d`; `None` where any of them is corrupt.
pub open spec fn parse_from(d: Seq<u8>, at: int) -> Option<Seq<EntryView>>
    decreases d.len() - at,
{
    if at < 0 || at >= d.len() {
        Some(Seq::empty())
    } else {
        match parse_one(d, at) {
            None => None,
            Some((e, next)) => if next <= at || next > d.len() {
                None
            } else {
                match parse_from(d, next) {
                    None => None,
                    Some(rest) => Some(seq![e] + rest),
                }
            },
        }
    }
}

/// The records of a whole data file or log.
pub open spec fn parse_records(d: Seq<u8>) -> Option<Seq<EntryView>> {
    parse_from(d, 0)
}

/// Every parsed record fits the size field.
pub proof fn lemma_parsed_fit(d: Seq<u8>, at: int)
    requires
        parse_from(d, at) is Some,
    ensures
        forall|i: int|
            0 <= i < parse_from(d, at)->0.len() ==> fits(#[trigger] parse_from(d, at)->0[i]),
    decreases d.len() - at,
{
    if at >= 0 && at < d.len() {
        let (e, next) = parse_one(d, at)->0;
        lemma_parsed_fit(d, next);
        let rest = parse_from(d, next)->0;
        assert forall|i: int|
            0 <= i < parse_from(d, at)->0.len() implies fits(#[trigger] parse_from(d, at)->0[i]) by {
            if i > 0 {
                assert(parse_from(d, at)->0[i] == rest[i - 1]);
            }
        }
    }
}

/// The records of a nonempty sequence are its first record and then the rest.
pub proof fn lemma_records_front(s: Seq<EntryView>)
    requires
        s.len() > 0,
    ensures
        records_bytes(s) == record_bytes(s[0]) + records_bytes(s.drop_first()),
    decreases s.len(),
{
    if s.len() == 1 {
        assert(s.drop_last() =~= Seq::<EntryView>::empty());
        assert(s.drop_first() =~= Seq::<EntryView>::empty());
        assert(records_bytes(s) =~= record_bytes(s[0]) + records_bytes(s.drop_first()));
    } else {
        let d = s.drop_last();
        lemma_records_front(d);
        assert(d.drop_first() =~= s.drop_first().drop_last());
        assert(s.drop_first().last() == s.last());
        assert(d[0] == s[0]);
        assert(records_bytes(s) =~= record_bytes(s[0]) + records_bytes(s.drop_first()));
    }
}

/// A record written after `p` reads back as its entry.
pub proof fn lemma_parse_one_record(p: Seq<u8>, e: EntryView, rest: Seq<u8>)
    requires
        fits(e),
    ensures
        parse_one(p + record_bytes(e) + rest, p.len() as int) == Some(
            (e, (p.len() + record_bytes(e).len()) as int),
        ),
        record_bytes(e).len() == 13 + e.0.len() + payload_len(e.1),
{
    let r = record_bytes(e);
    let d = p + r + rest;
    let at = p.len() as int;
    let klen = e.0.len();
    let vlen = payload_len(e.1);
    let size = (8 + klen + vlen) as u32;
    assert(r =~= le32(size) + le32(klen as u32) + le32(value_len_field(e.1)) + e.0 + payload(e.1)
        + seq![0u8]);
    assert(d.subrange(at, at + 4) =~= le32(size));
    assert(d.subrange(at + 4, at + 8) =~= le32(klen as u32));
    assert(d.subrange(at + 8, at + 12) =~= le32(value_len_field(e.1)));
    lemma_le32_round_trip(size);
    lemma_le32_round_trip(klen as u32);
    lemma_le32_round_trip(value_len_field(e.1));
    assert(d.subrange(at + 12, at + 12 + klen) =~= e.0);
    assert(d.subrange(at + 12 + klen, at + 12 + klen + vlen) =~= payload(e.1));
    assert(d[at + 12 + klen + vlen] == 0);
    match e.1 {
        Some(b) => {
            assert(value_len_field(e.1) != TOMBSTONE_LEN);
        },
        None => {},
    }
}

/// Parsing records written after `p` gives the entries back.
#[verifier::rlimit(40)]
proof fn lemma_parse_records_from(p: Seq<u8>, s: Seq<EntryView>)
    requires
        forall|i: int| 0 <= i < s.len() ==> fits(#[trigger] s[i]),
    ensures
        parse_from(p + records_bytes(s), p.len() as int) == Some(s),
    decreases s.len(),
{
    let d = p + records_bytes(s);
    let at = p.len() as int;
    if s.len() == 0 {
        assert(d =~= p);
        assert(s =~= Seq::<EntryView>::empty());
    } else {
        lemma_records_front(s);
        let rest = s.drop_first();
        let rb = records_bytes(rest);
        let r0 = record_bytes(s[0]);
        let q = p + r0;
        assert(fits(s[0]));
        assert(d =~= p + r0 + rb);
        assert(d =~= q + rb);
        lemma_parse_one_record(p, s[0], rb);
        let next = (p.len() + r0.len()) as int;
        assert(parse_one(d, at) == Some((s[0], next)));
        assert(next == q.len());
        assert(next <= d.len());
        assert(next > at);
        assert forall|i: int| 0 <= i < rest.len() implies fits(#[trigger] rest[i]) by {
            assert(rest[i] == s[i + 1]);
        }
        lemma_parse_records_from(q, rest);
        assert(parse_from(d, next) == Some(rest));
        assert(seq![s[0]] + rest =~= s);
        assert(at < d.len());
        assert(parse_from(d, at) == Some(seq![s[0]] + rest));
    }
}

/// Bytes after a record do not change how it reads.
proof fn lemma_parse_one_prefix(d: Seq<u8>, r: Seq<u8>, at: int)
    requires
        parse_one(d, at) is Some,
    ensures
        parse_one(d + r, at) == parse_one(d, at),
{
    let d2 = d + r;
    assert(d2.subrange(at, at + 4) =~= d.subrange(at, at + 4));
    assert(d2.subrange(at + 4, at + 8) =~= d.subrange(at + 4, at + 8));
    assert(d2.subrange(at + 8, at + 12) =~= d.subrange(at + 8, at + 12));
    let klen = from_le32(d.subrange(at + 4, at + 8)) as int;
    let vfield = from_le32(d.subrange(at + 8, at + 12));
    let vlen = if vfield == TOMBSTONE_LEN {
        0
    } else {
        vfield as int
    };
    let end = at + 12 + klen + vlen;
    assert(d2[end] == d[end]);
    assert(d2.subrange(at + 12, at + 12 + klen) =~= d.subrange(at + 12, at + 12 + klen));
    assert(d2.subrange(at + 12 + klen, end) =~= d.subrange(at + 12 + klen, end));
}

/// Appending a record to well-formed records appends its entry.
pub proof fn lemma_parse_append(d: Seq<u8>, at: int, e: EntryView)
    requires
        fits(e),
        0 <= at <= d.len(),
        parse_from(d, at) is Some,
    ensures
        parse_from(d + record_bytes(e), at) == Some(parse_from(d, at)->0.push(e)),
    decreases d.len() - at,
{
    let d2 = d + record_bytes(e);
    if at == d.len() {
        lemma_parse_one_record(d, e, Seq::empty());
        assert(d + record_bytes(e) + Seq::<u8>::empty() =~= d2);
        let end = (d.len() + record_bytes(e).len()) as int;
        assert(parse_one(d2, at) == Some((e, end)));
        assert(parse_from(d2, end) == Some(Seq::<EntryView>::empty()));
        assert(seq![e] + Seq::<EntryView>::empty() =~= Seq::<EntryView>::empty().push(e));
    } else {
        let (e0, next) = parse_one(d, at)->0;
        lemma_parse_one_prefix(d, record_bytes(e), at);
        lemma_parse_append(d, next, e);
        let rest = parse_from(d, next)->0;
        assert(seq![e0] + rest.push(e) =~= (seq![e0] + rest).push(e));
    }
}

/// Reading back the records of entries that fit gives the entries.
pub proof fn lemma_records_round_trip(s: Seq<EntryView>)
    requires
        forall|i: int| 0 <= i < s.len() ==> fits(#[trigger] s[i]),
    ensures
        parse_records(records_bytes(s)) == Some(s),
{
    lemma_parse_records_from(Seq::empty(), s);
    assert(Seq::<u8>::empty() + records_bytes(s) =~= records_bytes(s));
}

/// Appends the record of `e` to `out`.
pub fn encode_record(out: &mut Vec<u8>, e: &Entry)
    requires
        fits(e@),
    ensures
        final(out)@ == old(out)@ + record_bytes(e@),
{
    let klen = e.key.len() as u32;
    let (vlen, vfield): (u32, u32) = match &e.value {
        Some(v) => (v.len() as u32, v.len() as u32),
        None => (0, TOMBSTONE_LEN),
    };
    push_le32(out, 8 + klen + vlen);
    push_le32(out, klen);
    push_le32(out, vfield);
    append_bytes(out, e.key.as_slice());
    match &e.value {
        Some(v) => append_bytes(out, v.as_slice()),
        None => {},
    }
    out.push(0u8);
    proof {
        assert(payload(e@.1) =~= match e.value {
            Some(v) => v@,
            None => Seq::<u8>::empty(),
        });
        assert(final(out)@ =~= old(out)@ + record_bytes(e@));
    }
}

/// Where the record of entry `i` starts in the records of `s`.
pub open spec fn offset_of(s: Seq<EntryView>, i: int) -> int {
    records_bytes(s.take(i)).len() as int
}

/// A generation's data file: its bytes and where each entry's record starts.
pub struct DataFile {
    pub data: Vec<u8>,
    pub offsets: Vec<u64>,
}

/// Whether `offsets` gives the start of each entry's record in the records of `s`.
pub open spec fn offsets_of(s: Seq<EntryView>, offsets: Seq<u64>) -> bool {
    &&& offsets.len() == s.len()
    &&& forall|i: int| 0 <= i < s.len() ==> #[trigger] offsets[i] == offset_of(s, i)
}

/// The records of `entries`, one after another, with the byte offset at which
/// each key's record starts.
pub fn encode_entries(entries: &Vec<Entry>) -> (r: DataFile)
    requires
        forall|i: int| 0 <= i < entries@.len() ==> fits(#[trigger] entries@[i]@),
    ensures
        r.data@ == records_bytes(entries_view(entries@)),
        offsets_of(entries_view(entries@), r.offsets@),
{
    let ghost s = entries_view(entries@);
    let mut out: Vec<u8> = Vec::new();
    let mut offsets: Vec<u64> = Vec::new();
    let mut i: usize = 0;
    while i < entries.len()
        invariant
            s == entries_view(entries@),
            i <= entries@.len(),
            forall|j: int| 0 <= j < entries@.len() ==> fits(#[trigger] entries@[j]@),
            out@ == records_bytes(s.take(i as int)),
            offsets@.len() == i,
            forall|j: int| 0 <= j < i ==> #[trigger] offsets@[j] == offset_of(s, j),
        decreases entries@.len() - i,
    {
        offsets.push(out.len() as u64);
        encode_record(&mut out, &entries[i]);
        proof {
            assert(s.take(i + 1).drop_last() =~= s.take(i as int));
        }
        i = i + 1;
    }
    proof {
        assert(s.take(i as int) =~= s);
    }
    DataFile { data: out, offsets }
}

/// Reads the record that starts at `at`.
pub fn decode_record(d: &[u8], at: usize) -> (r: Option<(Entry, usize)>)
    ensures
        match parse_one(d@, at as int) {
            None => r is None,
            Some((e, next)) => r matches Some((x, n)) && x@ == e && n == next,
        },
{
    if d.len() < HEADER_LEN || at > d.len() - HEADER_LEN {
        return None;
    }
    let size = read_le32(d, at);
    let klen = read_le32(d, at + 4);
    let vfield = read_le32(d, at + 8);
    let vlen: u32 = if vfield == TOMBSTONE_LEN {
        0
    } else {
        vfield
    };
    let rest = d.len() - at - HEADER_LEN;
    if (klen as u64) + (vlen as u64) >= rest as u64 {
        return None;
    }
    if (size as u64) != 8 + (klen as u64) + (vlen as u64) {
        return None;
    }
    let kstart = at + HEADER_LEN;
    let vstart = kstart + klen as usize;
    let end = vstart + vlen as usize;
    if d[end] != 0 {
        return None;
    }
    let key = copy_range(d, kstart, vstart);
    let value = if vfield == TOMBSTONE_LEN {
        None
    } else {
        Some(copy_range(d, vstart, end))
    };
    Some((Entry { key, value }, end + 1))
}

/// Prepends `p` to a parse result.
pub open spec fn prepend(p: Seq<EntryView>, o: Option<Seq<EntryView>>) -> Option<Seq<EntryView>> {
    match o {
        Some(rest) => Some(p + rest),
        None => None,
    }
}

/// All records of a data file or log, with where each starts, or `None`
/// where one is corrupt.
pub fn decode_records(d: &[u8]) -> (r: Option<(Vec<Entry>, Vec<u64>)>)
    ensures
        r is Some <==> parse_records(d@) is Some,
        r matches Some((v, offs)) ==> entries_view(v@) == parse_records(d@)->0 && offsets_of(
            entries_view(v@),
            offs@,
        ),
{
    let mut out: Vec<Entry> = Vec::new();
    let mut offsets: Vec<u64> = Vec::new();
    let mut at: usize = 0;
    proof {
        assert(entries_view(out@) + parse_from(d@, 0)->0 =~= parse_from(d@, 0)->0);
        assert(entries_view(out@) =~= Seq::<EntryView>::empty());
    }
    while at < d.len()
        invariant
            at <= d@.len(),
            parse_records(d@) == prepend(entries_view(out@), parse_from(d@, at as int)),
            at == records_bytes(entries_view(out@)).len(),
            offsets@.len() == out@.len(),
            forall|j: int| 0 <= j < out@.len() ==> #[trigger] offsets@[j] == offset_of(entries_view(out@), j),
        decreases d@.len() - at,
    {
        match decode_record(d, at) {
            None => {
                return None;
            },
            Some((e, next)) => {
                if next <= at || next > d.len() {
                    return None;
                }
                let ghost before = entries_view(out@);
                proof {
                    let rest = parse_from(d@, next as int);
                    assert(entries_view(out@.push(e)) =~= entries_view(out@).push(e@));
                    if rest is Some {
                        assert(entries_view(out@) + (seq![e@] + rest->0) =~= entries_view(
                            out@,
                        ).push(e@) + rest->0);
                    }
                    assert(before.push(e@).drop_last() =~= before);
                    assert(before =~= before.take(before.len() as int));
                }
                offsets.push(at as u64);
                out.push(e);
                proof {
                    let now = entries_view(out@);
                    assert(now =~= before.push(e@));
                    assert forall|j: int| 0 <= j < out@.len() implies #[trigger] offsets@[j] == offset_of(now, j) by {
                        assert(now.take(j) =~= before.take(j));
                    }
                }
                at = next;
            },
        }
    }
    proof {
        assert(entries_view(out@) + Seq::<EntryView>::empty() =~= entries_view(out@));
    }
    Some((out, offsets))
}

} // verus!
