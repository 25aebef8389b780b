use vstd::prelude::*;

verus! {

/// A stored value: `Some(bytes)`, or `None` for a tombstone that marks the key deleted.
pub type SlotView = Option<Seq<u8>>;

/// A key with its stored value.
pub type EntryView = (Seq<u8>, SlotView);

/// Byte-wise lexicographic order on keys, comparing from position `i` on.
pub open spec fn lt_from(a: Seq<u8>, b: Seq<u8>, i: int) -> bool
    decreases a.len() - i,
{
    if i < 0 || i >= a.len() {
        0 <= i < b.len()
    } else if i >= b.len() {
        false
    } else if a[i] != b[i] {
        a[i] < b[i]
    } else {
        lt_from(a, b, i + 1)
    }
}

/// Byte-wise lexicographic order on keys (the order of their UTF-8 text).
pub open spec fn key_lt(a: Seq<u8>, b: Seq<u8>) -> bool {
    lt_from(a, b, 0)
}

proof fn lemma_lt_from_irreflexive(a: Seq<u8>, i: int)
    requires
        0 <= i,
    ensures
        !lt_from(a, a, i),
    decreases a.len() - i,
{
    if i < a.len() {
        lemma_lt_from_irreflexive(a, i + 1);
    }
}

proof fn lemma_lt_from_transitive(a: Seq<u8>, b: Seq<u8>, c: Seq<u8>, i: int)
    requires
        0 <= i,
        lt_from(a, b, i),
        lt_from(b, c, i),
    ensures
        lt_from(a, c, i),
    decreases a.len() - i,
{
    if i < a.len() && i < b.len() && i < c.len() && a[i] == b[i] && b[i] == c[i] {
        lemma_lt_from_transitive(a, b, c, i + 1);
    }
}

proof fn lemma_lt_from_total(a: Seq<u8>, b: Seq<u8>, i: int)
    requires
        0 <= i <= a.len(),
        i <= b.len(),
        a.take(i) == b.take(i),
        !lt_from(a, b, i),
        !lt_from(b, a, i),
    ensures
        a == b,
    decreases a.len() - i,
{
    if i == a.len() {
        assert(a =~= a.take(i));
        assert(b =~= b.take(i));
    } else {
        assert(a.take(i + 1) =~= a.take(i).push(a[i]));
        assert(b.take(i + 1) =~= b.take(i).push(b[i]));
        lemma_lt_from_total(a, b, i + 1);
    }
}

/// `key_lt` is a strict total order.
pub proof fn lemma_key_order(a: Seq<u8>, b: Seq<u8>, c: Seq<u8>)
    ensures
        !key_lt(a, a),
        key_lt(a, b) && key_lt(b, c) ==> key_lt(a, c),
        a != b ==> key_lt(a, b) || key_lt(b, a),
{
    lemma_lt_from_irreflexive(a, 0);
    if key_lt(a, b) && key_lt(b, c) {
        lemma_lt_from_transitive(a, b, c, 0);
    }
    if !key_lt(a, b) && !key_lt(b, a) {
        assert(a.take(0) =~= b.take(0));
        lemma_lt_from_total(a, b, 0);
    }
}

/// Keys strictly increasing along the sequence.
pub open spec fn sorted(s: Seq<EntryView>) -> bool {
    forall|i: int, j: int| 0 <= i < j < s.len() ==> key_lt(#[trigger] s[i].0, #[trigger] s[j].0)
}

/// A position of `k` in `s`, where it stands.
pub open spec fn index_of(s: Seq<EntryView>, k: Seq<u8>) -> int {
    choose|i: int| 0 <= i < s.len() && s[i].0 == k
}

/// The key/value map that a sorted sequence of entries holds.
pub open spec fn as_map(s: Seq<EntryView>) -> Map<Seq<u8>, SlotView> {
    Map::new(
        |k: Seq<u8>| exists|i: int| 0 <= i < s.len() && s[i].0 == k,
        |k: Seq<u8>| s[index_of(s, k)].1,
    )
}

/// In a sorted sequence each key stands once, so the map gives each entry's value.
pub proof fn lemma_as_map_index(s: Seq<EntryView>, i: int)
    requires
        sorted(s),
        0 <= i < s.len(),
    ensures
        as_map(s).contains_key(s[i].0),
        as_map(s)[s[i].0] == s[i].1,
{
    let k = s[i].0;
    assert(as_map(s).contains_key(k));
    let j = index_of(s, k);
    assert(as_map(s)[k] == s[j].1);
    lemma_key_order(k, k, k);
    if j < i {
        assert(key_lt(s[j].0, s[i].0));
    } else if j > i {
        assert(key_lt(s[i].0, s[j].0));
    }
    assert(j == i);
}

/// Inserting an entry at its place in a sorted sequence inserts it in the map.
pub proof fn lemma_as_map_insert(s: Seq<EntryView>, pos: int, e: EntryView)
    requires
        sorted(s),
        0 <= pos <= s.len(),
        forall|j: int| 0 <= j < pos ==> key_lt(#[trigger] s[j].0, e.0),
        forall|j: int| pos <= j < s.len() ==> key_lt(e.0, #[trigger] s[j].0),
    ensures
        sorted(s.insert(pos, e)),
        as_map(s.insert(pos, e)) == as_map(s).insert(e.0, e.1),
{
    let t = s.insert(pos, e);
    assert forall|i: int, j: int| 0 <= i < j < t.len() implies key_lt(
        #[trigger] t[i].0,
        #[trigger] t[j].0,
    ) by {
        if i < pos && j > pos {
            lemma_key_order(s[i].0, e.0, s[j - 1].0);
        }
    }
    assert forall|k: Seq<u8>| #[trigger]
        as_map(t).contains_key(k) == as_map(s).insert(e.0, e.1).contains_key(k) by {
        if as_map(t).contains_key(k) {
            let i = choose|i: int| 0 <= i < t.len() && t[i].0 == k;
            if i < pos {
                assert(s[i].0 == k);
            } else if i > pos {
                assert(s[i - 1].0 == k);
            }
        }
        if as_map(s).contains_key(k) {
            let i = choose|i: int| 0 <= i < s.len() && s[i].0 == k;
            if i < pos {
                assert(t[i].0 == k);
            } else {
                assert(t[i + 1].0 == k);
            }
        }
        if k == e.0 {
            assert(t[pos].0 == k);
        }
    }
    assert forall|k: Seq<u8>| #[trigger] as_map(t).contains_key(k) implies as_map(t)[k] == as_map(
        s,
    ).insert(e.0, e.1)[k] by {
        let i = choose|i: int| 0 <= i < t.len() && t[i].0 == k;
        lemma_as_map_index(t, i);
        if i < pos {
            lemma_as_map_index(s, i);
            lemma_key_order(k, e.0, k);
        } else if i > pos {
            lemma_as_map_index(s, i - 1);
            lemma_key_order(k, e.0, k);
        }
    }
    assert(as_map(t) =~= as_map(s).insert(e.0, e.1));
}

/// Replacing the value of an entry replaces it in the map.
pub proof fn lemma_as_map_update(s: Seq<EntryView>, pos: int, v: SlotView)
    requires
        sorted(s),
        0 <= pos < s.len(),
    ensures
        sorted(s.update(pos, (s[pos].0, v))),
        as_map(s.update(pos, (s[pos].0, v))) == as_map(s).insert(s[pos].0, v),
{
    let k0 = s[pos].0;
    let t = s.update(pos, (k0, v));
    assert forall|i: int, j: int| 0 <= i < j < t.len() implies key_lt(
        #[trigger] t[i].0,
        #[trigger] t[j].0,
    ) by {
        assert(t[i].0 == s[i].0 && t[j].0 == s[j].0);
    }
    assert forall|k: Seq<u8>| #[trigger]
        as_map(t).contains_key(k) == as_map(s).insert(k0, v).contains_key(k) by {
        if as_map(t).contains_key(k) {
            let i = choose|i: int| 0 <= i < t.len() && t[i].0 == k;
            assert(s[i].0 == k);
        }
        if as_map(s).contains_key(k) {
            let i = choose|i: int| 0 <= i < s.len() && s[i].0 == k;
            assert(t[i].0 == k);
        }
        if k == k0 {
            assert(t[pos].0 == k);
        }
    }
    assert forall|k: Seq<u8>| #[trigger] as_map(t).contains_key(k) implies as_map(t)[k] == as_map(
        s,
    ).insert(k0, v)[k] by {
        let i = choose|i: int| 0 <= i < t.len() && t[i].0 == k;
        lemma_as_map_index(t, i);
        if i != pos {
            lemma_as_map_index(s, i);
            lemma_as_map_index(s, pos);
            lemma_key_order(k, k0, k);
            if i < pos {
                assert(key_lt(s[i].0, s[pos].0));
            } else {
                assert(key_lt(s[pos].0, s[i].0));
            }
        }
    }
    assert(as_map(t) =~= as_map(s).insert(k0, v));
}

/// A stored key with its value; `value` is `None` for a tombstone.
#[derive(Debug)]
pub struct Entry {
    pub key: Vec<u8>,
    pub value: Option<Vec<u8>>,
}

/// The view of a stored value.
pub open spec fn slot_view(v: Option<Vec<u8>>) -> SlotView {
    match v {
        Some(b) => Some(b@),
        None => None,
    }
}

impl View for Entry {
    type V = EntryView;

    open spec fn view(&self) -> EntryView {
        (self.key@, slot_view(self.value))
    }
}

/// The views of a sequence of entries.
pub open spec fn entries_view(s: Seq<Entry>) -> Seq<EntryView> {
    s.map_values(|e: Entry| e@)
}

/// Compares two keys: negative, zero or positive as `a` sorts before, equal to, or after `b`.
pub fn compare_keys(a: &[u8], b: &[u8]) -> (r: i8)
    ensures
        r < 0 <==> key_lt(a@, b@),
        r == 0 <==> a@ == b@,
        r > 0 <==> key_lt(b@, a@),
{
    proof {
        lemma_key_order(a@, b@, a@);
    }
    let mut i: usize = 0;
    while i < a.len() && i < b.len()
        invariant
            i <= a@.len(),
            i <= b@.len(),
            a@.take(i as int) == b@.take(i as int),
            key_lt(a@, b@) == lt_from(a@, b@, i as int),
            key_lt(b@, a@) == lt_from(b@, a@, i as int),
        decreases a@.len() - i,
    {
        if a[i] != b[i] {
            if a[i] < b[i] {
                return -1;
            } else {
                return 1;
            }
        }
        proof {
            assert(a@.take(i + 1) =~= a@.take(i as int).push(a@[i as int]));
            assert(b@.take(i + 1) =~= b@.take(i as int).push(b@[i as int]));
        }
        i = i + 1;
    }
    if a.len() < b.len() {
        -1
    } else if a.len() > b.len() {
        1
    } else {
        proof {
            assert(a@ =~= a@.take(i as int));
            assert(b@ =~= b@.take(i as int));
        }
        0
    }
}

/// Binary search for `key` in sorted entries: whether it is there, and where it
/// is or would be inserted.
pub fn find(entries: &Vec<Entry>, key: &[u8]) -> (r: (bool, usize))
    requires
        sorted(entries_view(entries@)),
    ensures
        r.1 <= entries@.len(),
        r.0 ==> r.1 < entries@.len() && entries@[r.1 as int].key@ == key@,
        !r.0 ==> forall|j: int| 0 <= j < r.1 ==> key_lt(#[trigger] entries@[j].key@, key@),
        !r.0 ==> forall|j: int|
            r.1 <= j < entries@.len() ==> key_lt(key@, #[trigger] entries@[j].key@),
{
    let ghost s = entries_view(entries@);
    let mut lo: usize = 0;
    let mut hi: usize = entries.len();
    while lo < hi
        invariant
            s == entries_view(entries@),
            sorted(s),
            lo <= hi <= entries@.len(),
            forall|j: int| 0 <= j < lo ==> key_lt(#[trigger] entries@[j].key@, key@),
            forall|j: int| hi <= j < entries@.len() ==> key_lt(key@, #[trigger] entries@[j].key@),
        decreases hi - lo,
    {
        let mid = lo + (hi - lo) / 2;
        let c = compare_keys(entries[mid].key.as_slice(), key);
        if c == 0 {
            return (true, mid);
        } else if c < 0 {
            proof {
                assert forall|j: int| 0 <= j <= mid implies key_lt(
                    #[trigger] entries@[j].key@,
                    key@,
                ) by {
                    if j < mid {
                        assert(s[j].0 == entries@[j].key@ && s[mid as int].0
                            == entries@[mid as int].key@);
                        lemma_key_order(entries@[j].key@, entries@[mid as int].key@, key@);
                    }
                }
            }
            lo = mid + 1;
        } else {
            proof {
                assert forall|j: int| mid <= j < entries@.len() implies key_lt(
                    key@,
                    #[trigger] entries@[j].key@,
                ) by {
                    if j > mid {
                        assert(s[j].0 == entries@[j].key@ && s[mid as int].0
                            == entries@[mid as int].key@);
                        lemma_key_order(key@, entries@[mid as int].key@, entries@[j].key@);
                    }
                }
            }
            hi = mid;
        }
    }
    (false, lo)
}

/// Looking a key up in sorted entries.
pub fn lookup_entries<'a>(entries: &'a Vec<Entry>, key: &[u8]) -> (r: Option<&'a Option<Vec<u8>>>)
    requires
        sorted(entries_view(entries@)),
    ensures
        r is Some <==> as_map(entries_view(entries@)).contains_key(key@),
        r matches Some(v) ==> slot_view(*v) == as_map(entries_view(entries@))[key@],
{
    let ghost s = entries_view(entries@);
    let (found, pos) = find(entries, key);
    if found {
        proof {
            lemma_as_map_index(s, pos as int);
        }
        Some(&entries[pos].value)
    } else {
        proof {
            if as_map(s).contains_key(key@) {
                let i = choose|i: int| 0 <= i < s.len() && s[i].0 == key@;
                lemma_key_order(key@, key@, key@);
                if i < pos {
                    assert(key_lt(entries@[i].key@, key@));
                } else {
                    assert(key_lt(key@, entries@[i].key@));
                }
            }
        }
        None
    }
}

/// The entries that one hand-off takes out of a memtable, in key order.
pub struct MemtableEntries {
    pub entries: Vec<Entry>,
}

impl MemtableEntries {
    /// The handed-off value stored under `key`.
    pub fn get(&self, key: &[u8]) -> (r: Option<&Option<Vec<u8>>>)
        requires
            sorted(entries_view(self.entries@)),
        ensures
            r is Some <==> as_map(entries_view(self.entries@)).contains_key(key@),
            r matches Some(v) ==> slot_view(*v) == as_map(entries_view(self.entries@))[key@],
    {
        lookup_entries(&self.entries, key)
    }
}

/// What a write to a memtable hands off: the whole buffer when the write made it
/// exceed its capacity, else nothing.
pub struct MemtableOnFlush {
    pub flushed: Option<MemtableEntries>,
}

impl MemtableOnFlush {
    /// The entries handed off, if the write overflowed the memtable.
    pub fn on_flush(self) -> (r: Option<MemtableEntries>)
        ensures
            r == self.flushed,
    {
        self.flushed
    }
}

/// A bounded in-memory buffer of entries, sorted by key.
pub struct Memtable {
    pub max_entry: usize,
    pub underlying: Vec<Entry>,
}

impl Memtable {
    /// The buffered entries.
    pub open spec fn entries(&self) -> Seq<EntryView> {
        entries_view(self.underlying@)
    }

    /// The buffered map.
    pub open spec fn view_map(&self) -> Map<Seq<u8>, SlotView> {
        as_map(self.entries())
    }

    /// The entries are sorted by key.
    pub open spec fn wf(&self) -> bool {
        sorted(self.entries())
    }

    /// An empty memtable that hands off its contents once it holds more than `max_entry` keys.
    pub fn new(max_entry: usize) -> (r: Memtable)
        ensures
            r.wf(),
            r.max_entry == max_entry,
            r.entries() == Seq::<EntryView>::empty(),
            r.view_map() == Map::<Seq<u8>, SlotView>::empty(),
    {
        let r = Memtable { max_entry, underlying: Vec::new() };
        proof {
            assert(r.entries() =~= Seq::<EntryView>::empty());
            assert(r.view_map() =~= Map::<Seq<u8>, SlotView>::empty());
        }
        r
    }

    /// The number of buffered keys.
    pub fn len(&self) -> (r: usize)
        ensures
            r == self.entries().len(),
    {
        self.underlying.len()
    }

    /// The buffered value of `key`.
    pub fn get(&self, key: &[u8]) -> (r: Option<&Option<Vec<u8>>>)
        requires
            self.wf(),
        ensures
            r is Some <==> self.view_map().contains_key(key@),
            r matches Some(v) ==> slot_view(*v) == self.view_map()[key@],
    {
        lookup_entries(&self.underlying, key)
    }

    /// Stores `value` under `key` without any hand-off.
    pub fn put(&mut self, key: &[u8], value: Option<Vec<u8>>)
        requires
            old(self).wf(),
        ensures
            final(self).wf(),
            final(self).max_entry == old(self).max_entry,
            final(self).view_map() == old(self).view_map().insert(key@, slot_view(value)),
            final(self).entries().len() == old(self).entries().len() + if old(
                self,
            ).view_map().contains_key(key@) {
                0int
            } else {
                1int
            },
    {
        let ghost s = self.entries();
        let (found, pos) = find(&self.underlying, key);
        let e = Entry { key: crate::bytes::copy_bytes(key), value };
        proof {
            assert(e@ == (key@, slot_view(value)));
        }
        if found {
            proof {
                lemma_as_map_update(s, pos as int, slot_view(value));
            }
            self.underlying.set(pos, e);
            proof {
                assert(self.entries() =~= s.update(pos as int, (s[pos as int].0, slot_view(value))));
            }
        } else {
            proof {
                lemma_as_map_insert(s, pos as int, e@);
                if as_map(s).contains_key(key@) {
                    let i = choose|i: int| 0 <= i < s.len() && s[i].0 == key@;
                    lemma_key_order(key@, key@, key@);
                    if i < pos {
                        assert(key_lt(self.underlying@[i].key@, key@));
                    } else {
                        assert(key_lt(key@, self.underlying@[i].key@));
                    }
                }
            }
            self.underlying.insert(pos, e);
            proof {
                assert(self.entries() =~= s.insert(pos as int, e@));
            }
        }
    }

    /// Stores `value` under `key`; when that makes the memtable hold more than
    /// `max_entry` keys, the whole buffer is handed off and the memtable is empty.
    pub fn set(&mut self, key: &[u8], value: Option<Vec<u8>>) -> (r: MemtableOnFlush)
        requires
            old(self).wf(),
        ensures
            final(self).wf(),
            final(self).max_entry == old(self).max_entry,
            ({
                let m = old(self).view_map().insert(key@, slot_view(value));
                match r.flushed {
                    Some(f) => {
                        &&& sorted(entries_view(f.entries@))
                        &&& as_map(entries_view(f.entries@)) == m
                        &&& f.entries@.len() > old(self).max_entry
                        &&& f.entries@.len() == old(self).entries().len() + if old(
                            self,
                        ).view_map().contains_key(key@) {
                            0int
                        } else {
                            1int
                        }
                        &&& final(self).view_map() == Map::<Seq<u8>, SlotView>::empty()
                        &&& final(self).entries().len() == 0
                    },
                    None => {
                        &&& final(self).view_map() == m
                        &&& final(self).entries().len() <= old(self).max_entry
                        &&& final(self).entries().len() == old(self).entries().len() + if old(
                            self,
                        ).view_map().contains_key(key@) {
                            0int
                        } else {
                            1int
                        }
                    },
                }
            }),
    {
        self.put(key, value);
        if self.underlying.len() > self.max_entry {
            MemtableOnFlush { flushed: Some(self.flush()) }
        } else {
            MemtableOnFlush { flushed: None }
        }
    }

    /// Records a tombstone for `key`, with the same hand-off as `set`.
    pub fn delete(&mut self, key: &[u8]) -> (r: MemtableOnFlush)
        requires
            old(self).wf(),
        ensures
            final(self).wf(),
            final(self).max_entry == old(self).max_entry,
            ({
                let m = old(self).view_map().insert(key@, None);
                match r.flushed {
                    Some(f) => {
                        &&& sorted(entries_view(f.entries@))
                        &&& as_map(entries_view(f.entries@)) == m
                        &&& final(self).view_map() == Map::<Seq<u8>, SlotView>::empty()
                    },
                    None => final(self).view_map() == m,
                }
            }),
    {
        self.set(key, None)
    }

    /// Empties the memtable.
    pub fn clear(&mut self)
        ensures
            final(self).wf(),
            final(self).max_entry == old(self).max_entry,
            final(self).entries() == Seq::<EntryView>::empty(),
            final(self).view_map() == Map::<Seq<u8>, SlotView>::empty(),
    {
        self.underlying = Vec::new();
        proof {
            assert(self.entries() =~= Seq::<EntryView>::empty());
            assert(self.view_map() =~= Map::<Seq<u8>, SlotView>::empty());
        }
    }

    /// Takes the whole buffer out, leaving the memtable empty.
    pub fn flush(&mut self) -> (r: MemtableEntries)
        ensures
            final(self).wf(),
            final(self).max_entry == old(self).max_entry,
            entries_view(r.entries@) == old(self).entries(),
            final(self).view_map() == Map::<Seq<u8>, SlotView>::empty(),
            final(self).entries() == Seq::<EntryView>::empty(),
    {
        let mut entries: Vec<Entry> = Vec::new();
        std::mem::swap(&mut entries, &mut self.underlying);
        proof {
            assert(self.entries() =~= Seq::<EntryView>::empty());
            assert(self.view_map() =~= Map::<Seq<u8>, SlotView>::empty());
        }
        MemtableEntries { entries }
    }
}

} // verus!
