use crate::bytes::{append_bytes, copy_bytes};
use crate::memtable::{
    as_map, entries_view, lemma_key_order, lookup_entries, sorted, Entry, EntryView, Memtable,
    SlotView, compare_keys, slot_view,
};
use crate::record::{
    offsets_of, offset_of,
    decode_records, encode_entries, encode_record, fits, lemma_parse_append, lemma_parsed_fit,
    lemma_records_round_trip,
    parse_records,
    record_bytes, records_bytes,
};
use vstd::prelude::*;
use vstd::string::StringSliceAdditionalSpecFns;

verus! {

/// The value of `k` after the maps of `gens`, newest last, are laid over each other;
/// a tombstone hides older values.
pub open spec fn resolve(gens: Seq<Map<Seq<u8>, SlotView>>, k: Seq<u8>) -> SlotView
    decreases gens.len(),
{
    if gens.len() == 0 {
        None
    } else if gens.last().contains_key(k) {
        gens.last()[k]
    } else {
        resolve(gens.drop_last(), k)
    }
}

/// The map that replaying a log of writes, oldest first, builds.
pub open spec fn replay(log: Seq<EntryView>) -> Map<Seq<u8>, SlotView>
    decreases log.len(),
{
    if log.len() == 0 {
        Map::empty()
    } else {
        replay(log.drop_last()).insert(log.last().0, log.last().1)
    }
}

/// The maps held by data files, oldest first.
pub open spec fn file_maps(files: Seq<Seq<u8>>) -> Seq<Map<Seq<u8>, SlotView>> {
    files.map_values(|f: Seq<u8>| as_map(parse_records(f)->0))
}

/// Data files and a log that a store can be opened from: every record parses
/// and each data file is sorted by key.
pub open spec fn recoverable(files: Seq<Seq<u8>>, log: Seq<u8>) -> bool {
    &&& forall|i: int|
        0 <= i < files.len() ==> #[trigger] parse_records(files[i]) is Some && sorted(
            parse_records(files[i])->0,
        )
    &&& parse_records(log) is Some
}

/// The value of `k` in a store opened from `files` and `log`: the log's writes
/// first, then the data files from newest to oldest.
pub open spec fn recovered_lookup(files: Seq<Seq<u8>>, log: Seq<u8>, k: Seq<u8>) -> SlotView {
    let m = replay(parse_records(log)->0);
    if m.contains_key(k) {
        m[k]
    } else {
        resolve(file_maps(files), k)
    }
}

/// Why a store operation failed.
#[derive(Debug, PartialEq, Eq, Structural)]
pub enum StoreError {
    /// A data file or the log holds a malformed record.
    Corrupt,
    /// A key and value too long for one record.
    TooLarge,
}

/// What the caller must make durable after a write: bytes to append to the
/// log, then, where the write produced a new generation, its data file,
/// after which the log is emptied.
pub struct Persist {
    pub log_append: Vec<u8>,
    pub generation: Option<Vec<u8>>,
}

/// A log-structured key/value store: a memtable over generations of sorted
/// data files, with a log of the writes the memtable holds.
pub struct SSTable {
    pub max_entries: usize,
    pub memtable: Memtable,
    pub generations: Vec<Vec<Entry>>,
    /// For each generation, where each entry's record starts in its data file.
    pub indexes: Vec<Vec<u64>>,
    pub log: Vec<u8>,
    pub log_entries: Ghost<Seq<EntryView>>,
}

impl SSTable {
    /// The maps of the generations, oldest first.
    pub open spec fn gen_maps(self) -> Seq<Map<Seq<u8>, SlotView>> {
        self.generations@.map_values(|g: Vec<Entry>| as_map(entries_view(g@)))
    }

    /// The stored value of `k`, with tombstones: the memtable first, then the
    /// generations from newest to oldest.
    pub open spec fn slot(self, k: Seq<u8>) -> SlotView {
        if self.memtable.view_map().contains_key(k) {
            self.memtable.view_map()[k]
        } else {
            resolve(self.gen_maps(), k)
        }
    }

    /// The value stored under `k`, if any.
    pub open spec fn lookup(self, k: Seq<u8>) -> Option<Seq<u8>> {
        self.slot(k)
    }

    /// The memtable's capacity.
    pub open spec fn capacity(self) -> nat {
        self.max_entries as nat
    }

    /// The number of generations.
    pub open spec fn generation_count(self) -> nat {
        self.generations@.len()
    }

    /// The number of keys in the memtable.
    pub open spec fn buffered(self) -> nat {
        self.memtable.entries().len()
    }

    /// The number of keys the memtable holds once `k` is written to it.
    pub open spec fn buffered_with(self, k: Seq<u8>) -> nat {
        if self.memtable.view_map().contains_key(k) {
            self.buffered()
        } else {
            self.buffered() + 1
        }
    }

    /// The records of each generation's data file, oldest first.
    pub open spec fn files(self) -> Seq<Seq<u8>> {
        self.generations@.map_values(|g: Vec<Entry>| records_bytes(entries_view(g@)))
    }

    /// The log of writes since the last generation.
    pub open spec fn log_view(self) -> Seq<u8> {
        self.log@
    }

    /// The memtable and each generation are sorted and fit the record format,
    /// and the log holds exactly the writes the memtable holds.
    pub closed spec fn wf(self) -> bool {
        &&& self.memtable.wf()
        &&& self.memtable.max_entry == self.max_entries
        &&& forall|i: int| 0 <= i < self.memtable.entries().len() ==> fits(#[trigger] self.memtable.entries()[i])
        &&& forall|g: int|
            0 <= g < self.generations@.len() ==> sorted(
                entries_view(#[trigger] self.generations@[g]@),
            )
        &&& forall|g: int, i: int|
            0 <= g < self.generations@.len() && 0 <= i < self.generations@[g]@.len() ==> fits(
                #[trigger] self.generations@[g]@[i]@,
            )
        &&& self.indexes@.len() == self.generations@.len()
        &&& forall|g: int|
            0 <= g < self.generations@.len() ==> #[trigger] offsets_of(
                entries_view(self.generations@[g]@),
                self.indexes@[g]@,
            )
        &&& parse_records(self.log@) == Some(self.log_entries@)
        &&& self.memtable.view_map() == replay(self.log_entries@)
    }

    /// An empty store whose memtable holds up to `max_entries` keys.
    pub fn new(max_entries: usize) -> (r: SSTable)
        ensures
            r.wf(),
            r.capacity() == max_entries,
            r.generation_count() == 0,
            r.log_view() == Seq::<u8>::empty(),
            forall|k: Seq<u8>| r.lookup(k) is None,
    {
        let r = SSTable {
            max_entries,
            memtable: Memtable::new(max_entries),
            generations: Vec::new(),
            indexes: Vec::new(),
            log: Vec::new(),
            log_entries: Ghost(Seq::empty()),
        };
        proof {
            assert(r.gen_maps() =~= Seq::<Map<Seq<u8>, SlotView>>::empty());
            assert(parse_records(r.log@) == Some(Seq::<EntryView>::empty()));
        }
        r
    }

    /// The value stored under `key`: the memtable is read first, then the
    /// generations from newest to oldest; a tombstone reads as absent.
    pub fn get(&self, key: &str) -> (r: Option<Vec<u8>>)
        requires
            self.wf(),
        ensures
            slot_view(r) == self.lookup(key.spec_bytes()),
    {
        self.get_bytes(key.as_bytes())
    }

    /// The value stored under the key with bytes `key`.
    pub fn get_bytes(&self, key: &[u8]) -> (r: Option<Vec<u8>>)
        requires
            self.wf(),
        ensures
            slot_view(r) == self.lookup(key@),
    {
        match self.memtable.get(key) {
            Some(v) => return copy_slot(v),
            None => {},
        }
        let ghost maps = self.gen_maps();
        let mut i: usize = self.generations.len();
        proof {
            assert(maps.take(i as int) =~= maps);
        }
        while i > 0
            invariant
                self.wf(),
                maps == self.gen_maps(),
                i <= self.generations@.len(),
                !self.memtable.view_map().contains_key(key@),
                resolve(maps, key@) == resolve(maps.take(i as int), key@),
            decreases i,
        {
            let g = &self.generations[i - 1];
            proof {
                assert(maps.take(i as int).last() == as_map(entries_view(g@)));
                assert(maps.take(i as int).drop_last() =~= maps.take(i - 1));
            }
            match lookup_entries(g, key) {
                Some(v) => return copy_slot(v),
                None => {},
            }
            i = i - 1;
        }
        None
    }

    /// Stores `value` under `key`. When that makes the memtable hold more than
    /// its capacity, its whole contents become a new generation and it is
    /// emptied. Fails, changing nothing, where the key and value are too long
    /// for one record.
    pub fn insert(&mut self, key: &str, value: Vec<u8>) -> (r: Result<Persist, StoreError>)
        requires
            old(self).wf(),
        ensures
            final(self).wf(),
            final(self).capacity() == old(self).capacity(),
            r is Err <==> !fits((key.spec_bytes(), Some(value@))),
            r is Err ==> *final(self) == *old(self) && r == Err::<Persist, StoreError>(StoreError::TooLarge),
            r is Ok ==> forall|k: Seq<u8>|
                #[trigger] final(self).lookup(k) == if k == key.spec_bytes() {
                    Some(value@)
                } else {
                    old(self).lookup(k)
                },
            r matches Ok(p) ==> final(self).persisted(*old(self), p, (key.spec_bytes(), Some(value@))),
    {
        self.write(key.as_bytes(), Some(value))
    }

    /// Records a tombstone for `key`, so that it reads as absent, also after
    /// the memtable is flushed and the store reopened. Hands off the memtable
    /// as `insert` does.
    pub fn delete(&mut self, key: &str) -> (r: Result<Persist, StoreError>)
        requires
            old(self).wf(),
        ensures
            final(self).wf(),
            final(self).capacity() == old(self).capacity(),
            r is Err <==> !fits((key.spec_bytes(), None)),
            r is Err ==> *final(self) == *old(self) && r == Err::<Persist, StoreError>(StoreError::TooLarge),
            r is Ok ==> forall|k: Seq<u8>|
                #[trigger] final(self).lookup(k) == if k == key.spec_bytes() {
                    None
                } else {
                    old(self).lookup(k)
                },
            r matches Ok(p) ==> final(self).persisted(*old(self), p, (key.spec_bytes(), None)),
    {
        self.write(key.as_bytes(), None)
    }

    /// How a write of `e` changed `before` into `self` and what it asked to persist:
    /// the log record of `e`; and, exactly when the memtable overflowed, a new
    /// generation holding the memtable's contents with `e`, an empty memtable and
    /// an empty log.
    pub open spec fn persisted(self, before: SSTable, p: Persist, e: EntryView) -> bool {
        &&& p.log_append@ == record_bytes(e)
        &&& match p.generation {
            Some(g) => {
                &&& parse_records(g@) is Some
                &&& sorted(parse_records(g@)->0)
                &&& as_map(parse_records(g@)->0) == before.memtable.view_map().insert(e.0, e.1)
                &&& before.buffered_with(e.0) > before.capacity()
                &&& self.generation_count() == before.generation_count() + 1
                &&& self.files() == before.files().push(g@)
                &&& self.buffered() == 0
                &&& self.log_view() == Seq::<u8>::empty()
            },
            None => {
                &&& self.generation_count() == before.generation_count()
                &&& self.files() == before.files()
                &&& self.buffered() == before.buffered_with(e.0)
                &&& self.buffered() <= self.capacity()
                &&& self.log_view() == before.log_view() + record_bytes(e)
            },
        }
    }

    fn write(&mut self, key: &[u8], value: Option<Vec<u8>>) -> (r: Result<Persist, StoreError>)
        requires
            old(self).wf(),
        ensures
            final(self).wf(),
            final(self).capacity() == old(self).capacity(),
            r is Err <==> !fits((key@, slot_view(value))),
            r is Err ==> *final(self) == *old(self) && r == Err::<Persist, StoreError>(StoreError::TooLarge),
            r is Ok ==> forall|k: Seq<u8>|
                #[trigger] final(self).lookup(k) == if k == key@ {
                    slot_view(value)
                } else {
                    old(self).lookup(k)
                },
            r matches Ok(p) ==> final(self).persisted(*old(self), p, (key@, slot_view(value))),
    {
        let vlen: usize = match &value {
            Some(v) => v.len(),
            None => 0,
        };
        if key.len() > 0xffff_fff7 || vlen > 0xffff_fff7 - key.len() {
            return Err(StoreError::TooLarge);
        }
        let e = Entry { key: copy_bytes(key), value };
        let mut record: Vec<u8> = Vec::new();
        encode_record(&mut record, &e);
        let ghost before = *self;
        let ghost m = self.memtable.view_map().insert(key@, slot_view(e.value));
        let ghost e_value = e.value;
        let Entry { key: _, value } = e;
        let flushed = self.memtable.set(key, value).on_flush();
        proof {
            assert forall|i: int| 0 <= i < self.memtable.entries().len() implies fits(
                #[trigger] self.memtable.entries()[i],
            ) by {
                let s = self.memtable.entries();
                crate::memtable::lemma_as_map_index(s, i);
                if s[i].0 != key@ {
                    let j = crate::memtable::index_of(before.memtable.entries(), s[i].0);
                    crate::memtable::lemma_as_map_index(before.memtable.entries(), j);
                    assert(fits(before.memtable.entries()[j]));
                }
            }
        }
        match flushed {
            Some(f) => {
                let entries = f.entries;
                proof {
                    assert forall|i: int| 0 <= i < entries@.len() implies fits(
                        #[trigger] entries@[i]@,
                    ) by {
                        let s = entries_view(entries@);
                        crate::memtable::lemma_as_map_index(s, i);
                        assert(s[i] == entries@[i]@);
                        if s[i].0 != key@ {
                            let j = crate::memtable::index_of(before.memtable.entries(), s[i].0);
                            crate::memtable::lemma_as_map_index(before.memtable.entries(), j);
                            assert(fits(before.memtable.entries()[j]));
                        }
                    }
                }
                let df = encode_entries(&entries);
                let data = df.data;
                proof {
                    let ev = entries_view(entries@);
                    assert forall|i: int| 0 <= i < ev.len() implies fits(#[trigger] ev[i]) by {
                        assert(ev[i] == entries@[i]@);
                    }
                    lemma_records_round_trip(ev);
                }
                self.generations.push(entries);
                self.indexes.push(df.offsets);
                self.log = Vec::new();
                self.log_entries = Ghost(Seq::empty());
                proof {
                    assert(parse_records(self.log@) == Some(Seq::<EntryView>::empty()));
                    assert forall|g: int| 0 <= g < self.generations@.len() implies #[trigger] offsets_of(
                        entries_view(self.generations@[g]@),
                        self.indexes@[g]@,
                    ) by {
                        if g < before.generations@.len() {
                            assert(offsets_of(entries_view(before.generations@[g]@), before.indexes@[g]@));
                        }
                    }
                    assert(self.gen_maps() =~= before.gen_maps().push(m));
                    assert(self.gen_maps().drop_last() =~= before.gen_maps());
                    assert(self.files() =~= before.files().push(data@));
                }
                Ok(Persist { log_append: record, generation: Some(data) })
            },
            None => {
                append_bytes(&mut self.log, record.as_slice());
                let ghost ev = (key@, slot_view(e_value));
                self.log_entries = Ghost(self.log_entries@.push(ev));
                proof {
                    lemma_parse_append(before.log@, 0, ev);
                    assert(self.log_entries@.drop_last() =~= before.log_entries@);
                    assert(self.gen_maps() =~= before.gen_maps());
                    assert(self.files() =~= before.files());
                }
                Ok(Persist { log_append: record, generation: None })
            },
        }
    }

    /// Writes the memtable, even under capacity, as a new generation and
    /// empties it and the log; returns that generation's data file, or
    /// `None` where the memtable was empty and nothing changed.
    pub fn flush(&mut self) -> (r: Option<Vec<u8>>)
        requires
            old(self).wf(),
        ensures
            final(self).wf(),
            final(self).capacity() == old(self).capacity(),
            forall|k: Seq<u8>| #[trigger] final(self).lookup(k) == old(self).lookup(k),
            final(self).buffered() == 0,
            r is None <==> old(self).buffered() == 0,
            r is None ==> *final(self) == *old(self),
            r matches Some(g) ==> {
                &&& parse_records(g@) == Some(old(self).memtable.entries())
                &&& final(self).files() == old(self).files().push(g@)
                &&& final(self).log_view() == Seq::<u8>::empty()
            },
    {
        if self.memtable.len() == 0 {
            return None;
        }
        let ghost before = *self;
        let ghost m = self.memtable.view_map();
        let f = self.memtable.flush();
        let entries = f.entries;
        proof {
            assert forall|i: int| 0 <= i < entries@.len() implies fits(#[trigger] entries@[i]@) by {
                assert(entries@[i]@ == entries_view(entries@)[i]);
            }
        }
        let df = encode_entries(&entries);
        let data = df.data;
        proof {
            let ev = entries_view(entries@);
            assert forall|i: int| 0 <= i < ev.len() implies fits(#[trigger] ev[i]) by {
                assert(ev[i] == entries@[i]@);
            }
            lemma_records_round_trip(ev);
        }
        self.generations.push(entries);
        self.indexes.push(df.offsets);
        self.log = Vec::new();
        self.log_entries = Ghost(Seq::empty());
        proof {
            assert(parse_records(self.log@) == Some(Seq::<EntryView>::empty()));
            assert forall|g: int| 0 <= g < self.generations@.len() implies #[trigger] offsets_of(
                entries_view(self.generations@[g]@),
                self.indexes@[g]@,
            ) by {
                if g < before.generations@.len() {
                    assert(offsets_of(entries_view(before.generations@[g]@), before.indexes@[g]@));
                }
            }
            assert(self.gen_maps() =~= before.gen_maps().push(m));
            assert(self.gen_maps().drop_last() =~= before.gen_maps());
            assert(self.files() =~= before.files().push(data@));
        }
        Some(data)
    }

    /// Removes every generation and empties the memtable and the log.
    pub fn clear(&mut self) -> (r: Result<(), StoreError>)
        requires
            old(self).wf(),
        ensures
            r is Ok,
            final(self).wf(),
            final(self).capacity() == old(self).capacity(),
            final(self).generation_count() == 0,
            final(self).buffered() == 0,
            final(self).log_view() == Seq::<u8>::empty(),
            forall|k: Seq<u8>| final(self).lookup(k) is None,
    {
        self.memtable.clear();
        self.generations = Vec::new();
        self.indexes = Vec::new();
        self.log = Vec::new();
        self.log_entries = Ghost(Seq::empty());
        proof {
            assert(self.gen_maps() =~= Seq::<Map<Seq<u8>, SlotView>>::empty());
            assert(parse_records(self.log@) == Some(Seq::<EntryView>::empty()));
        }
        Ok(())
    }

    /// The data file of each generation, oldest first.
    pub fn generation_files(&self) -> (r: Vec<Vec<u8>>)
        requires
            self.wf(),
        ensures
            r@.len() == self.files().len(),
            forall|i: int| 0 <= i < r@.len() ==> (#[trigger] r@[i])@ == self.files()[i],
    {
        let mut out: Vec<Vec<u8>> = Vec::new();
        let mut i: usize = 0;
        while i < self.generations.len()
            invariant
                self.wf(),
                i <= self.generations@.len(),
                out@.len() == i,
                forall|j: int| 0 <= j < i ==> (#[trigger] out@[j])@ == self.files()[j],
            decreases self.generations@.len() - i,
        {
            let g = &self.generations[i];
            proof {
                assert forall|j: int| 0 <= j < g@.len() implies fits(#[trigger] g@[j]@) by {
                    assert(fits(self.generations@[i as int]@[j]@));
                }
            }
            out.push(encode_entries(g).data);
            i = i + 1;
        }
        out
    }

    /// The sparse index of generation `g`: where the record of each of its
    /// entries, in key order, starts in its data file.
    pub fn generation_offsets(&self, g: usize) -> (r: &Vec<u64>)
        requires
            self.wf(),
            g < self.generation_count(),
        ensures
            offsets_of(entries_view(self.generations@[g as int]@), r@),
            forall|i: int| 0 <= i < r@.len() ==> #[trigger] r@[i] == offset_of(entries_view(self.generations@[g as int]@), i),
    {
        &self.indexes[g]
    }

    /// The log of the writes that the memtable holds.
    pub fn log_bytes(&self) -> (r: Vec<u8>)
        ensures
            r@ == self.log_view(),
    {
        copy_bytes(self.log.as_slice())
    }

    /// Opens a store from its generations' data files, oldest first, and its
    /// log, whose writes are replayed into the memtable. Fails where a record
    /// is corrupt or a data file is not sorted by key.
    pub fn open(max_entries: usize, files: &Vec<Vec<u8>>, log: &[u8]) -> (r: Result<
        SSTable,
        StoreError,
    >)
        ensures
            r is Ok <==> recoverable(files@.map_values(|f: Vec<u8>| f@), log@),
            r matches Ok(t) ==> {
                &&& t.wf()
                &&& t.capacity() == max_entries
                &&& t.log_view() == log@
                &&& t.memtable.view_map() == replay(parse_records(log@)->0)
                &&& forall|k: Seq<u8>| #[trigger]
                    t.lookup(k) == recovered_lookup(files@.map_values(|f: Vec<u8>| f@), log@, k)
            },
    {
        let ghost fs = files@.map_values(|f: Vec<u8>| f@);
        let mut generations: Vec<Vec<Entry>> = Vec::new();
        let mut indexes: Vec<Vec<u64>> = Vec::new();
        let mut i: usize = 0;
        while i < files.len()
            invariant
                fs == files@.map_values(|f: Vec<u8>| f@),
                i <= files@.len(),
                generations@.len() == i,
                indexes@.len() == i,
                forall|j: int|
                    0 <= j < i ==> #[trigger] offsets_of(entries_view(generations@[j]@), indexes@[j]@),
                forall|j: int|
                    0 <= j < i ==> #[trigger] parse_records(fs[j]) is Some && sorted(
                        parse_records(fs[j])->0,
                    ) && entries_view(generations@[j]@) == parse_records(fs[j])->0,
            decreases files@.len() - i,
        {
            let f = &files[i];
            match decode_records(f.as_slice()) {
                None => {
                    proof {
                        assert(parse_records(fs[i as int]) is None);
                    }
                    return Err(StoreError::Corrupt);
                },
                Some((entries, offsets)) => {
                    if !is_sorted(&entries) {
                        proof {
                            assert(!sorted(parse_records(fs[i as int])->0));
                        }
                        return Err(StoreError::Corrupt);
                    }
                    generations.push(entries);
                    indexes.push(offsets);
                    proof {
                        assert forall|j: int|
                            0 <= j < i + 1 implies #[trigger] parse_records(fs[j]) is Some && sorted(
                            parse_records(fs[j])->0,
                        ) && entries_view(generations@[j]@) == parse_records(fs[j])->0 by {
                            if j < i {
                                assert(parse_records(fs[j]) is Some);
                            }
                        }
                        assert forall|j: int|
                            0 <= j < i + 1 implies #[trigger] offsets_of(entries_view(generations@[j]@), indexes@[j]@) by {
                            if j < i {
                                assert(offsets_of(entries_view(generations@[j]@), indexes@[j]@));
                            }
                        }
                    }
                },
            }
            i = i + 1;
        }
        let parsed = match decode_records(log) {
            None => {
                return Err(StoreError::Corrupt);
            },
            Some((p, _)) => p,
        };
        proof {
            lemma_parsed_fit(log@, 0);
        }
        let mut memtable = Memtable::new(max_entries);
        let ghost pv = entries_view(parsed@);
        let mut j: usize = 0;
        while j < parsed.len()
            invariant
                pv == entries_view(parsed@),
                pv == parse_records(log@)->0,
                forall|x: int| 0 <= x < pv.len() ==> fits(#[trigger] pv[x]),
                j <= parsed@.len(),
                memtable.wf(),
                memtable.max_entry == max_entries,
                memtable.view_map() == replay(pv.take(j as int)),
                forall|x: int|
                    0 <= x < memtable.entries().len() ==> #[trigger] memtable.view_map().contains_key(
                        memtable.entries()[x].0,
                    ) && fits(memtable.entries()[x]),
            decreases parsed@.len() - j,
        {
            let e = &parsed[j];
            let ghost before = memtable;
            let value = copy_slot(&e.value);
            memtable.put(e.key.as_slice(), value);
            proof {
                assert(pv.take(j + 1).drop_last() =~= pv.take(j as int));
                assert(pv[j as int] == e@);
                assert forall|x: int| 0 <= x < memtable.entries().len() implies #[trigger]
                    memtable.view_map().contains_key(memtable.entries()[x].0) && fits(
                        memtable.entries()[x],
                    ) by {
                    let s = memtable.entries();
                    crate::memtable::lemma_as_map_index(s, x);
                    if s[x].0 != e@.0 {
                        let y = crate::memtable::index_of(before.entries(), s[x].0);
                        crate::memtable::lemma_as_map_index(before.entries(), y);
                        assert(fits(before.entries()[y]));
                    }
                }
            }
            j = j + 1;
        }
        let t = SSTable {
            max_entries,
            memtable,
            generations,
            indexes,
            log: copy_bytes(log),
            log_entries: Ghost(pv),
        };
        proof {
            assert(pv.take(j as int) =~= pv);
            assert forall|g: int| 0 <= g < t.generations@.len() implies sorted(
                entries_view(#[trigger] t.generations@[g]@),
            ) && t.gen_maps()[g] == file_maps(fs)[g] by {
                assert(parse_records(fs[g]) is Some);
            }
            assert(t.gen_maps() =~= file_maps(fs));
            assert forall|k: Seq<u8>| #[trigger]
                t.lookup(k) == recovered_lookup(fs, log@, k) by {}
            assert forall|x: int| 0 <= x < t.memtable.entries().len() implies fits(
                #[trigger] t.memtable.entries()[x],
            ) by {
                assert(t.memtable.view_map().contains_key(t.memtable.entries()[x].0));
            }
            assert forall|g: int, x: int|
                0 <= g < t.generations@.len() && 0 <= x < t.generations@[g]@.len() implies fits(
                #[trigger] t.generations@[g]@[x]@,
            ) by {
                assert(parse_records(fs[g]) is Some);
                lemma_parsed_fit(fs[g], 0);
                assert(entries_view(t.generations@[g]@)[x] == t.generations@[g]@[x]@);
            }
        }
        Ok(t)
    }
}

/// A copy of a stored value.
fn copy_slot(v: &Option<Vec<u8>>) -> (r: Option<Vec<u8>>)
    ensures
        slot_view(r) == slot_view(*v),
{
    match v {
        Some(b) => Some(copy_bytes(b.as_slice())),
        None => None,
    }
}

/// Whether the keys of `entries` strictly increase.
fn is_sorted(entries: &Vec<Entry>) -> (r: bool)
    ensures
        r == sorted(entries_view(entries@)),
{
    let ghost s = entries_view(entries@);
    if entries.len() == 0 {
        return true;
    }
    let mut i: usize = 1;
    while i < entries.len()
        invariant
            s == entries_view(entries@),
            1 <= i <= entries@.len(),
            sorted(s.take(i as int)),
        decreases entries@.len() - i,
    {
        if compare_keys(entries[i - 1].key.as_slice(), entries[i].key.as_slice()) >= 0 {
            proof {
                assert(s[i - 1].0 == entries@[i - 1].key@ && s[i as int].0 == entries@[i as int].key@);
            }
            return false;
        }
        proof {
            let t = s.take(i + 1);
            assert forall|a: int, b: int| 0 <= a < b < t.len() implies crate::memtable::key_lt(
                #[trigger] t[a].0,
                #[trigger] t[b].0,
            ) by {
                if b == i && a < i - 1 {
                    assert(s.take(i as int)[a] == s[a]);
                    assert(s.take(i as int)[i - 1] == s[i - 1]);
                    lemma_key_order(s[a].0, s[i - 1].0, s[i as int].0);
                } else if b < i {
                    assert(s.take(i as int)[a] == t[a] && s.take(i as int)[b] == t[b]);
                }
            }
        }
        i = i + 1;
    }
    proof {
        assert(s.take(i as int) =~= s);
    }
    true
}

/// Deleting succeeds for every key whose tombstone record fits the 4-byte size
/// field, that is every key shorter than 4 GiB less eight bytes.
pub proof fn lemma_delete_fits(k: Seq<u8>)
    requires
        k.len() <= 0xffff_fff7,
    ensures
        fits((k, None)),
{
}

/// A key written and then deleted reads as absent, and still does after a flush:
/// `s1` is `s0` after `insert(k, v)`, `s2` is `s1` after `delete(k)`, and `s3` is
/// `s2` after `flush()`, each as its contract states.
pub proof fn lemma_delete_visible(
    s0: SSTable,
    s1: SSTable,
    s2: SSTable,
    s3: SSTable,
    k: Seq<u8>,
    v: Seq<u8>,
)
    requires
        forall|x: Seq<u8>| #[trigger] s1.lookup(x) == if x == k { Some(v) } else { s0.lookup(x) },
        forall|x: Seq<u8>| #[trigger] s2.lookup(x) == if x == k { None } else { s1.lookup(x) },
        forall|x: Seq<u8>| #[trigger] s3.lookup(x) == s2.lookup(x),
    ensures
        s1.lookup(k) == Some(v),
        s2.lookup(k) is None,
        s3.lookup(k) is None,
{
    assert(s1.lookup(k) == Some(v));
    assert(s2.lookup(k) is None);
    assert(s3.lookup(k) == s2.lookup(k));
}

/// Durability across a restart: a store opened from this store's data files
/// and log (what the caller made durable) reads every key as this one does.
pub proof fn lemma_reopen(s: SSTable)
    requires
        s.wf(),
    ensures
        recoverable(s.files(), s.log_view()),
        forall|k: Seq<u8>| #[trigger] recovered_lookup(s.files(), s.log_view(), k) == s.lookup(k),
{
    let files = s.files();
    assert forall|g: int| 0 <= g < files.len() implies #[trigger] parse_records(files[g]) is Some
        && sorted(parse_records(files[g])->0) && parse_records(files[g])->0 == entries_view(
        s.generations@[g]@,
    ) by {
        let es = entries_view(s.generations@[g]@);
        assert forall|i: int| 0 <= i < es.len() implies fits(#[trigger] es[i]) by {
            assert(es[i] == s.generations@[g]@[i]@);
        }
        lemma_records_round_trip(es);
    }
    assert(file_maps(files) =~= s.gen_maps());
}

} // verus!
