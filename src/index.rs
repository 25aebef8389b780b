use crate::bytes::{from_le64, le64, lemma_le64_round_trip, push_le64, read_le64};
use crate::memtable::slot_view;
use crate::ngram::{lemma_char_fits, lemma_round_trip, Ngram};
use crate::sstable::{SSTable, StoreError};
use std::hash::{Hash, Hasher};
use vstd::prelude::*;
use vstd::utf8::encode_utf8;

verus! {

/// Files whose content is longer than this many bytes are not indexed.
pub const MAX_SIZE: usize = 2 << 20;

/// How many trigram keys the index's memtable holds before it is flushed.
pub const MEMTABLE_CAPACITY: usize = 100000;

/// A file's identifier, derived from its path.
#[derive(Clone, Copy, PartialEq, Eq, PartialOrd, Ord, Hash, Debug, Structural)]
pub struct FileId(pub u64);

/// The hash of a path that a file's identifier is.
pub uninterp spec fn path_hash(s: Seq<char>) -> u64;

/// Relies on std's `DefaultHasher::new` (fixed keys) fed by `str`'s `Hash`: the
/// hash depends on the characters alone. std does not promise the same hash
/// across toolchain releases, so identifiers are stable within one build.
#[verifier::external_body]
fn hash_path(filename: &str) -> (r: u64)
    ensures
        r == path_hash(filename@),
{
    let mut s = std::collections::hash_map::DefaultHasher::new();
    filename.hash(&mut s);
    s.finish()
}

/// The identifier of the file at `filename`. Distinct paths may collide; files
/// with one identifier count as one document.
pub fn hash_filename(filename: &str) -> (r: FileId)
    ensures
        r.0 == path_hash(filename@),
{
    FileId(hash_path(filename))
}

/// The flat little-endian bytes of a posting list.
pub open spec fn ids_bytes(ids: Seq<u64>) -> Seq<u8>
    decreases ids.len(),
{
    if ids.len() == 0 {
        Seq::empty()
    } else {
        ids_bytes(ids.drop_last()) + le64(ids.last())
    }
}

/// The posting list that flat little-endian bytes hold.
pub open spec fn ids_of(b: Seq<u8>) -> Seq<u64> {
    Seq::new((b.len() / 8) as nat, |i: int| from_le64(b.subrange(8 * i, 8 * i + 8)))
}

/// The posting list a stored value holds: empty where absent or where its
/// length is not a multiple of eight.
pub open spec fn postings(v: Option<Seq<u8>>) -> Seq<u64> {
    match v {
        Some(b) => if b.len() % 8 == 0 {
            ids_of(b)
        } else {
            Seq::empty()
        },
        None => Seq::empty(),
    }
}

/// The contents of a list of byte buffers.
pub open spec fn byte_views(v: Seq<Vec<u8>>) -> Seq<Seq<u8>> {
    v.map_values(|b: Vec<u8>| b@)
}

/// A stored value that is absent or holds whole 8-byte identifiers.
pub open spec fn well_formed(v: Option<Seq<u8>>) -> bool {
    match v {
        Some(b) => b.len() % 8 == 0,
        None => true,
    }
}

/// Decoding the bytes of a posting list gives the list back.
pub proof fn lemma_ids_round_trip(ids: Seq<u64>)
    ensures
        ids_bytes(ids).len() == 8 * ids.len(),
        ids_of(ids_bytes(ids)) == ids,
    decreases ids.len(),
{
    if ids.len() > 0 {
        let p = ids.drop_last();
        lemma_ids_round_trip(p);
        let b = ids_bytes(ids);
        let pb = ids_bytes(p);
        assert forall|i: int| 0 <= i < ids.len() implies #[trigger] ids_of(b)[i] == ids[i] by {
            if i < p.len() {
                assert(b.subrange(8 * i, 8 * i + 8) =~= pb.subrange(8 * i, 8 * i + 8));
                assert(ids_of(pb)[i] == p[i]);
            } else {
                assert(b.subrange(8 * i, 8 * i + 8) =~= le64(ids.last()));
                lemma_le64_round_trip(ids.last());
            }
        }
        assert(ids_of(b) =~= ids);
    }
}

/// A posting list: the identifiers of the files holding one trigram, one per
/// line that holds it.
#[derive(Clone, Debug)]
pub struct FileIds(pub Vec<u64>);

impl FileIds {
    /// Appends `other`.
    pub fn insert(&mut self, other: FileId)
        ensures
            final(self).0@ == old(self).0@.push(other.0),
    {
        self.0.push(other.0);
    }

    /// The posting list a stored value holds; `None` where its length is not a
    /// multiple of eight, which a well-formed store never holds.
    pub fn from_value(v: &Option<Vec<u8>>) -> (r: Option<FileIds>)
        ensures
            r is None <==> !well_formed(slot_view(*v)),
            r matches Some(ids) ==> ids.0@ == postings(slot_view(*v)),
    {
        let mut out: Vec<u64> = Vec::new();
        match v {
            None => {
                proof {
                    assert(out@ =~= postings(slot_view(*v)));
                }
            },
            Some(b) => {
                if b.len() % 8 != 0 {
                    return None;
                }
                let len = b.len();
                let n = len / 8;
                let mut i: usize = 0;
                while i < n
                    invariant
                        len == b@.len(),
                        n == b@.len() / 8,
                        b@.len() % 8 == 0,
                        i <= n,
                        out@ == ids_of(b@).take(i as int),
                    decreases n - i,
                {
                    proof {
                        assert(8 * i + 8 <= b@.len()) by (nonlinear_arith)
                            requires
                                i < n,
                                n == b@.len() / 8,
                        ;
                    }
                    let x = read_le64(b.as_slice(), 8 * i);
                    proof {
                        assert(ids_of(b@).take(i + 1) =~= ids_of(b@).take(i as int).push(x));
                    }
                    out.push(x);
                    i = i + 1;
                }
                proof {
                    assert(ids_of(b@).take(i as int) =~= ids_of(b@));
                }
            },
        }
        Some(FileIds(out))
    }

    /// The flat little-endian bytes of the list.
    pub fn to_bytes(&self) -> (r: Vec<u8>)
        ensures
            r@ == ids_bytes(self.0@),
    {
        let mut out: Vec<u8> = Vec::new();
        let mut i: usize = 0;
        while i < self.0.len()
            invariant
                i <= self.0@.len(),
                out@ == ids_bytes(self.0@.take(i as int)),
            decreases self.0@.len() - i,
        {
            push_le64(&mut out, self.0[i]);
            proof {
                assert(self.0@.take(i + 1).drop_last() =~= self.0@.take(i as int));
            }
            i = i + 1;
        }
        proof {
            assert(self.0@.take(i as int) =~= self.0@);
        }
        out
    }
}

/// One indexed file: its name, its content and a type tag.
#[derive(Debug, PartialEq, Eq)]
pub struct Document {
    pub filename: String,
    pub content: String,
    pub file_type: String,
}

/// A copy of a document.
pub fn copy_document(d: &Document) -> (r: Document)
    ensures
        r == *d,
{
    Document {
        filename: d.filename.clone(),
        content: d.content.clone(),
        file_type: d.file_type.clone(),
    }
}

/// The documents recorded under one file identifier, oldest first.
pub struct FileMeta {
    pub id: u64,
    pub docs: Vec<Document>,
}

/// The window of three characters at `i` lies within one line, a line's
/// final `\r` before its `\n` not counted.
pub open spec fn window_ok(cs: Seq<char>, i: int) -> bool {
    &&& 0 <= i
    &&& i + 3 <= cs.len()
    &&& cs[i] != '\n'
    &&& cs[i + 1] != '\n'
    &&& cs[i + 2] != '\n'
    &&& !(cs[i + 2] == '\r' && i + 3 < cs.len() && cs[i + 3] == '\n')
}

/// The store key of the trigram at `i`: its UTF-8 text.
pub open spec fn key_at(cs: Seq<char>, i: int) -> Seq<u8> {
    encode_utf8(cs.subrange(i, i + 3))
}

/// The keys of the trigrams in the first `n` positions of `cs`, line by line.
pub open spec fn keys_upto(cs: Seq<char>, n: int) -> Seq<Seq<u8>>
    decreases n,
{
    if n <= 0 {
        Seq::empty()
    } else if window_ok(cs, n - 1) {
        keys_upto(cs, n - 1).push(key_at(cs, n - 1))
    } else {
        keys_upto(cs, n - 1)
    }
}

/// The keys of all trigrams of a text, line by line, repeats included.
pub open spec fn text_keys(cs: Seq<char>) -> Seq<Seq<u8>> {
    keys_upto(cs, cs.len() as int)
}

/// How many times `k` occurs in `s`.
pub open spec fn count_of(s: Seq<Seq<u8>>, k: Seq<u8>) -> nat
    decreases s.len(),
{
    if s.len() == 0 {
        0
    } else {
        count_of(s.drop_last(), k) + if s.last() == k {
            1nat
        } else {
            0nat
        }
    }
}

/// A key occurs no more often in a prefix of the positions than in all of them.
pub proof fn lemma_count_monotone(cs: Seq<char>, m: int, n: int, k: Seq<u8>)
    requires
        0 <= m <= n,
    ensures
        count_of(keys_upto(cs, m), k) <= count_of(keys_upto(cs, n), k),
    decreases n - m,
{
    if m < n {
        lemma_count_monotone(cs, m, n - 1, k);
        if window_ok(cs, n - 1) {
            assert(keys_upto(cs, n).drop_last() == keys_upto(cs, n - 1));
        }
    }
}

/// A posting list too long for one record: its key, the two length fields and
/// eight bytes per identifier exceed the 4-byte size field.
pub open spec fn too_long(k: Seq<u8>, n: nat) -> bool {
    8 + k.len() + 8 * n > 0xffff_ffff
}

/// What `collect_trigrams` does to one key: a key of none of the trigrams keeps
/// its value; the posting list of each other key gains `id` once per occurrence.
pub open spec fn gained(before: Option<Seq<u8>>, after: Option<Seq<u8>>, n: nat, id: u64) -> bool {
    if n == 0 {
        after == before
    } else {
        after is Some && postings(after) == postings(before) + Seq::new(n, |_i: int| id)
    }
}

/// Some number of occurrences, at most `n`, reached the posting list of a key.
pub open spec fn partly_gained(before: Option<Seq<u8>>, after: Option<Seq<u8>>, n: nat, id: u64) -> bool {
    exists|m: nat| m <= n && #[trigger] gained(before, after, m, id)
}

/// The trigram index: posting lists in a store keyed by trigram text, and the
/// documents recorded under each file identifier.
pub struct Index {
    pub content_ngrams: SSTable,
    pub file_meta: Vec<FileMeta>,
}

impl Index {
    /// Identifiers strictly increase along `file_meta`.
    pub open spec fn wf(&self) -> bool {
        &&& self.content_ngrams.wf()
        &&& forall|k: Seq<u8>| #[trigger] well_formed(self.content_ngrams.lookup(k))
        &&& forall|i: int, j: int|
            0 <= i < j < self.file_meta@.len() ==> #[trigger] self.file_meta@[i].id
                < #[trigger] self.file_meta@[j].id
    }

    /// The indexed identifiers, in increasing order.
    pub open spec fn ids(&self) -> Seq<u64> {
        self.file_meta@.map_values(|m: FileMeta| m.id)
    }

    /// The documents recorded under `id`.
    pub open spec fn docs_of(&self, id: u64) -> Seq<Document> {
        if exists|i: int| 0 <= i < self.file_meta@.len() && self.file_meta@[i].id == id {
            self.file_meta@[choose|i: int|
                0 <= i < self.file_meta@.len() && self.file_meta@[i].id == id].docs@
        } else {
            Seq::empty()
        }
    }

    /// An empty index.
    pub fn new() -> (r: Index)
        ensures
            r.wf(),
            r.ids() == Seq::<u64>::empty(),
            forall|k: Seq<u8>| r.content_ngrams.lookup(k) is None,
    {
        let r = Index { content_ngrams: SSTable::new(MEMTABLE_CAPACITY), file_meta: Vec::new() };
        proof {
            assert(r.ids() =~= Seq::<u64>::empty());
        }
        r
    }

    /// Writes the posting lists held in memory as a new generation; returns its
    /// data file, or `None` where there was nothing to write.
    pub fn flush(&mut self) -> (r: Option<Vec<u8>>)
        requires
            old(self).wf(),
        ensures
            final(self).wf(),
            final(self).file_meta@ == old(self).file_meta@,
            forall|k: Seq<u8>| #[trigger]
                final(self).content_ngrams.lookup(k) == old(self).content_ngrams.lookup(k),
            final(self).content_ngrams.buffered() == 0,
            r is None <==> old(self).content_ngrams.buffered() == 0,
            r is None ==> final(self).content_ngrams == old(self).content_ngrams,
            r matches Some(g) ==> {
                &&& final(self).content_ngrams.files() == old(self).content_ngrams.files().push(g@)
                &&& final(self).content_ngrams.log_view() == Seq::<u8>::empty()
            },
    {
        self.content_ngrams.flush()
    }

    /// Adds `file_id` to the posting list of every trigram of every line of
    /// `src`, once per occurrence. Returns, oldest first, the data files of the
    /// generations the store handed off meanwhile, for the caller to make
    /// durable before it goes on.
    pub fn collect_trigrams(&mut self, file_id: &FileId, src: &str) -> (r: Result<Vec<Vec<u8>>, StoreError>)
        requires
            old(self).wf(),
        ensures
            r matches Ok(gs) ==> final(self).content_ngrams.files() == old(self).content_ngrams.files()
                + byte_views(gs@),
            final(self).wf(),
            final(self).file_meta@ == old(self).file_meta@,
            r is Ok ==> forall|k: Seq<u8>|
                #[trigger] gained(
                    old(self).content_ngrams.lookup(k),
                    final(self).content_ngrams.lookup(k),
                    count_of(text_keys(src@), k),
                    file_id.0,
                ),
            r is Err ==> r == Err::<Vec<Vec<u8>>, StoreError>(StoreError::TooLarge),
            r is Err ==> exists|k: Seq<u8>|
                #![trigger count_of(text_keys(src@), k)]
                count_of(text_keys(src@), k) > 0 && too_long(
                    k,
                    postings(old(self).content_ngrams.lookup(k)).len() + count_of(text_keys(src@), k),
                ),
            r is Err ==> forall|k: Seq<u8>|
                #[trigger] partly_gained(
                    old(self).content_ngrams.lookup(k),
                    final(self).content_ngrams.lookup(k),
                    count_of(text_keys(src@), k),
                    file_id.0,
                ),
    {
        let cs = crate::ngram::chars_of(src);
        let ghost start = self.content_ngrams;
        let mut handed_off: Vec<Vec<u8>> = Vec::new();
        let mut i: usize = 0;
        proof {
            assert(start.files() + byte_views(handed_off@) =~= start.files());
        }
        proof {
            assert forall|k: Seq<u8>| #[trigger]
                gained(start.lookup(k), self.content_ngrams.lookup(k), count_of(keys_upto(cs@, 0), k), file_id.0) by {}
        }
        while i < cs.len()
            invariant
                cs@ == src@,
                i <= cs@.len(),
                self.wf(),
                self.file_meta@ == old(self).file_meta@,
                start == old(self).content_ngrams,
                self.content_ngrams.files() == start.files() + byte_views(handed_off@),
                forall|k: Seq<u8>| #[trigger]
                    gained(
                        start.lookup(k),
                        self.content_ngrams.lookup(k),
                        count_of(keys_upto(cs@, i as int), k),
                        file_id.0,
                    ),
            decreases cs@.len() - i,
        {
            let ok = cs.len() - i > 2 && cs[i] != '\n' && cs[i + 1] != '\n' && cs[i + 2] != '\n'
                && !(cs[i + 2] == '\r' && cs.len() - i > 3 && cs[i + 3] == '\n');
            if ok {
                let window = [cs[i], cs[i + 1], cs[i + 2]];
                proof {
                    assert(window@[0] == cs@[i as int] && window@[1] == cs@[i + 1] && window@[2]
                        == cs@[i + 2]);
                }
                let g = Ngram::from_chars(window);
                let text = g.to_string();
                proof {
                    lemma_char_fits(cs@[i as int]);
                    lemma_char_fits(cs@[i + 1]);
                    lemma_char_fits(cs@[i + 2]);
                    lemma_round_trip(
                        cs@[i as int] as u64,
                        cs@[i + 1] as u64,
                        cs@[i + 2] as u64,
                    );
                    crate::ngram::lemma_char_injective(text@[0], cs@[i as int]);
                    crate::ngram::lemma_char_injective(text@[1], cs@[i + 1]);
                    crate::ngram::lemma_char_injective(text@[2], cs@[i + 2]);
                    assert(text@ =~= cs@.subrange(i as int, i + 3));
                }
                let key = text.as_str();
                let ghost kb = key_at(cs@, i as int);
                let ghost before = self.content_ngrams;
                let current = self.content_ngrams.get(key);
                let mut list = match FileIds::from_value(&current) {
                    Some(l) => l,
                    None => {
                        proof {
                            assert(well_formed(self.content_ngrams.lookup(kb)));
                        }
                        return Err(StoreError::Corrupt);
                    },
                };
                list.insert(*file_id);
                let value = list.to_bytes();
                proof {
                    lemma_ids_round_trip(list.0@);
                }
                match self.content_ngrams.insert(key, value) {
                    Err(e) => {
                        proof {
                            let p = keys_upto(cs@, i as int);
                            let n = count_of(p, kb);
                            assert(gained(start.lookup(kb), before.lookup(kb), n, file_id.0));
                            assert(keys_upto(cs@, i + 1) == p.push(kb));
                            assert(p.push(kb).drop_last() =~= p);
                            assert(count_of(keys_upto(cs@, i + 1), kb) == n + 1);
                            lemma_count_monotone(cs@, i + 1, cs@.len() as int, kb);
                            assert(list.0@.len() == postings(start.lookup(kb)).len() + n + 1);
                            assert(too_long(kb, postings(start.lookup(kb)).len() + count_of(text_keys(src@), kb)));
                            assert forall|k: Seq<u8>| #[trigger]
                                partly_gained(
                                    start.lookup(k),
                                    self.content_ngrams.lookup(k),
                                    count_of(text_keys(src@), k),
                                    file_id.0,
                                ) by {
                                lemma_count_monotone(cs@, i as int, cs@.len() as int, k);
                                assert(gained(start.lookup(k), self.content_ngrams.lookup(k), count_of(p, k), file_id.0));
                            }
                        }
                        return Err(e);
                    },
                    Ok(p) => {
                        match p.generation {
                            Some(g) => {
                                let ghost prev = handed_off@;
                                handed_off.push(g);
                                proof {
                                    assert(byte_views(handed_off@) =~= byte_views(prev).push(g@));
                                    assert(start.files() + byte_views(handed_off@) =~= (start.files()
                                        + byte_views(prev)).push(g@));
                                }
                            },
                            None => {},
                        }
                    },
                }
                proof {
                    let nl = list.0@.len();
                    assert((8 * nl) % 8 == 0) by (nonlinear_arith);
                    assert forall|k: Seq<u8>| #[trigger] well_formed(self.content_ngrams.lookup(k)) by {
                        if k != kb {
                            assert(well_formed(before.lookup(k)));
                        }
                    }
                    assert(keys_upto(cs@, i + 1) == keys_upto(cs@, i as int).push(kb));
                    assert forall|k: Seq<u8>| #[trigger]
                        gained(
                            start.lookup(k),
                            self.content_ngrams.lookup(k),
                            count_of(keys_upto(cs@, i + 1), k),
                            file_id.0,
                        ) by {
                        let p = keys_upto(cs@, i as int);
                        assert(p.push(kb).drop_last() =~= p);
                        assert(gained(start.lookup(k), before.lookup(k), count_of(p, k), file_id.0));
                        if k == kb {
                            let n = count_of(p, k);
                            assert(Seq::new(n, |_i: int| file_id.0).push(file_id.0) =~= Seq::new(
                                n + 1,
                                |_i: int| file_id.0,
                            ));
                            assert(postings(start.lookup(k)) + Seq::new(n + 1, |_i: int| file_id.0)
                                =~= (postings(start.lookup(k)) + Seq::new(n, |_i: int| file_id.0)).push(file_id.0));
                        }
                    }
                }
            } else {
                proof {
                    assert(keys_upto(cs@, i + 1) == keys_upto(cs@, i as int));
                }
            }
            i = i + 1;
        }
        Ok(handed_off)
    }
}

} // verus!
