use crate::index::{
    byte_views, copy_document, count_of, gained, partly_gained, too_long, hash_filename, key_at, path_hash, postings, text_keys,
    Document, FileIds, FileMeta, Index, MAX_SIZE,
};
use crate::sstable::StoreError;
use crate::ngram::{lemma_char_fits, lemma_char_injective, lemma_round_trip, split_ngrams, unpack, trigram_at};
use crate::query::{Query, QueryNode};
use vstd::prelude::*;

verus! {

/// Identifiers in strictly increasing order, so without repeats.
pub open spec fn increasing(s: Seq<u64>) -> bool {
    forall|i: int, j: int| 0 <= i < j < s.len() ==> s[i] < s[j]
}

/// The elements of `s` that `p` holds, in order.
pub open spec fn keep(s: Seq<u64>, p: Set<u64>) -> Seq<u64>
    decreases s.len(),
{
    if s.len() == 0 {
        Seq::empty()
    } else if p.contains(s[0]) {
        seq![s[0]] + keep(s.drop_first(), p)
    } else {
        keep(s.drop_first(), p)
    }
}

/// Keeping some elements of an increasing sequence gives an increasing
/// sequence of its elements.
pub proof fn lemma_keep_increasing(s: Seq<u64>, p: Set<u64>)
    requires
        increasing(s),
    ensures
        increasing(keep(s, p)),
        forall|x: u64| #[trigger] keep(s, p).contains(x) ==> s.contains(x) && p.contains(x),
    decreases s.len(),
{
    if s.len() > 0 {
        let rest = s.drop_first();
        lemma_keep_increasing(rest, p);
        let k = keep(rest, p);
        assert forall|x: u64| k.contains(x) implies s[0] < x by {
            assert(rest.contains(x));
            let i = choose|i: int| 0 <= i < rest.len() && rest[i] == x;
            assert(s[i + 1] == x);
        }
        assert forall|x: u64| keep(s, p).contains(x) implies s.contains(x) && p.contains(x) by {
            let i = choose|i: int| 0 <= i < keep(s, p).len() && keep(s, p)[i] == x;
            if p.contains(s[0]) && i == 0 {
                assert(s[0] == x);
            } else {
                let j = if p.contains(s[0]) { i - 1 } else { i };
                assert(k[j] == x);
                assert(k.contains(x));
                let m = choose|m: int| 0 <= m < rest.len() && rest[m] == x;
                assert(s[m + 1] == x);
            }
        }
        if p.contains(s[0]) {
            let t = keep(s, p);
            assert forall|i: int, j: int| 0 <= i < j < t.len() implies t[i] < t[j] by {
                if i == 0 {
                    assert(t[j] == k[j - 1]);
                    assert(k.contains(k[j - 1]));
                } else {
                    assert(t[i] == k[i - 1] && t[j] == k[j - 1]);
                }
            }
        }
    }
}

/// Search yields each matching file once, however many of its lines hold a
/// trigram: the identifiers it expands are strictly increasing.
pub proof fn lemma_search_distinct(idx: &Index, q: Query)
    requires
        idx.wf(),
    ensures
        increasing(keep(idx.ids(), denotes(idx, q))),
{
    assert forall|i: int, j: int| 0 <= i < j < idx.ids().len() implies idx.ids()[i] < idx.ids()[j] by {
        assert(idx.file_meta@[i].id < idx.file_meta@[j].id);
    }
    lemma_keep_increasing(idx.ids(), denotes(idx, q));
}

/// The files a term matches: it has at least one trigram, and each of its
/// trigrams' posting lists holds the file.
pub open spec fn term_ids(idx: &Index, w: Seq<char>) -> Set<u64> {
    Set::new(
        |id: u64|
            w.len() >= 3 && forall|i: int|
                0 <= i <= w.len() - 3 ==> #[trigger] postings(
                    idx.content_ngrams.lookup(key_at(w, i)),
                ).contains(id),
    )
}

/// The files a query matches. Language, path and regex filters match nothing.
pub open spec fn denotes(idx: &Index, q: Query) -> Set<u64>
    decreases q,
{
    match q {
        Query::Or(a, b) => denotes(idx, *a).union(denotes(idx, *b)),
        Query::And(a, b) => denotes(idx, *a).intersect(denotes(idx, *b)),
        Query::Not(a) => denotes(idx, *a).complement(),
        Query::Term(w) => term_ids(idx, w),
        _ => Set::empty(),
    }
}

/// The documents recorded under each of `ids`, in that order.
pub open spec fn docs_for(idx: &Index, ids: Seq<u64>) -> Seq<Document>
    decreases ids.len(),
{
    if ids.len() == 0 {
        Seq::empty()
    } else {
        docs_for(idx, ids.drop_last()) + idx.docs_of(ids.last())
    }
}

/// Whether increasing `v` holds `x`.
fn contains_sorted(v: &Vec<u64>, x: u64) -> (r: bool)
    requires
        increasing(v@),
    ensures
        r == v@.contains(x),
{
    let mut lo: usize = 0;
    let mut hi: usize = v.len();
    while lo < hi
        invariant
            increasing(v@),
            lo <= hi <= v@.len(),
            forall|j: int| 0 <= j < lo ==> v@[j] < x,
            forall|j: int| hi <= j < v@.len() ==> x < v@[j],
        decreases hi - lo,
    {
        let mid = lo + (hi - lo) / 2;
        if v[mid] == x {
            return true;
        } else if v[mid] < x {
            lo = mid + 1;
        } else {
            hi = mid;
        }
    }
    false
}

/// The distinct values of `ids`, in increasing order.
fn sorted_set(ids: &Vec<u64>) -> (r: Vec<u64>)
    ensures
        increasing(r@),
        forall|x: u64| r@.contains(x) <==> ids@.contains(x),
{
    let mut out: Vec<u64> = Vec::new();
    let mut i: usize = 0;
    while i < ids.len()
        invariant
            i <= ids@.len(),
            increasing(out@),
            forall|x: u64| out@.contains(x) <==> ids@.take(i as int).contains(x),
        decreases ids@.len() - i,
    {
        let x = ids[i];
        let mut lo: usize = 0;
        let mut hi: usize = out.len();
        while lo < hi
            invariant
                increasing(out@),
                lo <= hi <= out@.len(),
                forall|j: int| 0 <= j < lo ==> out@[j] < x,
                forall|j: int| hi <= j < out@.len() ==> x <= out@[j],
            decreases hi - lo,
        {
            let mid = lo + (hi - lo) / 2;
            if out[mid] < x {
                lo = mid + 1;
            } else {
                hi = mid;
            }
        }
        let ghost before = out@;
        proof {
            assert(ids@.take(i + 1) =~= ids@.take(i as int).push(x));
        }
        if lo < out.len() && out[lo] == x {
            proof {
                let t1 = ids@.take(i + 1);
                let t0 = ids@.take(i as int);
                assert forall|y: u64| out@.contains(y) <==> t1.contains(y) by {
                    if t1.contains(y) {
                        let k = choose|k: int| 0 <= k < t1.len() && t1[k] == y;
                        if k < i {
                            assert(t0[k] == y);
                        }
                    }
                    if t0.contains(y) {
                        let k = choose|k: int| 0 <= k < t0.len() && t0[k] == y;
                        assert(t1[k] == y);
                    }
                }
            }
        } else {
            out.insert(lo, x);
            proof {
                let t1 = ids@.take(i + 1);
                let t0 = ids@.take(i as int);
                assert(out@ == before.insert(lo as int, x));
                assert forall|a: int, b: int| 0 <= a < b < out@.len() implies out@[a] < out@[b] by {
                    if b == lo {
                    } else if a == lo {
                        assert(out@[b] == before[b - 1]);
                    } else {
                    }
                }
                assert forall|y: u64| out@.contains(y) <==> t1.contains(y) by {
                    if out@.contains(y) {
                        let k = choose|k: int| 0 <= k < out@.len() && out@[k] == y;
                        if k < lo {
                            assert(before[k] == y);
                        } else if k > lo {
                            assert(before[k - 1] == y);
                        } else {
                            assert(t1[i as int] == y);
                        }
                    }
                    if before.contains(y) {
                        let k = choose|k: int| 0 <= k < before.len() && before[k] == y;
                        if k < lo {
                            assert(out@[k] == y);
                        } else {
                            assert(out@[k + 1] == y);
                        }
                    }
                    if t1.contains(y) {
                        let k = choose|k: int| 0 <= k < t1.len() && t1[k] == y;
                        if k < i {
                            assert(t0[k] == y);
                        } else {
                            assert(out@[lo as int] == y);
                        }
                    }
                    if t0.contains(y) {
                        let k = choose|k: int| 0 <= k < t0.len() && t0[k] == y;
                        assert(t1[k] == y);
                    }
                }
            }
        }
        i = i + 1;
    }
    proof {
        assert(ids@.take(i as int) =~= ids@);
    }
    out
}

/// The values both increasing `a` and increasing `b` hold, in increasing order.
fn intersect(a: &Vec<u64>, b: &Vec<u64>) -> (r: Vec<u64>)
    requires
        increasing(a@),
        increasing(b@),
    ensures
        increasing(r@),
        forall|x: u64| r@.contains(x) <==> a@.contains(x) && b@.contains(x),
{
    let mut out: Vec<u64> = Vec::new();
    let mut i: usize = 0;
    while i < a.len()
        invariant
            increasing(a@),
            increasing(b@),
            i <= a@.len(),
            increasing(out@),
            forall|j: int| 0 <= j < out@.len() ==> #[trigger] out@[j] < (if i < a@.len() { a@[i as int] } else { u64::MAX }) || i == a@.len(),
            forall|x: u64| out@.contains(x) <==> a@.take(i as int).contains(x) && b@.contains(x),
        decreases a@.len() - i,
    {
        let x = a[i];
        let ghost before = out@;
        proof {
            assert(a@.take(i + 1) =~= a@.take(i as int).push(x));
        }
        if contains_sorted(b, x) {
            out.push(x);
            proof {
                let t1 = a@.take(i + 1);
                let t0 = a@.take(i as int);
                assert forall|p: int, q: int| 0 <= p < q < out@.len() implies out@[p] < out@[q] by {
                    if q == out@.len() - 1 && p < q {
                        assert(before[p] < x);
                    }
                }
                assert forall|y: u64| out@.contains(y) <==> t1.contains(y) && b@.contains(y) by {
                    if out@.contains(y) {
                        let k = choose|k: int| 0 <= k < out@.len() && out@[k] == y;
                        if k < before.len() {
                            assert(before[k] == y);
                            assert(before.contains(y));
                            let m = choose|m: int| 0 <= m < t0.len() && t0[m] == y;
                            assert(t1[m] == y);
                        } else {
                            assert(t1[i as int] == y);
                        }
                    }
                    if t1.contains(y) && b@.contains(y) {
                        let m = choose|m: int| 0 <= m < t1.len() && t1[m] == y;
                        if m < i {
                            assert(t0[m] == y);
                            let k = choose|k: int| 0 <= k < before.len() && before[k] == y;
                            assert(out@[k] == y);
                        } else {
                            assert(out@[out@.len() - 1] == y);
                        }
                    }
                }
            }
        } else {
            proof {
                let t1 = a@.take(i + 1);
                let t0 = a@.take(i as int);
                assert forall|y: u64| out@.contains(y) <==> t1.contains(y) && b@.contains(y) by {
                    if t1.contains(y) && b@.contains(y) {
                        let m = choose|m: int| 0 <= m < t1.len() && t1[m] == y;
                        if m < i {
                            assert(t0[m] == y);
                        }
                    }
                    if t0.contains(y) {
                        let m = choose|m: int| 0 <= m < t0.len() && t0[m] == y;
                        assert(t1[m] == y);
                    }
                }
            }
        }
        i = i + 1;
        proof {
            assert forall|j: int| 0 <= j < out@.len() implies #[trigger] out@[j] < (if i < a@.len() { a@[i as int] } else { u64::MAX }) || i == a@.len() by {
                if i < a@.len() {
                    if j < before.len() {
                        assert(before[j] == out@[j]);
                    }
                    assert(a@[i - 1] < a@[i as int]);
                }
            }
        }
    }
    proof {
        assert(a@.take(i as int) =~= a@);
    }
    out
}

/// All indexed files, in increasing order of identifier.
pub struct All {
    pub ids: Vec<u64>,
    pub pos: usize,
}

impl All {
    /// Walks `iter`, which holds every indexed identifier in increasing order.
    pub fn new(iter: Vec<u64>) -> (r: All)
        requires
            increasing(iter@),
        ensures
            r.ids@ == iter@,
            r.pos == 0,
    {
        All { ids: iter, pos: 0 }
    }
}

/// The files whose content holds every trigram of a term.
pub struct ContentGrams {
    pub ids: Vec<u64>,
    pub pos: usize,
}

impl ContentGrams {
    /// Looks up the posting list of each trigram of `q` and intersects them;
    /// a term without trigrams matches nothing.
    pub fn new(q: String, index: &Index) -> (r: ContentGrams)
        requires
            index.wf(),
        ensures
            increasing(r.ids@),
            r.pos == 0,
            forall|x: u64| r.ids@.contains(x) <==> term_ids(index, q@).contains(x),
    {
        let grams = split_ngrams(q.as_str());
        let mut cur: Vec<u64> = Vec::new();
        if grams.len() == 0 {
            proof {
                assert forall|x: u64| cur@.contains(x) <==> term_ids(index, q@).contains(x) by {}
            }
            return ContentGrams { ids: cur, pos: 0 };
        }
        let mut j: usize = 0;
        while j < grams.len()
            invariant
                index.wf(),
                grams@.len() == q@.len() - 2,
                q@.len() >= 3,
                forall|i: int| 0 <= i < grams@.len() ==> #[trigger] grams@[i] == (crate::ngram::Ngram(trigram_at(q@, i)), i as u64),
                forall|i: int| 0 <= i < grams@.len() ==> (#[trigger] grams@[i]).0.wf(),
                j <= grams@.len(),
                increasing(cur@),
                forall|x: u64| cur@.contains(x) <==> (j > 0 && forall|i: int| 0 <= i < j ==> #[trigger] postings(index.content_ngrams.lookup(key_at(q@, i))).contains(x)),
            decreases grams@.len() - j,
        {
            let g = &grams[j].0;
            let text = g.to_string();
            proof {
                let cs = q@;
                let i = j as int;
                lemma_char_fits(cs[i]);
                lemma_char_fits(cs[i + 1]);
                lemma_char_fits(cs[i + 2]);
                lemma_round_trip(cs[i] as u64, cs[i + 1] as u64, cs[i + 2] as u64);
                assert(unpack(g.0) == (cs[i] as u64, cs[i + 1] as u64, cs[i + 2] as u64));
                lemma_char_injective(text@[0], cs[i]);
                lemma_char_injective(text@[1], cs[i + 1]);
                lemma_char_injective(text@[2], cs[i + 2]);
                assert(text@ =~= cs.subrange(i, i + 3));
            }
            let value = index.content_ngrams.get(text.as_str());
            let list = match FileIds::from_value(&value) {
                Some(l) => l,
                None => FileIds(Vec::new()),
            };
            let set = sorted_set(&list.0);
            let ghost prev = cur@;
            if j == 0 {
                cur = set;
            } else {
                cur = intersect(&cur, &set);
            }
            proof {
                assert forall|x: u64| cur@.contains(x) <==> (j + 1 > 0 && forall|i: int| 0 <= i < j + 1 ==> #[trigger] postings(index.content_ngrams.lookup(key_at(q@, i))).contains(x)) by {
                    if cur@.contains(x) {
                        assert forall|i: int| 0 <= i < j + 1 implies #[trigger] postings(index.content_ngrams.lookup(key_at(q@, i))).contains(x) by {
                            if i < j {
                                assert(prev.contains(x));
                            }
                        }
                    }
                    if forall|i: int| 0 <= i < j + 1 ==> #[trigger] postings(index.content_ngrams.lookup(key_at(q@, i))).contains(x) {
                        assert(postings(index.content_ngrams.lookup(key_at(q@, j as int))).contains(x));
                        if j > 0 {
                            assert(prev.contains(x));
                        }
                    }
                }
            }
            j = j + 1;
        }
        proof {
            assert forall|x: u64| cur@.contains(x) <==> term_ids(index, q@).contains(x) by {
                if term_ids(index, q@).contains(x) {
                    assert forall|i: int| 0 <= i < j implies #[trigger] postings(index.content_ngrams.lookup(key_at(q@, i))).contains(x) by {
                        assert(0 <= i <= q@.len() - 3);
                    }
                }
                if cur@.contains(x) {
                    assert forall|i: int| 0 <= i <= q@.len() - 3 implies #[trigger] postings(index.content_ngrams.lookup(key_at(q@, i))).contains(x) by {
                        assert(i < j);
                    }
                }
            }
        }
        ContentGrams { ids: cur, pos: 0 }
    }
}

/// Files that both operands match, driven by the left one.
pub struct And {
    pub lhs: Box<Matcher>,
    pub rhs: Box<Matcher>,
}

impl And {
    /// Joins two matchers; `lhs` drives the enumeration.
    pub fn new(lhs: Matcher, rhs: Matcher) -> (r: And)
        ensures
            *r.lhs == lhs,
            *r.rhs == rhs,
    {
        And { lhs: Box::new(lhs), rhs: Box::new(rhs) }
    }
}

/// Files that either operand matches, driven by the left one.
pub struct Or {
    pub lhs: Box<Matcher>,
    pub rhs: Box<Matcher>,
}

impl Or {
    /// Joins two matchers; `lhs` drives the enumeration.
    pub fn new(lhs: Matcher, rhs: Matcher) -> (r: Or)
        ensures
            *r.lhs == lhs,
            *r.rhs == rhs,
    {
        Or { lhs: Box::new(lhs), rhs: Box::new(rhs) }
    }
}

/// Files that the operand does not match; it enumerates nothing itself.
pub struct Not(pub Box<Matcher>);

impl Not {
    /// Inverts a matcher's membership test.
    pub fn new(q: Matcher) -> (r: Not)
        ensures
            *r.0 == q,
    {
        Not(Box::new(q))
    }
}

/// A merge iterator over file identifiers: it tests membership and yields,
/// in increasing order, the identifiers it enumerates.
pub enum Matcher {
    All(All),
    Leaf(ContentGrams),
    And(And),
    Or(Or),
    Not(Not),
}

impl Matcher {
    /// The depth of the tree of matchers.
    pub open spec fn height(&self) -> nat
        decreases self,
    {
        match self {
            Matcher::And(a) => 1 + vstd::math::max(a.lhs.height() as int, a.rhs.height() as int) as nat,
            Matcher::Or(o) => 1 + vstd::math::max(o.lhs.height() as int, o.rhs.height() as int) as nat,
            Matcher::Not(n) => 1 + n.0.height(),
            _ => 0,
        }
    }

    /// The identifiers it matches.
    pub open spec fn members(&self) -> Set<u64>
        decreases self,
    {
        match self {
            Matcher::All(a) => Set::new(|x: u64| a.ids@.contains(x)),
            Matcher::Leaf(c) => Set::new(|x: u64| c.ids@.contains(x)),
            Matcher::And(a) => a.lhs.members().intersect(a.rhs.members()),
            Matcher::Or(o) => o.lhs.members().union(o.rhs.members()),
            Matcher::Not(n) => n.0.members().complement(),
        }
    }

    /// The identifiers it is still to yield, in order.
    pub open spec fn remaining(&self) -> Seq<u64>
        decreases self,
    {
        match self {
            Matcher::All(a) => a.ids@.skip(a.pos as int),
            Matcher::Leaf(c) => c.ids@.skip(c.pos as int),
            Matcher::And(a) => keep(a.lhs.remaining(), a.rhs.members()),
            Matcher::Or(o) => keep(o.lhs.remaining(), o.lhs.members().union(o.rhs.members())),
            Matcher::Not(_) => Seq::empty(),
        }
    }

    /// Every enumerated list is strictly increasing, with its cursor inside it.
    pub open spec fn wf(&self) -> bool
        decreases self,
    {
        match self {
            Matcher::All(a) => increasing(a.ids@) && a.pos <= a.ids@.len(),
            Matcher::Leaf(c) => increasing(c.ids@) && c.pos <= c.ids@.len(),
            Matcher::And(a) => a.lhs.wf() && a.rhs.wf(),
            Matcher::Or(o) => o.lhs.wf() && o.rhs.wf(),
            Matcher::Not(n) => n.0.wf(),
        }
    }

    /// Whether it matches `fid`; consumes nothing.
    pub fn matches(&self, fid: u64) -> (r: bool)
        requires
            self.wf(),
        ensures
            r == self.members().contains(fid),
        decreases self.height(),
    {
        match self {
            Matcher::All(a) => contains_sorted(&a.ids, fid),
            Matcher::Leaf(c) => contains_sorted(&c.ids, fid),
            Matcher::And(a) => a.lhs.matches(fid) && a.rhs.matches(fid),
            Matcher::Or(o) => o.lhs.matches(fid) || o.rhs.matches(fid),
            Matcher::Not(n) => !n.0.matches(fid),
        }
    }

    /// Yields the next identifier, or `None` once it is exhausted.
    pub fn next(&mut self) -> (r: Option<u64>)
        requires
            old(self).wf(),
        ensures
            final(self).wf(),
            final(self).members() == old(self).members(),
            final(self).height() == old(self).height(),
            old(self).remaining().len() == 0 ==> r is None && final(self).remaining().len() == 0,
            old(self).remaining().len() > 0 ==> r == Some(old(self).remaining()[0])
                && final(self).remaining() == old(self).remaining().drop_first(),
        decreases old(self).height(), 1int,
    {
        match self {
            Matcher::All(a) => {
                if a.pos < a.ids.len() {
                    let x = a.ids[a.pos];
                    a.pos = a.pos + 1;
                    Some(x)
                } else {
                    None
                }
            },
            Matcher::Leaf(c) => {
                if c.pos < c.ids.len() {
                    let x = c.ids[c.pos];
                    c.pos = c.pos + 1;
                    Some(x)
                } else {
                    None
                }
            },
            Matcher::And(a) => a.advance(),
            Matcher::Or(o) => o.advance(),
            Matcher::Not(_) => None,
        }
    }
}

impl And {
    /// Pulls from the left operand until the right one matches.
    pub fn advance(&mut self) -> (r: Option<u64>)
        requires
            old(self).lhs.wf(),
            old(self).rhs.wf(),
        ensures
            final(self).lhs.wf(),
            final(self).rhs.wf(),
            *final(self).rhs == *old(self).rhs,
            final(self).lhs.members() == old(self).lhs.members(),
            final(self).lhs.height() == old(self).lhs.height(),
            ({
                let k = keep(old(self).lhs.remaining(), old(self).rhs.members());
                &&& k.len() == 0 ==> r is None && keep(final(self).lhs.remaining(), final(self).rhs.members()).len() == 0
                &&& k.len() > 0 ==> r == Some(k[0]) && keep(final(self).lhs.remaining(), final(self).rhs.members()) == k.drop_first()
            }),
        decreases old(self).lhs.height() + 1, 0int,
    {
        let ghost p = self.rhs.members();
        let ghost k0 = keep(self.lhs.remaining(), p);
        loop
            invariant
                self.lhs.wf(),
                self.rhs.wf(),
                *self.rhs == *old(self).rhs,
                p == self.rhs.members(),
                self.lhs.members() == old(self).lhs.members(),
                self.lhs.height() == old(self).lhs.height(),
                k0 == keep(old(self).lhs.remaining(), p),
                keep(self.lhs.remaining(), p) == k0,
            decreases self.lhs.remaining().len(),
        {
            match self.lhs.next() {
                None => {
                    return None;
                },
                Some(x) => {
                    if self.rhs.matches(x) {
                        return Some(x);
                    }
                },
            }
        }
    }
}

impl Or {
    /// Pulls from the left operand until either operand matches.
    pub fn advance(&mut self) -> (r: Option<u64>)
        requires
            old(self).lhs.wf(),
            old(self).rhs.wf(),
        ensures
            final(self).lhs.wf(),
            final(self).rhs.wf(),
            *final(self).rhs == *old(self).rhs,
            final(self).lhs.members() == old(self).lhs.members(),
            final(self).lhs.height() == old(self).lhs.height(),
            ({
                let p = old(self).lhs.members().union(old(self).rhs.members());
                let k = keep(old(self).lhs.remaining(), p);
                &&& k.len() == 0 ==> r is None && keep(final(self).lhs.remaining(), p).len() == 0
                &&& k.len() > 0 ==> r == Some(k[0]) && keep(final(self).lhs.remaining(), p) == k.drop_first()
            }),
        decreases old(self).lhs.height() + 1, 0int,
    {
        let ghost p = self.lhs.members().union(self.rhs.members());
        let ghost k0 = keep(self.lhs.remaining(), p);
        loop
            invariant
                self.lhs.wf(),
                self.rhs.wf(),
                *self.rhs == *old(self).rhs,
                p == old(self).lhs.members().union(self.rhs.members()),
                self.lhs.members() == old(self).lhs.members(),
                self.lhs.height() == old(self).lhs.height(),
                k0 == keep(old(self).lhs.remaining(), p),
                keep(self.lhs.remaining(), p) == k0,
            decreases self.lhs.remaining().len(),
        {
            match self.lhs.next() {
                None => {
                    return None;
                },
                Some(x) => {
                    if self.lhs.matches(x) || self.rhs.matches(x) {
                        return Some(x);
                    }
                },
            }
        }
    }
}

/// In strictly increasing metadata, the documents of the identifier at `i` are
/// those recorded there.
pub proof fn lemma_docs_of(idx: &Index, i: int)
    requires
        idx.wf(),
        0 <= i < idx.file_meta@.len(),
    ensures
        idx.docs_of(idx.file_meta@[i].id) == idx.file_meta@[i].docs@,
{
    let id = idx.file_meta@[i].id;
    let j = choose|j: int| 0 <= j < idx.file_meta@.len() && idx.file_meta@[j].id == id;
    if j < i {
        assert(idx.file_meta@[j].id < idx.file_meta@[i].id);
    } else if j > i {
        assert(idx.file_meta@[i].id < idx.file_meta@[j].id);
    }
}

impl Index {
    /// Where `id` stands among the records, or where it would be inserted.
    fn find_meta(&self, id: u64) -> (r: (bool, usize))
        requires
            self.wf(),
        ensures
            r.1 <= self.file_meta@.len(),
            r.0 ==> r.1 < self.file_meta@.len() && self.file_meta@[r.1 as int].id == id,
            !r.0 ==> forall|j: int| 0 <= j < r.1 ==> #[trigger] self.file_meta@[j].id < id,
            !r.0 ==> forall|j: int|
                r.1 <= j < self.file_meta@.len() ==> id < #[trigger] self.file_meta@[j].id,
    {
        let mut lo: usize = 0;
        let mut hi: usize = self.file_meta.len();
        while lo < hi
            invariant
                self.wf(),
                lo <= hi <= self.file_meta@.len(),
                forall|j: int| 0 <= j < lo ==> #[trigger] self.file_meta@[j].id < id,
                forall|j: int| hi <= j < self.file_meta@.len() ==> id < #[trigger] self.file_meta@[j].id,
            decreases hi - lo,
        {
            let mid = lo + (hi - lo) / 2;
            let m = self.file_meta[mid].id;
            if m == id {
                return (true, mid);
            } else if m < id {
                proof {
                    assert forall|j: int| 0 <= j < mid + 1 implies #[trigger] self.file_meta@[j].id < id by {
                        if j < mid {
                            assert(self.file_meta@[j].id < self.file_meta@[mid as int].id);
                        }
                    }
                }
                lo = mid + 1;
            } else {
                proof {
                    assert forall|j: int| mid <= j < self.file_meta@.len() implies id < #[trigger] self.file_meta@[j].id by {
                        if j > mid {
                            assert(self.file_meta@[mid as int].id < self.file_meta@[j].id);
                        }
                    }
                }
                hi = mid;
            }
        }
        (false, lo)
    }

    /// The documents recorded under `id`.
    fn docs_under(&self, id: u64, out: &mut Vec<Document>)
        requires
            self.wf(),
        ensures
            final(out)@ == old(out)@ + self.docs_of(id),
    {
        let (found, pos) = self.find_meta(id);
        if !found {
            proof {
                if exists|i: int| 0 <= i < self.file_meta@.len() && self.file_meta@[i].id == id {
                    let i = choose|i: int| 0 <= i < self.file_meta@.len() && self.file_meta@[i].id == id;
                    if i < pos {
                        assert(self.file_meta@[i].id < id);
                    } else {
                        assert(id < self.file_meta@[i].id);
                    }
                }
                assert(old(out)@ + self.docs_of(id) =~= old(out)@);
            }
            return;
        }
        proof {
            lemma_docs_of(self, pos as int);
        }
        let docs = &self.file_meta[pos].docs;
        let ghost start = out@;
        let mut i: usize = 0;
        while i < docs.len()
            invariant
                i <= docs@.len(),
                out@ == start + docs@.take(i as int),
            decreases docs@.len() - i,
        {
            out.push(copy_document(&docs[i]));
            proof {
                assert(start + docs@.take(i + 1) =~= (start + docs@.take(i as int)).push(docs@[i as int]));
            }
            i = i + 1;
        }
        proof {
            assert(docs@.take(i as int) =~= docs@);
        }
    }

    /// The merge iterator that evaluates `query`.
    fn match_iter(&self, query: &QueryNode) -> (r: Matcher)
        requires
            self.wf(),
        ensures
            r.wf(),
            r.members() == denotes(self, query.view()),
        decreases query,
    {
        match query {
            QueryNode::Or { lhs, rhs } => {
                let a = self.match_iter(lhs);
                let b = self.match_iter(rhs);
                Matcher::Or(Or::new(a, b))
            },
            QueryNode::And { lhs, rhs } => {
                let a = self.match_iter(lhs);
                let b = self.match_iter(rhs);
                Matcher::And(And::new(a, b))
            },
            QueryNode::Not(q) => Matcher::Not(Not::new(self.match_iter(q))),
            QueryNode::Term(t) => {
                let c = ContentGrams::new(t.clone(), self);
                let r = Matcher::Leaf(c);
                proof {
                    assert(r.members() =~= denotes(self, query.view()));
                }
                r
            },
            _ => {
                let r = Matcher::Leaf(ContentGrams { ids: Vec::new(), pos: 0 });
                proof {
                    assert(r.members() =~= denotes(self, query.view()));
                }
                r
            },
        }
    }

    /// The identifiers of all recorded files, in increasing order.
    fn all_ids(&self) -> (r: Vec<u64>)
        requires
            self.wf(),
        ensures
            r@ == self.ids(),
            increasing(r@),
    {
        let mut out: Vec<u64> = Vec::new();
        let mut i: usize = 0;
        while i < self.file_meta.len()
            invariant
                self.wf(),
                i <= self.file_meta@.len(),
                out@ == self.ids().take(i as int),
            decreases self.file_meta@.len() - i,
        {
            out.push(self.file_meta[i].id);
            proof {
                assert(self.ids().take(i + 1) =~= self.ids().take(i as int).push(self.file_meta@[i as int].id));
            }
            i = i + 1;
        }
        proof {
            assert(self.ids().take(i as int) =~= self.ids());
        }
        out
    }

    /// The documents of every indexed file that `query` matches, in increasing
    /// order of file identifier; the query is evaluated as `All AND query`.
    pub fn search(&self, query: QueryNode) -> (r: Vec<Document>)
        requires
            self.wf(),
        ensures
            r@ == docs_for(self, keep(self.ids(), denotes(self, query.view()))),
    {
        let ids = self.all_ids();
        let q = self.match_iter(&query);
        let all = Matcher::All(All::new(ids));
        proof {
            assert(all.wf());
            assert(all.remaining() =~= self.ids());
        }
        let mut top = Matcher::And(And::new(all, q));
        let ghost total = top.remaining();
        proof {
            assert(top.wf());
            assert(total == keep(self.ids(), denotes(self, query.view())));
        }
        let mut results: Vec<u64> = Vec::new();
        loop
            invariant
                top.wf(),
                results@ + top.remaining() == total,
            ensures
                results@ == total,
            decreases top.remaining().len(),
        {
            let ghost before = top.remaining();
            match top.next() {
                None => {
                    proof {
                        assert(results@ + top.remaining() =~= results@);
                    }
                    break;
                },
                Some(x) => {
                    proof {
                        assert(results@.push(x) + before.drop_first() =~= results@ + before);
                    }
                    results.push(x);
                },
            }
        }
        let mut out: Vec<Document> = Vec::new();
        let mut j: usize = 0;
        while j < results.len()
            invariant
                self.wf(),
                j <= results@.len(),
                out@ == docs_for(self, results@.take(j as int)),
            decreases results@.len() - j,
        {
            self.docs_under(results[j], &mut out);
            proof {
                assert(results@.take(j + 1).drop_last() =~= results@.take(j as int));
            }
            j = j + 1;
        }
        proof {
            assert(results@.take(j as int) =~= results@);
        }
        out
    }
}

impl Index {
    /// Appends `doc` to the documents recorded under `id`.
    fn record_document(&mut self, id: u64, doc: Document)
        requires
            old(self).wf(),
        ensures
            final(self).wf(),
            final(self).content_ngrams == old(self).content_ngrams,
            forall|x: u64| #[trigger] final(self).ids().contains(x) <==> old(self).ids().contains(x) || x == id,
            final(self).docs_of(id) == old(self).docs_of(id).push(doc),
            forall|x: u64| x != id ==> #[trigger] final(self).docs_of(x) == old(self).docs_of(x),
    {
        let ghost old_meta = self.file_meta@;
        let ghost old_self = *self;
        let (found, pos) = self.find_meta(id);
        if found {
            let mut m = self.file_meta.remove(pos);
            m.docs.push(doc);
            self.file_meta.insert(pos, m);
            proof {
                assert(self.file_meta@ =~= old_meta.update(pos as int, self.file_meta@[pos as int]));
                assert(self.wf()) by {
                    assert forall|i: int, j: int|
                        0 <= i < j < self.file_meta@.len() implies #[trigger] self.file_meta@[i].id
                        < #[trigger] self.file_meta@[j].id by {
                        assert(old_meta[i].id < old_meta[j].id);
                    }
                }
                lemma_docs_of(&old_self, pos as int);
                lemma_docs_of(self, pos as int);
                assert(self.ids() =~= old_self.ids());
                assert(old_self.ids()[pos as int] == id);
                assert(self.docs_of(id) =~= old_self.docs_of(id).push(doc));
                assert forall|x: u64| x != id implies #[trigger] self.docs_of(x) == old_self.docs_of(x) by {
                    if exists|i: int| 0 <= i < old_meta.len() && old_meta[i].id == x {
                        let i = choose|i: int| 0 <= i < old_meta.len() && old_meta[i].id == x;
                        lemma_docs_of(&old_self, i);
                        lemma_docs_of(self, i);
                    } else {
                        if exists|i: int| 0 <= i < self.file_meta@.len() && self.file_meta@[i].id == x {
                            let i = choose|i: int| 0 <= i < self.file_meta@.len() && self.file_meta@[i].id == x;
                            assert(old_meta[i].id == x);
                        }
                    }
                }
            }
        } else {
            let mut docs: Vec<Document> = Vec::new();
            docs.push(doc);
            self.file_meta.insert(pos, FileMeta { id, docs });
            proof {
                assert(self.file_meta@ =~= old_meta.insert(pos as int, self.file_meta@[pos as int]));
                assert(self.wf()) by {
                    assert forall|i: int, j: int|
                        0 <= i < j < self.file_meta@.len() implies #[trigger] self.file_meta@[i].id
                        < #[trigger] self.file_meta@[j].id by {
                        if i < pos && j > pos {
                            assert(old_meta[i].id < id && id < old_meta[j - 1].id);
                        } else if i > pos {
                            assert(old_meta[i - 1].id < old_meta[j - 1].id);
                        } else if j < pos {
                            assert(old_meta[i].id < old_meta[j].id);
                        }
                    }
                }
                lemma_docs_of(self, pos as int);
                if exists|i: int| 0 <= i < old_meta.len() && old_meta[i].id == id {
                    let i = choose|i: int| 0 <= i < old_meta.len() && old_meta[i].id == id;
                    if i < pos {
                        assert(old_meta[i].id < id);
                    } else {
                        assert(id < old_meta[i].id);
                    }
                }
                assert(self.docs_of(id) =~= old_self.docs_of(id).push(doc));
                assert forall|x: u64| #[trigger] self.ids().contains(x) <==> old_self.ids().contains(x) || x == id by {
                    if self.ids().contains(x) {
                        let i = choose|i: int| 0 <= i < self.ids().len() && self.ids()[i] == x;
                        if i < pos {
                            assert(old_self.ids()[i] == x);
                        } else if i > pos {
                            assert(old_self.ids()[i - 1] == x);
                        }
                    }
                    if old_self.ids().contains(x) {
                        let i = choose|i: int| 0 <= i < old_self.ids().len() && old_self.ids()[i] == x;
                        if i < pos {
                            assert(self.ids()[i] == x);
                        } else {
                            assert(self.ids()[i + 1] == x);
                        }
                    }
                    if x == id {
                        assert(self.ids()[pos as int] == x);
                    }
                }
                assert forall|x: u64| x != id implies #[trigger] self.docs_of(x) == old_self.docs_of(x) by {
                    if exists|i: int| 0 <= i < old_meta.len() && old_meta[i].id == x {
                        let i = choose|i: int| 0 <= i < old_meta.len() && old_meta[i].id == x;
                        lemma_docs_of(&old_self, i);
                        if i < pos {
                            lemma_docs_of(self, i);
                        } else {
                            lemma_docs_of(self, i + 1);
                        }
                    } else {
                        if exists|i: int| 0 <= i < self.file_meta@.len() && self.file_meta@[i].id == x {
                            let i = choose|i: int| 0 <= i < self.file_meta@.len() && self.file_meta@[i].id == x;
                            if i < pos {
                                assert(old_meta[i].id == x);
                            } else if i > pos {
                                assert(old_meta[i - 1].id == x);
                            }
                        }
                    }
                }
            }
        }
    }

    /// Records the file `filename` with `content`: a document under the file's
    /// identifier, and the identifier in the posting list of each trigram of each
    /// line. Returns the data files of the generations handed off meanwhile,
    /// oldest first, for the caller to make durable. Content longer than
    /// `MAX_SIZE` bytes is skipped: nothing changes and the result is `Ok(None)`.
    pub fn add_document(&mut self, filename: &str, content: &str) -> (r: Result<Option<Vec<Vec<u8>>>, StoreError>)
        requires
            old(self).wf(),
        ensures
            final(self).wf(),
            content.len() > MAX_SIZE ==> (r matches Ok(None)) && *final(self) == *old(self),
            content.len() <= MAX_SIZE ==> !(r matches Ok(None)),
            r matches Ok(Some(gs)) ==> final(self).content_ngrams.files() == old(self).content_ngrams.files()
                + byte_views(gs@),
            r is Err ==> r == Err::<Option<Vec<Vec<u8>>>, StoreError>(StoreError::TooLarge),
            r is Err ==> exists|k: Seq<u8>|
                #![trigger count_of(text_keys(content@), k)]
                count_of(text_keys(content@), k) > 0 && too_long(
                    k,
                    postings(old(self).content_ngrams.lookup(k)).len() + count_of(
                        text_keys(content@),
                        k,
                    ),
                ),
            content.len() <= MAX_SIZE ==> {
                let id = path_hash(filename@);
                &&& forall|x: u64| #[trigger] final(self).ids().contains(x) <==> old(self).ids().contains(x) || x == id
                &&& final(self).docs_of(id).len() == old(self).docs_of(id).len() + 1
                &&& final(self).docs_of(id).drop_last() == old(self).docs_of(id)
                &&& final(self).docs_of(id).last().filename@ == filename@
                &&& final(self).docs_of(id).last().content@ == content@
                &&& final(self).docs_of(id).last().file_type@ == "unknown"@
                &&& forall|x: u64| x != id ==> #[trigger] final(self).docs_of(x) == old(self).docs_of(x)
            },
            r matches Ok(Some(_)) ==> forall|k: Seq<u8>|
                #[trigger] gained(
                    old(self).content_ngrams.lookup(k),
                    final(self).content_ngrams.lookup(k),
                    count_of(text_keys(content@), k),
                    path_hash(filename@),
                ),
            r is Err ==> forall|k: Seq<u8>|
                #[trigger] partly_gained(
                    old(self).content_ngrams.lookup(k),
                    final(self).content_ngrams.lookup(k),
                    count_of(text_keys(content@), k),
                    path_hash(filename@),
                ),
    {
        if content.len() > MAX_SIZE {
            return Ok(None);
        }
        let file_id = hash_filename(filename);
        let id = file_id.0;
        let doc = Document {
            filename: filename.to_owned(),
            content: content.to_owned(),
            file_type: "unknown".to_owned(),
        };
        let ghost d = doc;
        let ghost start = *self;
        self.record_document(id, doc);
        let ghost mid = *self;
        match self.collect_trigrams(&file_id, content) {
            Err(e) => {
                proof {
                    assert(self.ids() =~= mid.ids());
                    assert forall|x: u64| #[trigger] self.docs_of(x) == mid.docs_of(x) by {}
                    assert(start.docs_of(id).push(d).drop_last() =~= start.docs_of(id));
                }
                Err(e)
            },
            Ok(gs) => {
                proof {
                    assert(self.ids() =~= mid.ids());
                    assert forall|x: u64| #[trigger] self.docs_of(x) == mid.docs_of(x) by {}
                    assert(start.docs_of(id).push(d).drop_last() =~= start.docs_of(id));
                    assert forall|k: Seq<u8>|
                        #[trigger] gained(
                            start.content_ngrams.lookup(k),
                            self.content_ngrams.lookup(k),
                            count_of(text_keys(content@), k),
                            id,
                        ) by {
                        assert(gained(mid.content_ngrams.lookup(k), self.content_ngrams.lookup(k), count_of(text_keys(content@), k), id));
                    }
                }
                Ok(Some(gs))
            },
        }
    }
}

} // verus!
