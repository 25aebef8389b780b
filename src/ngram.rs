use vstd::prelude::*;
use vstd::utf8::is_scalar;

verus! {

/// Number of characters in one n-gram.
pub const NGRAM_SIZE: usize = 3;

/// Width mask of one packed code point (21 bits).
pub const RUNE_MASK: u64 = 0x1f_ffff;

/// Packs three code points, 21 bits each, the first one most significant.
pub open spec fn pack(a: u64, b: u64, c: u64) -> u64 {
    (a << 42u64) | (b << 21u64) | c
}

/// The three 21-bit code points held in `x`, most significant first.
pub open spec fn unpack(x: u64) -> (u64, u64, u64) {
    ((x >> 42u64) & 0x1f_ffff, (x >> 21u64) & 0x1f_ffff, x & 0x1f_ffff)
}

/// Lexicographic order over triples.
pub open spec fn triple_lt(x: (u64, u64, u64), y: (u64, u64, u64)) -> bool {
    x.0 < y.0 || (x.0 == y.0 && (x.1 < y.1 || (x.1 == y.1 && x.2 < y.2)))
}

/// The packed key of the three characters of `cs` starting at `i`.
pub open spec fn trigram_at(cs: Seq<char>, i: int) -> u64 {
    pack(cs[i] as u64, cs[i + 1] as u64, cs[i + 2] as u64)
}

/// Decoding an encoded triple gives the triple back.
pub proof fn lemma_round_trip(a: u64, b: u64, c: u64)
    requires
        a <= RUNE_MASK,
        b <= RUNE_MASK,
        c <= RUNE_MASK,
    ensures
        unpack(pack(a, b, c)) == (a, b, c),
{
    assert(((((a << 42u64) | (b << 21u64) | c) >> 42u64) & 0x1f_ffff) == a && ((((a << 42u64) | (
    b << 21u64) | c) >> 21u64) & 0x1f_ffff) == b && ((((a << 42u64) | (b << 21u64) | c))
        & 0x1f_ffff) == c) by (bit_vector)
        requires
            a <= 0x1f_ffff,
            b <= 0x1f_ffff,
            c <= 0x1f_ffff,
    ;
}

/// Encoding preserves the lexicographic order of triples.
pub proof fn lemma_order(a: u64, b: u64, c: u64, d: u64, e: u64, f: u64)
    requires
        a <= RUNE_MASK,
        b <= RUNE_MASK,
        c <= RUNE_MASK,
        d <= RUNE_MASK,
        e <= RUNE_MASK,
        f <= RUNE_MASK,
    ensures
        (pack(a, b, c) < pack(d, e, f)) == triple_lt((a, b, c), (d, e, f)),
        (pack(a, b, c) == pack(d, e, f)) == (a == d && b == e && c == f),
{
    assert(((a << 42u64) | (b << 21u64) | c) == a * 0x400_0000_0000 + b * 0x20_0000 + c)
        by (bit_vector)
        requires
            a <= 0x1f_ffff,
            b <= 0x1f_ffff,
            c <= 0x1f_ffff,
    ;
    assert(((d << 42u64) | (e << 21u64) | f) == d * 0x400_0000_0000 + e * 0x20_0000 + f)
        by (bit_vector)
        requires
            d <= 0x1f_ffff,
            e <= 0x1f_ffff,
            f <= 0x1f_ffff,
    ;
    assert((a * 0x400_0000_0000 + b * 0x20_0000 + c < d * 0x400_0000_0000 + e * 0x20_0000 + f)
        == triple_lt((a, b, c), (d, e, f))) by (nonlinear_arith)
        requires
            a <= 0x1f_ffff,
            b <= 0x1f_ffff,
            c <= 0x1f_ffff,
            d <= 0x1f_ffff,
            e <= 0x1f_ffff,
            f <= 0x1f_ffff,
    ;
    assert((a * 0x400_0000_0000 + b * 0x20_0000 + c == d * 0x400_0000_0000 + e * 0x20_0000 + f)
        == (a == d && b == e && c == f)) by (nonlinear_arith)
        requires
            a <= 0x1f_ffff,
            b <= 0x1f_ffff,
            c <= 0x1f_ffff,
            d <= 0x1f_ffff,
            e <= 0x1f_ffff,
            f <= 0x1f_ffff,
    ;
}

/// Why a triple of code points cannot be encoded.
#[derive(Debug, PartialEq, Eq, Structural)]
pub enum NgramError {
    /// A code point does not fit in 21 bits.
    CodePointOutOfRange,
}

/// A trigram: three adjacent code points packed into one sortable `u64`.
#[derive(Debug, PartialEq, Eq, PartialOrd, Ord, Structural)]
pub struct Ngram(pub u64);

impl Ngram {
    /// All three packed code points are Unicode scalar values.
    pub open spec fn wf(self) -> bool {
        &&& is_scalar(unpack(self.0).0 as u32)
        &&& is_scalar(unpack(self.0).1 as u32)
        &&& is_scalar(unpack(self.0).2 as u32)
    }

    /// Encodes three code points, rejecting any that does not fit in 21 bits.
    pub fn from_code_points(a: u32, b: u32, c: u32) -> (r: Result<Ngram, NgramError>)
        ensures
            r is Ok <==> (a <= RUNE_MASK && b <= RUNE_MASK && c <= RUNE_MASK),
            r matches Ok(g) ==> g.0 == pack(a as u64, b as u64, c as u64),
    {
        if a as u64 > RUNE_MASK || b as u64 > RUNE_MASK || c as u64 > RUNE_MASK {
            return Err(NgramError::CodePointOutOfRange);
        }
        Ok(Ngram(((a as u64) << 42) | ((b as u64) << 21) | (c as u64)))
    }

    /// Encodes three characters.
    pub fn from_chars(val: [char; 3]) -> (r: Ngram)
        ensures
            r.0 == pack(val@[0] as u64, val@[1] as u64, val@[2] as u64),
            r.wf(),
    {
        let (a, b, c) = (val[0] as u32 as u64, val[1] as u32 as u64, val[2] as u32 as u64);
        proof {
            lemma_char_fits(val[0]);
            lemma_char_fits(val[1]);
            lemma_char_fits(val[2]);
            lemma_round_trip(a, b, c);
        }
        Ngram((a << 42) | (b << 21) | c)
    }

    /// The three characters, most significant first.
    pub fn to_runes(&self) -> (r: [char; 3])
        requires
            self.wf(),
        ensures
            r@[0] as u64 == unpack(self.0).0,
            r@[1] as u64 == unpack(self.0).1,
            r@[2] as u64 == unpack(self.0).2,
    {
        let x = self.0;
        let (a, b, c) = ((x >> 42) & RUNE_MASK, (x >> 21) & RUNE_MASK, x & RUNE_MASK);
        proof {
            assert((x >> 42u64) & 0x1f_ffff <= 0x1f_ffff) by (bit_vector);
            assert((x >> 21u64) & 0x1f_ffff <= 0x1f_ffff) by (bit_vector);
            assert(x & 0x1f_ffff <= 0x1f_ffff) by (bit_vector);
        }
        [rune_of(a as u32), rune_of(b as u32), rune_of(c as u32)]
    }

    /// The low byte of each of the three code points.
    pub fn to_bytes(&self) -> (r: [u8; 3])
        ensures
            r@[0] == (unpack(self.0).0 & 0xff) as u8,
            r@[1] == (unpack(self.0).1 & 0xff) as u8,
            r@[2] == (unpack(self.0).2 & 0xff) as u8,
    {
        [
            (((self.0 >> 42) & RUNE_MASK) & 0xff) as u8,
            (((self.0 >> 21) & RUNE_MASK) & 0xff) as u8,
            ((self.0 & RUNE_MASK) & 0xff) as u8,
        ]
    }

    /// The raw eight-byte little-endian form.
    pub fn to_le_bytes(&self) -> (r: Vec<u8>)
        ensures
            r@ == crate::bytes::le64(self.0),
    {
        let mut out: Vec<u8> = Vec::new();
        crate::bytes::push_le64(&mut out, self.0);
        proof {
            assert(out@ =~= crate::bytes::le64(self.0));
        }
        out
    }

    /// The trigram whose raw little-endian form is `b[0..8]`.
    pub fn from_le_bytes(b: &[u8]) -> (r: Ngram)
        requires
            b@.len() >= 8,
        ensures
            r.0 == crate::bytes::from_le64(b@.subrange(0, 8)),
    {
        Ngram(crate::bytes::read_le64(b, 0))
    }

    /// The text of the three characters.
    #[allow(clippy::inherent_to_string)]
    pub fn to_string(&self) -> (r: String)
        requires
            self.wf(),
        ensures
            r@.len() == 3,
            r@[0] as u64 == unpack(self.0).0,
            r@[1] as u64 == unpack(self.0).1,
            r@[2] as u64 == unpack(self.0).2,
    {
        let runes = self.to_runes();
        let r = text_of(&runes);
        r
    }
}

impl From<u64> for Ngram {
    fn from(val: u64) -> (r: Ngram) {
        Ngram(val)
    }
}

impl vstd::std_specs::convert::FromSpecImpl<u64> for Ngram {
    open spec fn obeys_from_spec() -> bool {
        true
    }

    open spec fn from_spec(val: u64) -> Ngram {
        Ngram(val)
    }
}

impl From<[char; 3]> for Ngram {
    fn from(val: [char; 3]) -> (r: Ngram) {
        Ngram::from_chars(val)
    }
}

impl vstd::std_specs::convert::FromSpecImpl<[char; 3]> for Ngram {
    open spec fn obeys_from_spec() -> bool {
        true
    }

    open spec fn from_spec(val: [char; 3]) -> Ngram {
        Ngram(pack(val@[0] as u64, val@[1] as u64, val@[2] as u64))
    }
}

impl From<&str> for Ngram {
    /// The trigram of the first three characters of `val`; missing ones count as `'\0'`.
    fn from(val: &str) -> (r: Ngram) {
        let cs = chars_of(val);
        let a = if cs.len() > 0 { cs[0] } else { '\0' };
        let b = if cs.len() > 1 { cs[1] } else { '\0' };
        let c = if cs.len() > 2 { cs[2] } else { '\0' };
        Ngram::from_chars([a, b, c])
    }
}

/// The code point at `i` of `s`, or zero past its end.
pub open spec fn char_or_nul(s: Seq<char>, i: int) -> u64 {
    if i < s.len() {
        s[i] as u64
    } else {
        0
    }
}

impl vstd::std_specs::convert::FromSpecImpl<&str> for Ngram {
    open spec fn obeys_from_spec() -> bool {
        true
    }

    open spec fn from_spec(val: &str) -> Ngram {
        Ngram(pack(char_or_nul(val@, 0), char_or_nul(val@, 1), char_or_nul(val@, 2)))
    }
}

/// Every character fits in 21 bits and is a scalar value.
pub proof fn lemma_char_fits(c: char)
    ensures
        c as u64 <= RUNE_MASK,
        c as u32 as u64 == c as u64,
        is_scalar(c as u32),
        is_scalar((c as u64) as u32),
{
}

/// Characters with one code point are equal.
pub proof fn lemma_char_injective(a: char, b: char)
    requires
        a as u64 == b as u64,
    ensures
        a == b,
{
}

/// The character with the scalar value `v`.
fn rune_of(v: u32) -> (r: char)
    requires
        is_scalar(v),
    ensures
        r as u32 == v,
{
    match char_from_u32(v) {
        Some(c) => c,
        None => '\0',
    }
}

/// Relies on char::from_u32: `Some` exactly for Unicode scalar values, holding that value.
#[verifier::external_body]
fn char_from_u32(v: u32) -> (r: Option<char>)
    ensures
        r is Some <==> is_scalar(v),
        r matches Some(c) ==> c as u32 == v,
{
    char::from_u32(v)
}

/// Relies on `String`'s `FromIterator<char>` (`collect`): the text holds the
/// characters in order.
#[verifier::external_body]
pub(crate) fn text_of(cs: &[char]) -> (r: String)
    ensures
        r@ == cs@,
{
    cs.iter().collect()
}

/// The characters of `s`, in order.
pub fn chars_of(s: &str) -> (r: Vec<char>)
    ensures
        r@ == s@,
{
    let mut out: Vec<char> = Vec::new();
    proof {
        vstd::string::axiom_spec_iter(s);
    }
    for c in iter: s.chars()
        invariant
            iter.seq() == s@,
            out@ == iter.seq().take(iter.index() as int),
    {
        proof {
            assert(iter.seq().take(iter.index() as int).push(c) =~= iter.seq().take(
                iter.index() + 1,
            ));
        }
        out.push(c);
    }
    proof {
        assert(out@ =~= s@);
    }
    out
}

/// The trigrams of `s` with their positions: one for every window of three
/// consecutive characters, none for text shorter than three characters.
pub fn split_ngrams(s: &str) -> (r: Vec<(Ngram, u64)>)
    ensures
        r@.len() == if s@.len() >= 3 { s@.len() - 2 } else { 0 },
        forall|i: int|
            0 <= i < r@.len() ==> #[trigger] r@[i] == (Ngram(trigram_at(s@, i)), i as u64),
        forall|i: int| 0 <= i < r@.len() ==> (#[trigger] r@[i]).0.wf(),
{
    let cs = chars_of(s);
    let mut result: Vec<(Ngram, u64)> = Vec::new();
    if cs.len() < NGRAM_SIZE {
        return result;
    }
    let n = cs.len() - 2;
    let mut i: usize = 0;
    while i < n
        invariant
            cs@ == s@,
            n == cs@.len() - 2,
            i <= n,
            result@.len() == i,
            forall|j: int|
                0 <= j < i ==> #[trigger] result@[j] == (Ngram(trigram_at(s@, j)), j as u64),
            forall|j: int| 0 <= j < i ==> (#[trigger] result@[j]).0.wf(),
        decreases n - i,
    {
        let g = Ngram::from_chars([cs[i], cs[i + 1], cs[i + 2]]);
        result.push((g, i as u64));
        proof {
            assert(result@[i as int].0 == Ngram(trigram_at(s@, i as int)));
        }
        i = i + 1;
    }
    result
}

} // verus!
