//! Byte-level encodings: lexicographic order on byte strings and the
//! fixed-width big-endian encoding of primary keys.
use vstd::bytes::*;
use vstd::prelude::*;

verus! {

/// Strict lexicographic order on byte strings; a proper prefix sorts first.
pub open spec fn lex_lt(a: Seq<u8>, b: Seq<u8>) -> bool
    decreases a.len(),
{
    if a.len() == 0 {
        b.len() > 0
    } else if b.len() == 0 {
        false
    } else if a[0] != b[0] {
        a[0] < b[0]
    } else {
        lex_lt(a.drop_first(), b.drop_first())
    }
}

pub proof fn lemma_lex_irreflexive(a: Seq<u8>)
    ensures
        !lex_lt(a, a),
    decreases a.len(),
{
    if a.len() > 0 {
        lemma_lex_irreflexive(a.drop_first());
    }
}

pub proof fn lemma_lex_total(a: Seq<u8>, b: Seq<u8>)
    ensures
        lex_lt(a, b) || lex_lt(b, a) || a == b,
    decreases a.len(),
{
    if a.len() > 0 && b.len() > 0 && a[0] == b[0] {
        lemma_lex_total(a.drop_first(), b.drop_first());
        if a.drop_first() == b.drop_first() {
            assert(a =~= seq![a[0]] + a.drop_first());
            assert(b =~= seq![b[0]] + b.drop_first());
        }
    }
    if a.len() == 0 && b.len() == 0 {
        assert(a =~= b);
    }
}

pub proof fn lemma_lex_transitive(a: Seq<u8>, b: Seq<u8>, c: Seq<u8>)
    requires
        lex_lt(a, b),
        lex_lt(b, c),
    ensures
        lex_lt(a, c),
    decreases a.len(),
{
    if a.len() > 0 && b.len() > 0 && c.len() > 0 && a[0] == b[0] && b[0] == c[0] {
        lemma_lex_transitive(a.drop_first(), b.drop_first(), c.drop_first());
    }
}

/// Compares two byte strings lexicographically.
pub fn lex_less(a: &[u8], b: &[u8]) -> (r: bool)
    ensures
        r == lex_lt(a@, b@),
{
    let mut i: usize = 0;
    assert(a@.skip(0) =~= a@);
    assert(b@.skip(0) =~= b@);
    while i < a.len() && i < b.len()
        invariant
            i <= a@.len(),
            i <= b@.len(),
            lex_lt(a@, b@) == lex_lt(a@.skip(i as int), b@.skip(i as int)),
        decreases a.len() - i,
    {
        if a[i] != b[i] {
            return a[i] < b[i];
        }
        assert(a@.skip(i as int).drop_first() =~= a@.skip(i + 1));
        assert(b@.skip(i as int).drop_first() =~= b@.skip(i + 1));
        i = i + 1;
    }
    i < b.len()
}

/// Compares two byte strings for equality.
pub fn bytes_eq(a: &[u8], b: &[u8]) -> (r: bool)
    ensures
        r == (a@ == b@),
{
    if a.len() != b.len() {
        return false;
    }
    let mut i: usize = 0;
    while i < a.len()
        invariant
            a@.len() == b@.len(),
            i <= a@.len(),
            forall|j: int| 0 <= j < i ==> a@[j] == b@[j],
        decreases a.len() - i,
    {
        if a[i] != b[i] {
            return false;
        }
        i = i + 1;
    }
    assert(a@ =~= b@);
    true
}

/// The width of a primary key type, one variant per unsigned integer width.
#[derive(Clone, Copy, Debug, PartialEq, Eq, Structural)]
pub enum KeyWidth {
    U8,
    U16,
    U32,
    U64,
}

impl KeyWidth {
    pub open spec fn bytes(self) -> nat {
        match self {
            KeyWidth::U8 => 1,
            KeyWidth::U16 => 2,
            KeyWidth::U32 => 4,
            KeyWidth::U64 => 8,
        }
    }

    /// The largest key of this width.
    pub open spec fn max_key(self) -> u64 {
        match self {
            KeyWidth::U8 => 0xff,
            KeyWidth::U16 => 0xffff,
            KeyWidth::U32 => 0xffff_ffff,
            KeyWidth::U64 => 0xffff_ffff_ffff_ffff,
        }
    }

    /// The largest key of this width.
    pub fn max_value(self) -> (r: u64)
        ensures
            r == self.max_key(),
    {
        match self {
            KeyWidth::U8 => 0xff,
            KeyWidth::U16 => 0xffff,
            KeyWidth::U32 => 0xffff_ffff,
            KeyWidth::U64 => 0xffff_ffff_ffff_ffff,
        }
    }
}

pub open spec fn reversed(s: Seq<u8>) -> Seq<u8> {
    Seq::new(s.len(), |i: int| s[s.len() - 1 - i])
}

/// The big-endian encoding of key `k` at width `w`: byte strings of one width
/// then sort as their numbers do.
pub open spec fn key_bytes(w: KeyWidth, k: u64) -> Seq<u8> {
    match w {
        KeyWidth::U8 => seq![k as u8],
        KeyWidth::U16 => reversed(spec_u16_to_le_bytes(k as u16)),
        KeyWidth::U32 => reversed(spec_u32_to_le_bytes(k as u32)),
        KeyWidth::U64 => reversed(spec_u64_to_le_bytes(k)),
    }
}

/// The key that a byte string encodes at width `w`, if its length fits.
pub open spec fn key_of(w: KeyWidth, s: Seq<u8>) -> Option<u64> {
    if s.len() != w.bytes() {
        None
    } else {
        match w {
            KeyWidth::U8 => Some(s[0] as u64),
            KeyWidth::U16 => Some(spec_u16_from_le_bytes(reversed(s)) as u64),
            KeyWidth::U32 => Some(spec_u32_from_le_bytes(reversed(s)) as u64),
            KeyWidth::U64 => Some(spec_u64_from_le_bytes(reversed(s))),
        }
    }
}

proof fn lemma_reversed_twice(s: Seq<u8>)
    ensures
        reversed(reversed(s)) == s,
        reversed(s).len() == s.len(),
{
    assert(reversed(reversed(s)) =~= s);
}

/// Decoding an encoded key gives the key back.
pub proof fn lemma_key_round_trip(w: KeyWidth, k: u64)
    requires
        k <= w.max_key(),
    ensures
        key_bytes(w, k).len() == w.bytes(),
        key_of(w, key_bytes(w, k)) == Some(k),
{
    lemma_auto_spec_u16_to_from_le_bytes();
    lemma_auto_spec_u32_to_from_le_bytes();
    lemma_auto_spec_u64_to_from_le_bytes();
    match w {
        KeyWidth::U8 => {
            assert(k as u8 as u64 == k);
        },
        KeyWidth::U16 => {
            lemma_reversed_twice(spec_u16_to_le_bytes(k as u16));
        },
        KeyWidth::U32 => {
            lemma_reversed_twice(spec_u32_to_le_bytes(k as u32));
        },
        KeyWidth::U64 => {
            lemma_reversed_twice(spec_u64_to_le_bytes(k));
        },
    }
}

fn reverse_bytes(s: Vec<u8>) -> (r: Vec<u8>)
    ensures
        r@ == reversed(s@),
{
    let mut r: Vec<u8> = Vec::new();
    let mut i: usize = s.len();
    while i > 0
        invariant
            i <= s@.len(),
            r@.len() == s@.len() - i,
            forall|j: int| 0 <= j < r@.len() ==> r@[j] == s@[s@.len() - 1 - j],
        decreases i,
    {
        i = i - 1;
        r.push(s[i]);
    }
    assert(r@ =~= reversed(s@));
    r
}

/// Encodes key `k` at width `w`.
pub fn encode_key(w: KeyWidth, k: u64) -> (r: Vec<u8>)
    requires
        k <= w.max_key(),
    ensures
        r@ == key_bytes(w, k),
        r@.len() == w.bytes(),
        key_of(w, r@) == Some(k),
{
    proof {
        lemma_key_round_trip(w, k);
    }
    match w {
        KeyWidth::U8 => vec![k as u8],
        KeyWidth::U16 => reverse_bytes(u16_to_le_bytes(k as u16)),
        KeyWidth::U32 => reverse_bytes(u32_to_le_bytes(k as u32)),
        KeyWidth::U64 => reverse_bytes(u64_to_le_bytes(k)),
    }
}

/// Decodes a key of width `w`; `None` when the length does not match.
pub fn decode_key(w: KeyWidth, s: &[u8]) -> (r: Option<u64>)
    ensures
        r == key_of(w, s@),
        r matches Some(k) ==> k <= w.max_key(),
{
    if s.len() != w.width() {
        return None;
    }
    let mut v: Vec<u8> = Vec::new();
    let mut i: usize = s.len();
    while i > 0
        invariant
            i <= s@.len(),
            v@.len() == s@.len() - i,
            forall|j: int| 0 <= j < v@.len() ==> v@[j] == s@[s@.len() - 1 - j],
        decreases i,
    {
        i = i - 1;
        v.push(s[i]);
    }
    assert(v@ =~= reversed(s@));
    match w {
        KeyWidth::U8 => Some(s[0] as u64),
        KeyWidth::U16 => Some(u16_from_le_bytes(v.as_slice()) as u64),
        KeyWidth::U32 => Some(u32_from_le_bytes(v.as_slice()) as u64),
        KeyWidth::U64 => Some(u64_from_le_bytes(v.as_slice())),
    }
}

impl KeyWidth {
    /// The number of bytes in an encoded key of this width.
    pub fn width(self) -> (r: usize)
        ensures
            r == self.bytes(),
    {
        match self {
            KeyWidth::U8 => 1,
            KeyWidth::U16 => 2,
            KeyWidth::U32 => 4,
            KeyWidth::U64 => 8,
        }
    }
}

} // verus!
