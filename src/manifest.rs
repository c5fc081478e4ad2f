//! Names of manifest log segments: `MANIFEST-` followed by a sequence
//! number.
use vstd::prelude::*;
use vstd::string::StringSliceAdditionalSpecFns;

verus! {

/// Why a segment name was refused.
#[derive(Debug, Clone, Copy, PartialEq, Eq, Structural)]
pub enum ManifestError {
    /// The name does not start with `MANIFEST-`.
    MissingPrefix,
    /// What follows the prefix is not a number that fits a `u64`.
    InvalidNumber,
}

/// The bytes of `MANIFEST-`.
pub open spec fn prefix() -> Seq<u8> {
    seq![0x4du8, 0x41u8, 0x4eu8, 0x49u8, 0x46u8, 0x45u8, 0x53u8, 0x54u8, 0x2du8]
}

pub open spec fn has_prefix(s: Seq<u8>) -> bool {
    s.len() >= 9 && s.subrange(0, 9) == prefix()
}

/// `s` with every leading copy of the prefix taken off.
pub open spec fn strip_prefixes(s: Seq<u8>) -> Seq<u8>
    decreases s.len(),
{
    if has_prefix(s) {
        strip_prefixes(s.skip(9))
    } else {
        s
    }
}

pub open spec fn is_digit(b: u8) -> bool {
    0x30u8 <= b <= 0x39u8
}

/// The number that a string of decimal digits spells.
pub open spec fn digits_value(s: Seq<u8>) -> nat
    decreases s.len(),
{
    if s.len() == 0 {
        0
    } else {
        digits_value(s.drop_last()) * 10 + (s.last() - 0x30u8) as nat
    }
}

/// An unsigned decimal number as `u64` parsing reads it: an optional `+`,
/// then one or more digits, with a value that fits.
pub open spec fn parse_u64(s: Seq<u8>) -> Option<u64> {
    parse_digits(
        if s.len() > 0 && s[0] == 0x2bu8 {
            s.skip(1)
        } else {
            s
        },
    )
}

/// One or more digits spelling a value that fits a `u64`.
pub open spec fn parse_digits(d: Seq<u8>) -> Option<u64> {
    if d.len() > 0 && (forall|i: int| 0 <= i < d.len() ==> is_digit(#[trigger] d[i]))
        && digits_value(d) <= u64::MAX {
        Some(digits_value(d) as u64)
    } else {
        None
    }
}

/// What checking a segment name gives.
pub open spec fn manifest_number(s: Seq<u8>) -> Result<u64, ManifestError> {
    if !has_prefix(s) {
        Err(ManifestError::MissingPrefix)
    } else {
        match parse_u64(strip_prefixes(s)) {
            Some(n) => Ok(n),
            None => Err(ManifestError::InvalidNumber),
        }
    }
}

fn starts_with_prefix(s: &[u8], at: usize) -> (r: bool)
    requires
        at <= s@.len(),
    ensures
        r == has_prefix(s@.skip(at as int)),
{
    let p: [u8; 9] = [0x4du8, 0x41u8, 0x4eu8, 0x49u8, 0x46u8, 0x45u8, 0x53u8, 0x54u8, 0x2du8];
    assert(p@ =~= prefix());
    if s.len() - at < 9 {
        return false;
    }
    let mut i: usize = 0;
    let len = s.len();
    while i < 9
        invariant
            len == s@.len(),
            at + 9 <= s@.len(),
            p@ == prefix(),
            i <= 9,
            forall|j: int| 0 <= j < i ==> s@[at + j] == prefix()[j],
        decreases 9 - i,
    {
        if s[at + i] != p[i] {
            assert(s@.skip(at as int).subrange(0, 9)[i as int] != prefix()[i as int]);
            return false;
        }
        i = i + 1;
    }
    assert(s@.skip(at as int).subrange(0, 9) =~= prefix());
    true
}

/// Reads the sequence number of a segment name; the prefix must lead, and
/// every leading copy of it is skipped before the number.
pub fn validate_manifest_file_name(name: &str) -> (r: Result<u64, ManifestError>)
    ensures
        r == manifest_number(name.spec_bytes()),
{
    let s = name.as_bytes();
    if !starts_with_prefix(s, 0) {
        assert(s@.skip(0) =~= s@);
        return Err(ManifestError::MissingPrefix);
    }
    assert(s@.skip(0) =~= s@);
    let mut at: usize = 0;
    let len = s.len();
    while starts_with_prefix(s, at)
        invariant
            s@ == name.spec_bytes(),
            has_prefix(s@),
            len == s@.len(),
            at <= s@.len(),
            strip_prefixes(s@.skip(at as int)) == strip_prefixes(s@),
        decreases s@.len() - at,
    {
        assert(s@.skip(at as int).skip(9) =~= s@.skip(at + 9));
        at = at + 9;
    }
    let ghost rest = s@.skip(at as int);
    let mut i: usize = at;
    if i < s.len() && s[i] == 0x2bu8 {
        i = i + 1;
    }
    proof {
        let d = if rest.len() > 0 && rest[0] == 0x2bu8 {
            rest.skip(1)
        } else {
            rest
        };
        assert(d =~= s@.skip(i as int));
    }
    if i == s.len() {
        return Err(ManifestError::InvalidNumber);
    }
    let start = i;
    let mut v: u64 = 0;
    proof {
        assert(manifest_number(s@) == match parse_digits(s@.skip(start as int)) {
            Some(n) => Ok(n),
            None => Err(ManifestError::InvalidNumber),
        });
    }
    while i < s.len()
        invariant
            s@ == name.spec_bytes(),
            manifest_number(s@) == match parse_digits(s@.skip(start as int)) {
                Some(n) => Ok(n),
                None => Err(ManifestError::InvalidNumber),
            },
            start <= i <= s@.len(),
            start < s@.len(),
            v as nat == digits_value(s@.subrange(start as int, i as int)),
            forall|j: int| start <= j < i ==> is_digit(s@[j]),
        decreases s@.len() - i,
    {
        let b = s[i];
        if b < 0x30u8 || b > 0x39u8 {
            proof {
                let d = s@.skip(start as int);
                assert(d[i - start] == s@[i as int]);
                assert(!is_digit(d[i - start]));
                assert(parse_digits(d) is None);
            }
            return Err(ManifestError::InvalidNumber);
        }
        let digit = (b - 0x30u8) as u64;
        proof {
            let t = s@.subrange(start as int, i + 1);
            assert(t.drop_last() =~= s@.subrange(start as int, i as int));
        }
        if v > (u64::MAX - digit) / 10 {
            proof {
                let d = s@.skip(start as int);
                if forall|j: int| 0 <= j < d.len() ==> is_digit(#[trigger] d[j]) {
                    lemma_digits_prefix_le(d, (i + 1 - start) as int);
                }
                assert(d.subrange(0, (i + 1 - start) as int) =~= s@.subrange(start as int, i + 1));
                assert(v * 10 + digit > u64::MAX) by (nonlinear_arith)
                    requires
                        v > (u64::MAX - digit) / 10,
                        digit <= 9,
                ;
                let t = s@.subrange(start as int, i + 1);
                assert(t.last() == b);
                assert(digits_value(t) == digits_value(t.drop_last()) * 10 + digit);
                assert(digits_value(t) > u64::MAX);
                assert(parse_digits(d) is None);
            }
            return Err(ManifestError::InvalidNumber);
        }
        assert(v * 10 + digit <= u64::MAX) by (nonlinear_arith)
            requires
                v <= (u64::MAX - digit) / 10,
                digit <= 9,
        ;
        v = v * 10 + digit;
        i = i + 1;
    }
    proof {
        assert(s@.subrange(start as int, i as int) =~= s@.skip(start as int));
    }
    Ok(v)
}

/// A number spelled by digits is at least the number any prefix of them
/// spells.
proof fn lemma_digits_prefix_le(d: Seq<u8>, n: int)
    requires
        0 <= n <= d.len(),
        forall|i: int| 0 <= i < d.len() ==> is_digit(#[trigger] d[i]),
    ensures
        digits_value(d.subrange(0, n)) <= digits_value(d),
    decreases d.len() - n,
{
    if n < d.len() {
        lemma_digits_prefix_le(d, n + 1);
        let t = d.subrange(0, n + 1);
        assert(t.drop_last() =~= d.subrange(0, n));
    } else {
        assert(d.subrange(0, n) =~= d);
    }
}

/// A manifest segment: its file name and sequence number.
#[derive(Debug, PartialEq, Eq)]
pub struct Current {
    pub pointer: String,
    pub sequence_num: u64,
}

impl Current {
    pub fn new(pointer: &str, sequence_num: u64) -> (r: Current)
        ensures
            r.pointer@ == pointer@,
            r.sequence_num == sequence_num,
    {
        Current { pointer: pointer.to_owned(), sequence_num }
    }
}

} // verus!
