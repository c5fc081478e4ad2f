//! Log entries and their on-disk framing.
//!
//! An entry is framed as a little-endian `u64` length followed by a record of
//! that many bytes: the CRC-32 (iSCSI polynomial) as `u32`, the timestamp in
//! nanoseconds as `u128`, the table name as a `u64` length and its UTF-8
//! bytes, the schema version as `u16`, the key as a `u64` length and its bytes,
//! and the value as a presence byte (0 or 1) followed, when present, by a `u64`
//! length and its bytes. The checksum covers the timestamp, the table name,
//! the version, the key and the value bytes (none for a tombstone).
use vstd::bytes::*;
use vstd::prelude::*;

verus! {

/// The checksum that the iSCSI CRC-32 gives for a byte string.
pub uninterp spec fn crc32_iscsi_of(bytes: Seq<u8>) -> u32;

/// Relies on `crc::Crc::<u32>::checksum` with `crc::CRC_32_ISCSI`: the
/// checksum is a function of the bytes alone.
#[verifier::external_body]
pub(crate) fn crc32_iscsi(bytes: &[u8]) -> (r: u32)
    ensures
        r == crc32_iscsi_of(bytes@),
{
    crc::Crc::<u32>::new(&crc::CRC_32_ISCSI).checksum(bytes)
}

/// One mutation of one table, as the log holds it.
#[derive(Debug)]
pub struct Item {
    pub crc: u32,
    pub timestamp: u128,
    pub table: Vec<u8>,
    pub version: u16,
    pub key: Vec<u8>,
    pub value: Option<Vec<u8>>,
}

/// The model of an entry: (crc, timestamp, table, version, key, value).
pub type EntryModel = (u32, u128, Seq<u8>, u16, Seq<u8>, Option<Seq<u8>>);

pub open spec fn opt_bytes(v: Option<Vec<u8>>) -> Option<Seq<u8>> {
    match v {
        Some(d) => Some(d@),
        None => None,
    }
}

impl View for Item {
    type V = EntryModel;

    open spec fn view(&self) -> EntryModel {
        (self.crc, self.timestamp, self.table@, self.version, self.key@, opt_bytes(self.value))
    }
}

/// The bytes that an entry's checksum covers.
pub open spec fn crc_input(e: EntryModel) -> Seq<u8> {
    spec_u128_to_le_bytes(e.1) + e.2 + spec_u16_to_le_bytes(e.3) + e.4 + match e.5 {
        Some(v) => v,
        None => Seq::empty(),
    }
}

/// An entry whose stored checksum matches its contents.
pub open spec fn crc_ok(e: EntryModel) -> bool {
    e.0 == crc32_iscsi_of(crc_input(e))
}

/// A byte string with its `u64` length in front.
pub open spec fn sized(s: Seq<u8>) -> Seq<u8> {
    spec_u64_to_le_bytes(s.len() as u64) + s
}

/// The lengths in an entry fit its framing.
pub open spec fn entry_fits(e: EntryModel) -> bool {
    &&& e.2.len() <= u64::MAX
    &&& e.4.len() <= u64::MAX
    &&& match e.5 {
        Some(v) => v.len() <= u64::MAX,
        None => true,
    }
    &&& record_bytes(e).len() <= u64::MAX
}

/// The record of an entry, without its length prefix.
pub open spec fn record_bytes(e: EntryModel) -> Seq<u8> {
    spec_u32_to_le_bytes(e.0) + spec_u128_to_le_bytes(e.1) + sized(e.2) + spec_u16_to_le_bytes(e.3)
        + sized(e.4) + match e.5 {
        Some(v) => seq![1u8] + sized(v),
        None => seq![0u8],
    }
}

/// The framed entry.
pub open spec fn frame(e: EntryModel) -> Seq<u8> {
    sized(record_bytes(e))
}

/// The log that a sequence of entries makes, frame after frame.
pub open spec fn log_bytes(es: Seq<EntryModel>) -> Seq<u8>
    decreases es.len(),
{
    if es.len() == 0 {
        Seq::empty()
    } else {
        log_bytes(es.drop_last()) + frame(es.last())
    }
}

pub open spec fn le64_at(s: Seq<u8>, p: int) -> int {
    spec_u64_from_le_bytes(s.subrange(p, p + 8)) as int
}

/// Reads a record; `None` unless the bytes hold exactly one well-formed record.
pub open spec fn parse_record(b: Seq<u8>) -> Option<EntryModel> {
    if b.len() < 28 {
        None
    } else {
        let crc = spec_u32_from_le_bytes(b.subrange(0, 4));
        let ts = spec_u128_from_le_bytes(b.subrange(4, 20));
        let tl = le64_at(b, 20);
        let p = 28 + tl;
        if b.len() < p + 10 {
            None
        } else {
            let table = b.subrange(28, p);
            let ver = spec_u16_from_le_bytes(b.subrange(p, p + 2));
            let kl = le64_at(b, p + 2);
            let q = p + 10 + kl;
            if b.len() < q + 1 {
                None
            } else {
                let key = b.subrange(p + 10, q);
                if b[q] == 0u8 {
                    if b.len() == q + 1 {
                        Some((crc, ts, table, ver, key, None))
                    } else {
                        None
                    }
                } else if b[q] == 1u8 {
                    if b.len() - q < 9 {
                        None
                    } else {
                        let vl = le64_at(b, q + 1);
                        if b.len() == q + 9 + vl {
                            Some((crc, ts, table, ver, key, Some(b.subrange(q + 9, q + 9 + vl))))
                        } else {
                            None
                        }
                    }
                } else {
                    None
                }
            }
        }
    }
}

/// Reads the frame at the front of `s`: the entry, if its record is
/// well-formed, and the frame's length; `None` when no whole frame is there.
pub open spec fn parse_frame(s: Seq<u8>) -> Option<(Option<EntryModel>, nat)> {
    if s.len() < 8 {
        None
    } else {
        let n = le64_at(s, 0);
        if s.len() - 8 < n {
            None
        } else {
            Some((parse_record(s.subrange(8, 8 + n)), (8 + n) as nat))
        }
    }
}

fn take(s: &[u8], pos: usize, n: usize) -> (r: Vec<u8>)
    requires
        pos + n <= s@.len(),
    ensures
        r@ == s@.subrange(pos as int, pos + n),
{
    let mut r: Vec<u8> = Vec::new();
    let mut i: usize = 0;
    let len = s.len();
    while i < n
        invariant
            len == s@.len(),
            pos + n <= s@.len(),
            i <= n,
            r@ == s@.subrange(pos as int, pos + i),
        decreases n - i,
    {
        r.push(s[pos + i]);
        i = i + 1;
        assert(r@ =~= s@.subrange(pos as int, pos + i));
    }
    r
}

fn read_u64(s: &[u8], pos: usize) -> (r: u64)
    requires
        pos + 8 <= s@.len(),
    ensures
        r as int == le64_at(s@, pos as int),
{
    let v = take(s, pos, 8);
    u64_from_le_bytes(v.as_slice())
}

pub(crate) fn append_all(out: &mut Vec<u8>, s: &[u8])
    ensures
        final(out)@ == old(out)@ + s@,
{
    let mut i: usize = 0;
    while i < s.len()
        invariant
            i <= s@.len(),
            out@ == old(out)@ + s@.subrange(0, i as int),
        decreases s.len() - i,
    {
        out.push(s[i]);
        i = i + 1;
        assert(out@ =~= old(out)@ + s@.subrange(0, i as int));
    }
    assert(s@.subrange(0, s@.len() as int) =~= s@);
}

fn append_sized(out: &mut Vec<u8>, s: &[u8])
    requires
        s@.len() <= u64::MAX,
    ensures
        final(out)@ == old(out)@ + sized(s@),
{
    let n = u64_to_le_bytes(s.len() as u64);
    append_all(out, n.as_slice());
    append_all(out, s);
    assert(out@ =~= old(out)@ + sized(s@));
}

impl Item {
    /// The bytes that the checksum covers.
    pub fn crc_bytes(&self) -> (r: Vec<u8>)
        ensures
            r@ == crc_input(self@),
    {
        let mut out = u128_to_le_bytes(self.timestamp);
        append_all(&mut out, self.table.as_slice());
        let v = u16_to_le_bytes(self.version);
        append_all(&mut out, v.as_slice());
        append_all(&mut out, self.key.as_slice());
        match &self.value {
            Some(d) => append_all(&mut out, d.as_slice()),
            None => {},
        }
        assert(out@ =~= crc_input(self@));
        out
    }

    /// The checksum of the entry's contents.
    pub fn calculate_crc(&self) -> (r: u32)
        ensures
            r == crc32_iscsi_of(crc_input(self@)),
    {
        let b = self.crc_bytes();
        crc32_iscsi(b.as_slice())
    }

    /// Makes an entry and seals it with its checksum.
    pub fn new(
        table: Vec<u8>,
        timestamp: u128,
        version: u16,
        key: Vec<u8>,
        value: Option<Vec<u8>>,
    ) -> (r: Item)
        ensures
            r.table@ == table@,
            r.timestamp == timestamp,
            r.version == version,
            r.key@ == key@,
            opt_bytes(r.value) == opt_bytes(value),
            crc_ok(r@),
    {
        let mut e = Item { crc: 0, timestamp, table, version, key, value };
        e.crc = e.calculate_crc();
        e
    }

    /// Whether the stored checksum matches `computed`, the checksum of the
    /// entry's contents.
    pub fn check(&self, computed: u32) -> (r: bool)
        ensures
            r == (self.crc == computed),
    {
        self.crc == computed
    }

    /// Whether the stored checksum matches the entry's contents.
    pub fn is_valid(&self) -> (r: bool)
        ensures
            r == crc_ok(self@),
    {
        let c = self.calculate_crc();
        self.check(c)
    }

    /// Frames the entry for the log.
    pub fn encode(&self) -> (r: Vec<u8>)
        requires
            entry_fits(self@),
        ensures
            r@ == frame(self@),
    {
        let mut rec = u32_to_le_bytes(self.crc);
        let ts = u128_to_le_bytes(self.timestamp);
        append_all(&mut rec, ts.as_slice());
        append_sized(&mut rec, self.table.as_slice());
        let v = u16_to_le_bytes(self.version);
        append_all(&mut rec, v.as_slice());
        append_sized(&mut rec, self.key.as_slice());
        match &self.value {
            Some(d) => {
                rec.push(1u8);
                append_sized(&mut rec, d.as_slice());
            },
            None => {
                rec.push(0u8);
            },
        }
        assert(rec@ =~= record_bytes(self@));
        let mut out: Vec<u8> = Vec::new();
        append_sized(&mut out, rec.as_slice());
        assert(out@ =~= frame(self@));
        out
    }
}

/// Reads one record from `b`.
fn decode_record(b: &[u8]) -> (r: Option<Item>)
    ensures
        match r {
            Some(e) => parse_record(b@) == Some(e@),
            None => parse_record(b@) is None,
        },
{
    if b.len() < 28 {
        return None;
    }
    let crc = u32_from_le_bytes(take(b, 0, 4).as_slice());
    let ts = u128_from_le_bytes(take(b, 4, 16).as_slice());
    let tl = read_u64(b, 20);
    if ((b.len() - 28) as u64) < tl || ((b.len() - 28) as u64 - tl) < 10 {
        return None;
    }
    let p: usize = 28 + tl as usize;
    let table = take(b, 28, tl as usize);
    let ver = u16_from_le_bytes(take(b, p, 2).as_slice());
    let kl = read_u64(b, p + 2);
    if ((b.len() - p - 10) as u64) < kl || ((b.len() - p - 10) as u64 - kl) < 1 {
        return None;
    }
    let q: usize = p + 10 + kl as usize;
    let key = take(b, p + 10, kl as usize);
    if b[q] == 0u8 {
        if b.len() == q + 1 {
            Some(Item { crc, timestamp: ts, table, version: ver, key, value: None })
        } else {
            None
        }
    } else if b[q] == 1u8 {
        if b.len() - q < 9 {
            return None;
        }
        let vl = read_u64(b, q + 1);
        if ((b.len() - q - 9) as u64) == vl {
            let value = take(b, q + 9, vl as usize);
            Some(Item { crc, timestamp: ts, table, version: ver, key, value: Some(value) })
        } else {
            None
        }
    } else {
        None
    }
}

/// Reads the frame at `pos`: the entry, if well-formed, and the position
/// after the frame; `None` when no whole frame is there.
pub fn decode_frame(s: &[u8], pos: usize) -> (r: Option<(Option<Item>, usize)>)
    requires
        pos <= s@.len(),
    ensures
        match r {
            Some((e, next)) => {
                &&& parse_frame(s@.skip(pos as int)) is Some
                &&& next == pos + parse_frame(s@.skip(pos as int)).unwrap().1
                &&& parse_frame(s@.skip(pos as int)).unwrap().0 == match e {
                    Some(e) => Some(e@),
                    None => None::<EntryModel>,
                }
            },
            None => parse_frame(s@.skip(pos as int)) is None,
        },
{
    let ghost t = s@.skip(pos as int);
    if s.len() - pos < 8 {
        return None;
    }
    let n = read_u64(s, pos);
    assert(s@.subrange(pos as int, pos + 8) =~= t.subrange(0, 8));
    if ((s.len() - pos - 8) as u64) < n {
        return None;
    }
    let body = take(s, pos + 8, n as usize);
    assert(body@ =~= t.subrange(8, 8 + n));
    let e = decode_record(body.as_slice());
    Some((e, pos + 8 + n as usize))
}

/// What replaying a log yields: each well-formed frame whose checksum
/// matches, in log order, up to the first incomplete frame.
pub open spec fn replay_valid(s: Seq<u8>) -> Seq<EntryModel>
    decreases s.len(),
{
    match parse_frame(s) {
        None => Seq::empty(),
        Some((pe, n)) => if 8 <= n <= s.len() {
            let rest = replay_valid(s.skip(n as int));
            match pe {
                Some(e) => if crc_ok(e) {
                    seq![e] + rest
                } else {
                    rest
                },
                None => rest,
            }
        } else {
            Seq::empty()
        },
    }
}

/// The number of whole frames in a log that replay drops as corrupt.
pub open spec fn replay_corrupt(s: Seq<u8>) -> nat
    decreases s.len(),
{
    match parse_frame(s) {
        None => 0,
        Some((pe, n)) => if 8 <= n <= s.len() {
            let rest = replay_corrupt(s.skip(n as int));
            match pe {
                Some(e) => if crc_ok(e) {
                    rest
                } else {
                    rest + 1
                },
                None => rest + 1,
            }
        } else {
            0
        },
    }
}

/// The outcome of a replay: the entries that passed their checksum, in log
/// order, and how many frames were dropped as corrupt.
pub struct WalRestoredItems {
    pub items: Vec<Item>,
    pub corrupt: usize,
}

impl WalRestoredItems {
    pub fn new(items: Vec<Item>, corrupt: usize) -> (r: WalRestoredItems)
        ensures
            r.items@ == items@,
            r.corrupt == corrupt,
    {
        WalRestoredItems { items, corrupt }
    }
}

/// Reads every frame of a log, keeps the entries whose checksum matches and
/// counts the others.
pub fn replay(s: &[u8]) -> (r: WalRestoredItems)
    ensures
        r.items@.map_values(|e: Item| e@) == replay_valid(s@),
        r.corrupt == replay_corrupt(s@),
{
    let mut valid: Vec<Item> = Vec::new();
    let mut corrupt: usize = 0;
    let mut pos: usize = 0;
    let len = s.len();
    assert(s@.skip(0) =~= s@);
    assert(valid@.map_values(|e: Item| e@) =~= Seq::<EntryModel>::empty());
    loop
        invariant
            len == s@.len(),
            pos <= s@.len(),
            corrupt <= pos,
            valid@.map_values(|e: Item| e@) + replay_valid(s@.skip(pos as int)) == replay_valid(
                s@,
            ),
            corrupt + replay_corrupt(s@.skip(pos as int)) == replay_corrupt(s@),
        decreases s@.len() - pos,
    {
        let ghost t = s@.skip(pos as int);
        match decode_frame(s, pos) {
            None => {
                assert(valid@.map_values(|e: Item| e@) =~= valid@.map_values(|e: Item| e@)
                    + replay_valid(t));
                return WalRestoredItems { items: valid, corrupt };
            },
            Some((pe, next)) => {
                let ghost n = (next - pos) as nat;
                assert(t.skip(n as int) =~= s@.skip(next as int));
                let ghost before = valid@.map_values(|e: Item| e@);
                match pe {
                    Some(e) => {
                        if e.is_valid() {
                            valid.push(e);
                            assert(valid@.map_values(|e: Item| e@) =~= before + seq![e@]);
                        } else {
                            corrupt = corrupt + 1;
                        }
                    },
                    None => {
                        corrupt = corrupt + 1;
                    },
                }
                pos = next;
            },
        }
    }
}

/// A framed entry reads back as itself, whatever follows it.
pub proof fn lemma_frame_round_trip(e: EntryModel, rest: Seq<u8>)
    requires
        entry_fits(e),
    ensures
        parse_frame(frame(e) + rest) == Some((Some(e), frame(e).len())),
        frame(e).len() >= 8,
{
    lemma_auto_spec_u16_to_from_le_bytes();
    lemma_auto_spec_u32_to_from_le_bytes();
    lemma_auto_spec_u64_to_from_le_bytes();
    lemma_auto_spec_u128_to_from_le_bytes();
    let b = record_bytes(e);
    let s = frame(e) + rest;
    let n = b.len() as int;
    assert(spec_u64_to_le_bytes(b.len() as u64).len() == 8);
    assert(frame(e) == spec_u64_to_le_bytes(b.len() as u64) + b);
    assert(s.subrange(0, 8) =~= spec_u64_to_le_bytes(n as u64));
    assert(s.subrange(8, 8 + n) =~= b);
    let tl = e.2.len() as int;
    let p = 28 + tl;
    let kl = e.4.len() as int;
    let q = p + 10 + kl;
    assert(b.subrange(0, 4) =~= spec_u32_to_le_bytes(e.0));
    assert(b.subrange(4, 20) =~= spec_u128_to_le_bytes(e.1));
    assert(b.subrange(20, 28) =~= spec_u64_to_le_bytes(tl as u64));
    assert(b.subrange(28, p) =~= e.2);
    assert(b.subrange(p, p + 2) =~= spec_u16_to_le_bytes(e.3));
    assert(b.subrange(p + 2, p + 10) =~= spec_u64_to_le_bytes(kl as u64));
    assert(b.subrange(p + 10, q) =~= e.4);
    match e.5 {
        Some(v) => {
            assert(b[q] == 1u8);
            assert(b.subrange(q + 1, q + 9) =~= spec_u64_to_le_bytes(v.len() as u64));
            assert(b.subrange(q + 9, q + 9 + v.len() as int) =~= v);
        },
        None => {
            assert(b[q] == 0u8);
        },
    }
    assert(parse_record(b) == Some(e));
    assert(le64_at(s, 0) == n);
}

/// The log of a sequence of entries is the first entry's frame followed by
/// the log of the others.
pub proof fn lemma_log_front(es: Seq<EntryModel>)
    requires
        es.len() > 0,
    ensures
        log_bytes(es) == frame(es[0]) + log_bytes(es.drop_first()),
    decreases es.len(),
{
    if es.len() == 1 {
        assert(es.drop_last() =~= Seq::<EntryModel>::empty());
        assert(es.drop_first() =~= Seq::<EntryModel>::empty());
        assert(log_bytes(es) =~= frame(es[0]) + log_bytes(es.drop_first()));
    } else {
        lemma_log_front(es.drop_last());
        assert(es.drop_last().drop_first() =~= es.drop_first().drop_last());
        assert(es.drop_first().last() == es.last());
        assert(log_bytes(es) =~= frame(es[0]) + log_bytes(es.drop_first()));
    }
}

/// Replaying the log of entries that were sealed with their checksums gives
/// back exactly those entries, each once and in order, and drops none.
pub proof fn lemma_replay_log(es: Seq<EntryModel>)
    requires
        forall|i: int| 0 <= i < es.len() ==> entry_fits(#[trigger] es[i]) && crc_ok(es[i]),
    ensures
        replay_valid(log_bytes(es)) == es,
        replay_corrupt(log_bytes(es)) == 0,
    decreases es.len(),
{
    if es.len() == 0 {
        assert(parse_frame(Seq::<u8>::empty()) is None);
    } else {
        lemma_log_front(es);
        let rest = log_bytes(es.drop_first());
        lemma_frame_round_trip(es[0], rest);
        let s = log_bytes(es);
        let n = frame(es[0]).len();
        assert(s.skip(n as int) =~= rest);
        lemma_replay_log(es.drop_first());
        assert(seq![es[0]] + es.drop_first() =~= es);
    }
}

/// An entry whose name, key and value are each at most 2^30 bytes long fits
/// the log's framing.
pub proof fn lemma_small_entry_fits(e: EntryModel)
    requires
        e.2.len() <= 0x4000_0000,
        e.4.len() <= 0x4000_0000,
        e.5 matches Some(v) ==> v.len() <= 0x4000_0000,
    ensures
        entry_fits(e),
{
    lemma_auto_spec_u16_to_from_le_bytes();
    lemma_auto_spec_u32_to_from_le_bytes();
    lemma_auto_spec_u64_to_from_le_bytes();
    lemma_auto_spec_u128_to_from_le_bytes();
    assert(spec_u32_to_le_bytes(e.0).len() == 4);
    assert(spec_u128_to_le_bytes(e.1).len() == 16);
    assert(spec_u16_to_le_bytes(e.3).len() == 2);
    assert(spec_u64_to_le_bytes(e.2.len() as u64).len() == 8);
    assert(spec_u64_to_le_bytes(e.4.len() as u64).len() == 8);
    match e.5 {
        Some(v) => {
            assert(spec_u64_to_le_bytes(v.len() as u64).len() == 8);
        },
        None => {},
    }
}

/// The length of an entry's record.
pub proof fn lemma_record_len(e: EntryModel)
    ensures
        record_bytes(e).len() == 39 + e.2.len() + e.4.len() + match e.5 {
            Some(v) => 8 + v.len(),
            None => 0,
        },
{
    lemma_auto_spec_u16_to_from_le_bytes();
    lemma_auto_spec_u32_to_from_le_bytes();
    lemma_auto_spec_u64_to_from_le_bytes();
    lemma_auto_spec_u128_to_from_le_bytes();
    assert(spec_u32_to_le_bytes(e.0).len() == 4);
    assert(spec_u128_to_le_bytes(e.1).len() == 16);
    assert(spec_u16_to_le_bytes(e.3).len() == 2);
    assert(spec_u64_to_le_bytes(e.2.len() as u64).len() == 8);
    assert(spec_u64_to_le_bytes(e.4.len() as u64).len() == 8);
    match e.5 {
        Some(v) => {
            assert(spec_u64_to_le_bytes(v.len() as u64).len() == 8);
        },
        None => {},
    }
}

impl Item {
    /// Whether the entry's lengths fit the log's framing.
    pub fn fits(&self) -> (r: bool)
        ensures
            r == entry_fits(self@),
    {
        proof {
            lemma_record_len(self@);
        }
        let tl = self.table.len() as u128;
        let kl = self.key.len() as u128;
        let vl: u128 = match &self.value {
            Some(v) => 8 + v.len() as u128,
            None => 0,
        };
        39 + tl + kl + vl <= u64::MAX as u128
    }
}

/// Every entry that replay yields passed its checksum.
pub proof fn lemma_replay_valid_ok(s: Seq<u8>)
    ensures
        forall|i: int| 0 <= i < replay_valid(s).len() ==> crc_ok(#[trigger] replay_valid(s)[i]),
    decreases s.len(),
{
    match parse_frame(s) {
        None => {},
        Some((pe, n)) => if 8 <= n <= s.len() {
            lemma_replay_valid_ok(s.skip(n as int));
            let rest = replay_valid(s.skip(n as int));
            match pe {
                Some(e) => if crc_ok(e) {
                    assert forall|i: int| 0 <= i < replay_valid(s).len() implies crc_ok(
                        #[trigger] replay_valid(s)[i],
                    ) by {
                        if i > 0 {
                            assert(replay_valid(s)[i] == rest[i - 1]);
                        }
                    }
                },
                None => {},
            }
        },
    }
}

} // verus!
