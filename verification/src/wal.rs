//! The write-ahead log: a 16-byte header followed by checksummed records.
//!
//! Header, all integers big-endian:
//!
//! ```text
//! bytes 0..8    the end of the log, where the next record goes
//! bytes 8..16   the sequence number of the record appended last
//! ```
//!
//! Record:
//!
//! ```text
//! [lsn: 8][op: 1][klen: 4][key: klen][vlen: 4][value: vlen][crc32: 4]
//! ```
//!
//! The checksum covers everything between the sequence number and itself.
//! A log file is held as a byte image; the writer changes the image exactly as
//! positional writes would change the file.

use vstd::prelude::*;
use vstd::slice::slice_subrange;
use vstd::slice::slice_to_vec;
use crate::endian::be32;
use crate::endian::be64;
use crate::endian::from_be32;
use crate::endian::from_be64;
use crate::endian::lemma_be32;
use crate::endian::lemma_be32_changed;
use crate::endian::lemma_be64;
use crate::endian::push_be32;
use crate::endian::push_be64;
use crate::endian::read_be32;
use crate::endian::read_be64;

verus! {

/// The length of the log's header.
pub const HEADER_LEN: usize = 16;

/// The CRC-32 (IEEE) checksum of a byte string, as `crc32fast` computes it.
pub uninterp spec fn crc32(bytes: Seq<u8>) -> u32;

/// `crc32fast::hash` returns the checksum of exactly the bytes it is given;
/// nothing is claimed here of how checksums of different strings relate.
pub assume_specification[ crc32fast::hash ](buf: &[u8]) -> (c: u32)
    ensures
        c == crc32(buf@),
;

/// What a record does to the key it names.
#[derive(Debug, Clone, Copy, PartialEq, Eq, Structural)]
pub enum WalOp {
    Put,
    Delete,
}

/// The operation that an op byte stands for: 2 is a delete, and every other
/// byte is read as a put.
pub open spec fn op_of_code(code: u8) -> WalOp {
    if code == 2 {
        WalOp::Delete
    } else {
        WalOp::Put
    }
}

/// The op byte that is written for an operation.
pub open spec fn code_of_op(op: WalOp) -> u8 {
    match op {
        WalOp::Put => 1,
        WalOp::Delete => 2,
    }
}

impl From<u8> for WalOp {
    fn from(value: u8) -> (op: WalOp) {
        match value {
            1 => WalOp::Put,
            2 => WalOp::Delete,
            _ => WalOp::Put,
        }
    }
}

impl vstd::std_specs::convert::FromSpecImpl<u8> for WalOp {
    open spec fn obeys_from_spec() -> bool {
        true
    }

    open spec fn from_spec(value: u8) -> WalOp {
        op_of_code(value)
    }
}

impl From<WalOp> for u8 {
    fn from(op: WalOp) -> (code: u8) {
        match op {
            WalOp::Put => 1,
            WalOp::Delete => 2,
        }
    }
}

impl vstd::std_specs::convert::FromSpecImpl<WalOp> for u8 {
    open spec fn obeys_from_spec() -> bool {
        true
    }

    open spec fn from_spec(op: WalOp) -> u8 {
        code_of_op(op)
    }
}

/// One record as it is read back from the log. A record whose value length is
/// zero carries no value: that is every delete, and a put of the empty value.
pub struct WalRecord {
    pub lsn: u64,
    pub op: WalOp,
    pub key: Vec<u8>,
    pub value: Option<Vec<u8>>,
}

/// The mathematical content of a [`WalRecord`].
pub struct WalRecordView {
    pub lsn: u64,
    pub op: WalOp,
    pub key: Seq<u8>,
    pub value: Option<Seq<u8>>,
}

impl View for WalRecord {
    type V = WalRecordView;

    open spec fn view(&self) -> WalRecordView {
        WalRecordView {
            lsn: self.lsn,
            op: self.op,
            key: self.key@,
            value: match self.value {
                Some(v) => Some(v@),
                None => None,
            },
        }
    }
}

/// The contents of a vector of records.
pub open spec fn records_view(records: Seq<WalRecord>) -> Seq<WalRecordView> {
    records.map_values(|r: WalRecord| r@)
}

/// Why a record could not be appended.
#[derive(Debug, Clone, Copy, PartialEq, Eq, Structural)]
pub enum WalError {
    /// The key or the value is longer than a 4-byte length can say.
    RecordTooLarge,
    /// The log would grow past what the machine can address.
    LogFull,
}

/// The part of a record that its checksum covers.
pub open spec fn payload(code: u8, key: Seq<u8>, value: Seq<u8>) -> Seq<u8> {
    seq![code] + be32(key.len() as u32) + key + be32(value.len() as u32) + value
}

/// The bytes of one record.
pub open spec fn frame(lsn: u64, code: u8, key: Seq<u8>, value: Seq<u8>) -> Seq<u8> {
    be64(lsn) + payload(code, key, value) + be32(crc32(payload(code, key, value)))
}

/// The record that reading a frame gives back.
pub open spec fn record_of(lsn: u64, code: u8, key: Seq<u8>, value: Seq<u8>) -> WalRecordView {
    WalRecordView {
        lsn,
        op: op_of_code(code),
        key,
        value: if value.len() > 0 {
            Some(value)
        } else {
            None
        },
    }
}

/// The bytes of a header.
pub open spec fn header(log_end: u64, lsn: u64) -> Seq<u8> {
    be64(log_end) + be64(lsn)
}

/// The record at the start of `bytes` and its length, where a whole record
/// stands there and its checksum holds.
pub open spec fn first_record(bytes: Seq<u8>) -> Option<(WalRecordView, int)> {
    if bytes.len() < 13 {
        None
    } else {
        let klen = from_be32(bytes.subrange(9, 13)) as int;
        if bytes.len() < 17 + klen {
            None
        } else {
            let vlen = from_be32(bytes.subrange(13 + klen, 17 + klen)) as int;
            let end = 17 + klen + vlen;
            if bytes.len() < end + 4 {
                None
            } else if from_be32(bytes.subrange(end, end + 4)) != crc32(bytes.subrange(8, end)) {
                None
            } else {
                Some(
                    (
                        record_of(
                            from_be64(bytes.subrange(0, 8)),
                            bytes[8],
                            bytes.subrange(13, 13 + klen),
                            bytes.subrange(17 + klen, end),
                        ),
                        end + 4,
                    ),
                )
            }
        }
    }
}

/// The records that a reader takes from `bytes`: one after the other, up to
/// the first place where no whole record with a matching checksum stands.
pub open spec fn parse_records(bytes: Seq<u8>) -> Seq<WalRecordView>
    decreases bytes.len(),
{
    match first_record(bytes) {
        Some((r, n)) => seq![r] + parse_records(bytes.skip(n)),
        None => Seq::empty(),
    }
}

/// How many bytes of `bytes` the reader takes records from.
pub open spec fn parsed_len(bytes: Seq<u8>) -> int
    decreases bytes.len(),
{
    match first_record(bytes) {
        Some((r, n)) => n + parsed_len(bytes.skip(n)),
        None => 0,
    }
}

/// What follows the header in a log image; nothing, where the header is not whole.
pub open spec fn log_body(image: Seq<u8>) -> Seq<u8> {
    if image.len() >= 16 {
        image.skip(16)
    } else {
        Seq::empty()
    }
}

/// The records that a log image holds.
pub open spec fn log_records(image: Seq<u8>) -> Seq<WalRecordView> {
    parse_records(log_body(image))
}

/// Whether the image starts with a header that names an end of log.
pub open spec fn has_header(image: Seq<u8>) -> bool {
    image.len() >= 16 && from_be64(image.subrange(0, 8)) >= 16
}

/// The end of log that a writer starts from: what the header says, or 16 for
/// an image without a whole header and for a header that names an end of
/// log inside itself.
pub open spec fn stored_log_end(image: Seq<u8>) -> u64 {
    if has_header(image) {
        from_be64(image.subrange(0, 8))
    } else {
        16
    }
}

/// The last sequence number that a writer starts from: what the header
/// says, whatever end of log it names, or 0 for an image without a whole
/// header.
pub open spec fn stored_lsn(image: Seq<u8>) -> u64 {
    if image.len() >= 16 {
        from_be64(image.subrange(8, 16))
    } else {
        0
    }
}

/// `image`, filled up with zero bytes to the length `len` where it is shorter.
pub open spec fn padded(image: Seq<u8>, len: int) -> Seq<u8> {
    if image.len() >= len {
        image
    } else {
        image + Seq::new((len - image.len()) as nat, |i: int| 0u8)
    }
}

/// The image after a record was written at `log_end` and the header was
/// rewritten: bytes that the old image held past the new record stay.
pub open spec fn appended(image: Seq<u8>, log_end: int, lsn: u64, rec: Seq<u8>) -> Seq<u8> {
    let new_end = log_end + rec.len();
    header(new_end as u64, lsn) + padded(image, log_end).subrange(16, log_end) + rec + (if image.len()
        > new_end {
        image.subrange(new_end, image.len() as int)
    } else {
        Seq::empty()
    })
}

/// Whether a record of this key and value can be written at `log_end`.
pub open spec fn record_fits(log_end: u64, key: Seq<u8>, value: Seq<u8>) -> bool {
    &&& key.len() <= u32::MAX
    &&& value.len() <= u32::MAX
    &&& log_end + 21 + key.len() + value.len() <= usize::MAX
}

/// A frame is as long as its fields.
pub proof fn lemma_frame_len(lsn: u64, code: u8, key: Seq<u8>, value: Seq<u8>)
    ensures
        frame(lsn, code, key, value).len() == 21 + key.len() + value.len(),
        payload(code, key, value).len() == 9 + key.len() + value.len(),
{
    lemma_be64(lsn);
    lemma_be32(key.len() as u32);
    lemma_be32(value.len() as u32);
    lemma_be32(crc32(payload(code, key, value)));
}

/// Reading finds a frame that stands at the start of the bytes, whatever follows it.
pub proof fn lemma_first_record_of_frame(
    lsn: u64,
    code: u8,
    key: Seq<u8>,
    value: Seq<u8>,
    rest: Seq<u8>,
)
    requires
        key.len() <= u32::MAX,
        value.len() <= u32::MAX,
    ensures
        first_record(frame(lsn, code, key, value) + rest) == Some(
            (record_of(lsn, code, key, value), frame(lsn, code, key, value).len() as int),
        ),
{
    let p = payload(code, key, value);
    let f = frame(lsn, code, key, value);
    let bytes = f + rest;
    let klen = key.len() as int;
    let vlen = value.len() as int;
    let end = 17 + klen + vlen;
    lemma_frame_len(lsn, code, key, value);
    lemma_be64(lsn);
    lemma_be32(klen as u32);
    lemma_be32(vlen as u32);
    lemma_be32(crc32(p));
    assert(bytes.subrange(0, 8) =~= be64(lsn));
    assert(bytes.subrange(8, end) =~= p);
    assert(bytes.subrange(end, end + 4) =~= be32(crc32(p)));
    assert(bytes.subrange(9, 13) =~= be32(klen as u32)) by {
        assert(p.subrange(1, 5) =~= be32(klen as u32));
        assert(bytes.subrange(9, 13) =~= p.subrange(1, 5));
    }
    assert(bytes.subrange(13, 13 + klen) =~= key) by {
        assert(p.subrange(5, 5 + klen) =~= key);
        assert(bytes.subrange(13, 13 + klen) =~= p.subrange(5, 5 + klen));
    }
    assert(bytes.subrange(13 + klen, 17 + klen) =~= be32(vlen as u32)) by {
        assert(p.subrange(5 + klen, 9 + klen) =~= be32(vlen as u32));
        assert(bytes.subrange(13 + klen, 17 + klen) =~= p.subrange(5 + klen, 9 + klen));
    }
    assert(bytes.subrange(17 + klen, end) =~= value) by {
        assert(p.subrange(9 + klen, 9 + klen + vlen) =~= value);
        assert(bytes.subrange(17 + klen, end) =~= p.subrange(9 + klen, 9 + klen + vlen));
    }
    assert(bytes[8] == code) by {
        assert(p[0] == code);
        assert(bytes[8] == p[0]);
    }
}

/// A record that is read from the start of some bytes is read from the start
/// of every extension of them.
pub proof fn lemma_first_record_extends(a: Seq<u8>, b: Seq<u8>)
    requires
        first_record(a) is Some,
    ensures
        first_record(a + b) == first_record(a),
{
    let ab = a + b;
    let klen = from_be32(a.subrange(9, 13)) as int;
    assert(ab.subrange(9, 13) =~= a.subrange(9, 13));
    let vlen = from_be32(a.subrange(13 + klen, 17 + klen)) as int;
    assert(ab.subrange(13 + klen, 17 + klen) =~= a.subrange(13 + klen, 17 + klen));
    let end = 17 + klen + vlen;
    assert(ab.subrange(end, end + 4) =~= a.subrange(end, end + 4));
    assert(ab.subrange(8, end) =~= a.subrange(8, end));
    assert(ab.subrange(0, 8) =~= a.subrange(0, 8));
    assert(ab.subrange(13, 13 + klen) =~= a.subrange(13, 13 + klen));
    assert(ab.subrange(17 + klen, end) =~= a.subrange(17 + klen, end));
}

/// Where the reader takes all of `a`, it reads `a + b` as the records of `a`
/// followed by those of `b`.
pub proof fn lemma_parse_concat(a: Seq<u8>, b: Seq<u8>)
    requires
        parsed_len(a) == a.len(),
    ensures
        parse_records(a + b) == parse_records(a) + parse_records(b),
        parsed_len(a + b) == a.len() + parsed_len(b),
    decreases a.len(),
{
    if a.len() == 0 {
        assert(a + b =~= b);
        assert(first_record(a) is None);
        assert(parse_records(a) =~= Seq::empty());
        assert(parse_records(a) + parse_records(b) =~= parse_records(b));
    } else {
        assert(first_record(a) is Some);
        let (r, n) = first_record(a).unwrap();
        lemma_first_record_extends(a, b);
        assert((a + b).skip(n) =~= a.skip(n) + b);
        lemma_parse_concat(a.skip(n), b);
        assert(parse_records(a + b) =~= parse_records(a) + parse_records(b));
    }
}

/// A frame followed by anything reads as its record, then as what follows.
pub proof fn lemma_parse_frame(lsn: u64, code: u8, key: Seq<u8>, value: Seq<u8>, rest: Seq<u8>)
    requires
        key.len() <= u32::MAX,
        value.len() <= u32::MAX,
    ensures
        parse_records(frame(lsn, code, key, value) + rest) == seq![
            record_of(lsn, code, key, value),
        ] + parse_records(rest),
        parsed_len(frame(lsn, code, key, value) + rest) == frame(lsn, code, key, value).len()
            + parsed_len(rest),
{
    let f = frame(lsn, code, key, value);
    lemma_first_record_of_frame(lsn, code, key, value, rest);
    assert((f + rest).skip(f.len() as int) =~= rest);
}

/// Appending a frame to bytes that the reader takes whole appends its record.
pub proof fn lemma_parse_append(body: Seq<u8>, lsn: u64, code: u8, key: Seq<u8>, value: Seq<u8>)
    requires
        parsed_len(body) == body.len(),
        key.len() <= u32::MAX,
        value.len() <= u32::MAX,
    ensures
        parse_records(body + frame(lsn, code, key, value)) == parse_records(body).push(
            record_of(lsn, code, key, value),
        ),
        parsed_len(body + frame(lsn, code, key, value)) == body.len() + frame(
            lsn,
            code,
            key,
            value,
        ).len(),
{
    let f = frame(lsn, code, key, value);
    lemma_parse_concat(body, f);
    lemma_parse_frame(lsn, code, key, value, Seq::empty());
    assert(f + Seq::<u8>::empty() =~= f);
    assert(first_record(Seq::<u8>::empty()) is None);
    assert(parse_records(Seq::<u8>::empty()) =~= Seq::empty());
    assert(parse_records(f) =~= seq![record_of(lsn, code, key, value)]);
    assert(parse_records(body) + seq![record_of(lsn, code, key, value)] =~= parse_records(
        body,
    ).push(record_of(lsn, code, key, value)));
}

/// Where the reader has taken all that stands before some bytes, and the
/// bytes do not begin with a whole record whose checksum holds, the replay
/// ends there: the reader returns the records before and nothing after them.
/// This is so whatever was changed in a record, a byte of a length too.
pub proof fn law_unreadable_bytes_end_replay(before: Seq<u8>, bytes: Seq<u8>)
    requires
        parsed_len(before) == before.len(),
        first_record(bytes) is None,
    ensures
        parse_records(before + bytes) == parse_records(before),
{
    assert(parse_records(bytes) =~= Seq::<WalRecordView>::empty());
    lemma_parse_concat(before, bytes);
    assert(parse_records(before) + Seq::<WalRecordView>::empty() =~= parse_records(before));
}

/// A record with one byte changed outside its two length fields still has
/// its fields where they were: the reader takes it exactly where the
/// checksum that now stands in it is the checksum of the payload that now
/// stands in it.
proof fn lemma_changed_frame(
    lsn: u64,
    code: u8,
    key: Seq<u8>,
    value: Seq<u8>,
    at: int,
    byte: u8,
    rest: Seq<u8>,
)
    requires
        key.len() <= u32::MAX,
        value.len() <= u32::MAX,
        at == 8 || 13 <= at < 13 + key.len() || 17 + key.len() <= at < 21 + key.len() + value.len(),
    ensures
        first_record(frame(lsn, code, key, value).update(at, byte) + rest) is Some <==> from_be32(
            frame(lsn, code, key, value).update(at, byte).subrange(
                (17 + key.len() + value.len()) as int,
                (21 + key.len() + value.len()) as int,
            ),
        ) == crc32(
            frame(lsn, code, key, value).update(at, byte).subrange(
                8,
                (17 + key.len() + value.len()) as int,
            ),
        ),
        at < 17 + key.len() + value.len() ==> frame(lsn, code, key, value).update(at, byte).subrange(
            (17 + key.len() + value.len()) as int,
            (21 + key.len() + value.len()) as int,
        ) == be32(crc32(payload(code, key, value))),
        at >= 17 + key.len() + value.len() ==> frame(lsn, code, key, value).update(
            at,
            byte,
        ).subrange(8, (17 + key.len() + value.len()) as int) == payload(code, key, value) && frame(
            lsn,
            code,
            key,
            value,
        ).update(at, byte).subrange(
            (17 + key.len() + value.len()) as int,
            (21 + key.len() + value.len()) as int,
        ) == be32(crc32(payload(code, key, value))).update(
            at - (17 + key.len() + value.len()),
            byte,
        ),
{
    let p = payload(code, key, value);
    let f = frame(lsn, code, key, value);
    let g = f.update(at, byte);
    let bytes = g + rest;
    let klen = key.len() as int;
    let vlen = value.len() as int;
    let end = 17 + klen + vlen;
    lemma_frame_len(lsn, code, key, value);
    lemma_be64(lsn);
    lemma_be32(klen as u32);
    lemma_be32(vlen as u32);
    lemma_be32(crc32(p));
    assert(f.subrange(8, end) =~= p);
    assert(f.subrange(end, end + 4) =~= be32(crc32(p)));
    assert(bytes.subrange(9, 13) =~= be32(klen as u32)) by {
        assert(p.subrange(1, 5) =~= be32(klen as u32));
        assert(bytes.subrange(9, 13) =~= p.subrange(1, 5));
    }
    assert(bytes.subrange(13 + klen, 17 + klen) =~= be32(vlen as u32)) by {
        assert(p.subrange(5 + klen, 9 + klen) =~= be32(vlen as u32));
        assert(bytes.subrange(13 + klen, 17 + klen) =~= p.subrange(5 + klen, 9 + klen));
    }
    assert(bytes.subrange(end, end + 4) =~= g.subrange(end, end + 4));
    assert(bytes.subrange(8, end) =~= g.subrange(8, end));
    if at < end {
        assert(g.subrange(end, end + 4) =~= be32(crc32(p)));
    } else {
        assert(g.subrange(8, end) =~= p);
        assert(g.subrange(end, end + 4) =~= be32(crc32(p)).update(at - end, byte));
    }
}

/// A changed byte in a record ends the replay there: where the op byte, a
/// byte of the key or a byte of the value of a record is replaced and the
/// checksum tells the old payload from the new, the reader returns the
/// records before that record and nothing after them, whatever follows.
pub proof fn law_changed_payload_ends_replay(
    before: Seq<u8>,
    lsn: u64,
    code: u8,
    key: Seq<u8>,
    value: Seq<u8>,
    at: int,
    byte: u8,
    rest: Seq<u8>,
)
    requires
        parsed_len(before) == before.len(),
        key.len() <= u32::MAX,
        value.len() <= u32::MAX,
        at == 8 || 13 <= at < 13 + key.len() || 17 + key.len() <= at < 17 + key.len() + value.len(),
        crc32(
            frame(lsn, code, key, value).update(at, byte).subrange(
                8,
                (17 + key.len() + value.len()) as int,
            ),
        ) != crc32(payload(code, key, value)),
    ensures
        parse_records(before + frame(lsn, code, key, value).update(at, byte) + rest)
            == parse_records(before),
{
    let g = frame(lsn, code, key, value).update(at, byte);
    lemma_changed_frame(lsn, code, key, value, at, byte, rest);
    lemma_be32(crc32(payload(code, key, value)));
    law_unreadable_bytes_end_replay(before, g + rest);
    assert(before + g + rest =~= before + (g + rest));
}

/// A changed byte in a record's checksum ends the replay there: the reader
/// returns the records before that record and nothing after them, whatever
/// follows.
pub proof fn law_changed_checksum_ends_replay(
    before: Seq<u8>,
    lsn: u64,
    code: u8,
    key: Seq<u8>,
    value: Seq<u8>,
    at: int,
    byte: u8,
    rest: Seq<u8>,
)
    requires
        parsed_len(before) == before.len(),
        key.len() <= u32::MAX,
        value.len() <= u32::MAX,
        17 + key.len() + value.len() <= at < 21 + key.len() + value.len(),
        byte != frame(lsn, code, key, value)[at],
    ensures
        parse_records(before + frame(lsn, code, key, value).update(at, byte) + rest)
            == parse_records(before),
{
    let p = payload(code, key, value);
    let f = frame(lsn, code, key, value);
    let g = f.update(at, byte);
    let end = 17 + key.len() + value.len();
    lemma_frame_len(lsn, code, key, value);
    lemma_changed_frame(lsn, code, key, value, at, byte, rest);
    lemma_be32(crc32(p));
    assert(be32(crc32(p))[at - end] == f[at]) by {
        lemma_be64(lsn);
    }
    lemma_be32_changed(crc32(p), at - end, byte);
    law_unreadable_bytes_end_replay(before, g + rest);
    assert(before + g + rest =~= before + (g + rest));
}

/// Appends the bytes of `s` to `out`.
pub fn extend_bytes(out: &mut Vec<u8>, s: &[u8])
    ensures
        final(out)@ == old(out)@ + s@,
{
    let n: usize = s.len();
    let mut i: usize = 0;
    while i < n
        invariant
            i <= n,
            n == s@.len(),
            out@ == old(out)@ + s@.take(i as int),
        decreases n - i,
    {
        out.push(s[i]);
        i = i + 1;
        assert(out@ =~= old(out)@ + s@.take(i as int));
    }
    assert(s@.take(n as int) =~= s@);
}

/// The bytes of the record `(lsn, op, key, value)`; a record without a value
/// is written with the value length zero.
pub fn encode_record(lsn: u64, op: WalOp, key: &[u8], val: Option<&[u8]>) -> (out: Vec<u8>)
    requires
        key@.len() <= u32::MAX,
        val is Some ==> val.unwrap()@.len() <= u32::MAX,
    ensures
        out@ == frame(lsn, code_of_op(op), key@, value_bytes(val)),
{
    let mut out: Vec<u8> = Vec::new();
    push_be64(&mut out, lsn);
    out.push(u8::from(op));
    push_be32(&mut out, key.len() as u32);
    extend_bytes(&mut out, key);
    match val {
        Some(value) => {
            push_be32(&mut out, value.len() as u32);
            extend_bytes(&mut out, value);
        },
        None => {
            push_be32(&mut out, 0u32);
        },
    }
    let ghost p = payload(code_of_op(op), key@, value_bytes(val));
    proof {
        lemma_frame_len(lsn, code_of_op(op), key@, value_bytes(val));
        lemma_be64(lsn);
    }
    assert(out@ =~= be64(lsn) + p);
    let n: usize = out.len();
    let crc: u32 = crc32fast::hash(slice_subrange(out.as_slice(), 8, n));
    assert(out@.subrange(8, n as int) =~= p);
    push_be32(&mut out, crc);
    assert(out@ =~= frame(lsn, code_of_op(op), key@, value_bytes(val)));
    out
}

/// The value bytes that are written for an optional value.
pub open spec fn value_bytes(val: Option<&[u8]>) -> Seq<u8> {
    match val {
        Some(v) => v@,
        None => Seq::empty(),
    }
}

/// Reads the record that starts at `pos`, and says where the next one starts.
fn read_record(bytes: &[u8], pos: usize) -> (r: Option<(WalRecord, usize)>)
    requires
        pos <= bytes@.len(),
    ensures
        match first_record(bytes@.skip(pos as int)) {
            Some((v, n)) => r is Some && r.unwrap().0@ == v && r.unwrap().1 == pos + n,
            None => r is None,
        },
{
    let total: usize = bytes.len();
    let avail: usize = total - pos;
    let ghost rest = bytes@.skip(pos as int);
    if avail < 13 {
        return None;
    }
    let lsn: u64 = read_be64(bytes, pos);
    let code: u8 = bytes[pos + 8];
    let klen: usize = read_be32(bytes, pos + 9) as usize;
    proof {
        assert(rest.subrange(0, 8) =~= bytes@.subrange(pos as int, pos + 8));
        assert(rest.subrange(9, 13) =~= bytes@.subrange(pos + 9, pos + 13));
        assert(rest[8] == bytes@[pos + 8]);
    }
    if avail < 17 || klen > avail - 17 {
        return None;
    }
    let vlen: usize = read_be32(bytes, pos + 13 + klen) as usize;
    proof {
        assert(rest.subrange(13 + klen, 17 + klen) =~= bytes@.subrange(
            pos + 13 + klen,
            pos + 17 + klen,
        ));
    }
    if avail - 17 - klen < 4 || vlen > avail - 21 - klen {
        return None;
    }
    let end: usize = pos + 17 + klen + vlen;
    let stored: u32 = read_be32(bytes, end);
    let computed: u32 = crc32fast::hash(slice_subrange(bytes, pos + 8, end));
    proof {
        assert(rest.subrange(17 + klen + vlen, 21 + klen + vlen) =~= bytes@.subrange(
            end as int,
            end + 4,
        ));
        assert(rest.subrange(8, 17 + klen + vlen) =~= bytes@.subrange(pos + 8, end as int));
    }
    if stored != computed {
        return None;
    }
    let key: Vec<u8> = slice_to_vec(slice_subrange(bytes, pos + 13, pos + 13 + klen));
    let value: Option<Vec<u8>> = if vlen > 0 {
        Some(slice_to_vec(slice_subrange(bytes, pos + 17 + klen, end)))
    } else {
        None
    };
    proof {
        assert(rest.subrange(13, 13 + klen) =~= bytes@.subrange(pos + 13, pos + 13 + klen));
        assert(rest.subrange(17 + klen, 17 + klen + vlen) =~= bytes@.subrange(
            pos + 17 + klen,
            end as int,
        ));
    }
    Some((WalRecord { lsn, op: WalOp::from(code), key, value }, end + 4))
}

/// Reads the records of a log body, as [`parse_records`] defines them.
pub fn read_records(body: &[u8]) -> (records: Vec<WalRecord>)
    ensures
        records_view(records@) == parse_records(body@),
{
    let mut records: Vec<WalRecord> = Vec::new();
    let total: usize = body.len();
    let mut pos: usize = 0;
    assert(body@.skip(0) =~= body@);
    assert(records_view(records@) =~= Seq::empty());
    loop
        invariant
            pos <= total,
            total == body@.len(),
            records_view(records@) + parse_records(body@.skip(pos as int)) == parse_records(
                body@,
            ),
        decreases total - pos,
    {
        let ghost rest = body@.skip(pos as int);
        match read_record(body, pos) {
            None => {
                assert(parse_records(rest) =~= Seq::empty());
                assert(records_view(records@) + Seq::<WalRecordView>::empty() =~= records_view(
                    records@,
                ));
                return records;
            },
            Some((rec, next)) => {
                proof {
                    let (v, n) = first_record(rest).unwrap();
                    assert(rest.skip(n) =~= body@.skip(next as int));
                    assert(records_view(records@.push(rec)) =~= records_view(records@) + seq![v]);
                    assert(records_view(records@.push(rec)) + parse_records(
                        body@.skip(next as int),
                    ) =~= records_view(records@) + parse_records(rest));
                }
                records.push(rec);
                pos = next;
            },
        }
    }
}

/// Reads the records of a log image: those after the header, in the order in
/// which they stand, up to the first that is cut short or whose checksum
/// does not hold.
pub fn read_log(image: &[u8]) -> (records: Vec<WalRecord>)
    ensures
        records_view(records@) == log_records(image@),
{
    let total: usize = image.len();
    if total < HEADER_LEN {
        let records: Vec<WalRecord> = Vec::new();
        assert(first_record(Seq::<u8>::empty()) is None);
        assert(records_view(records@) =~= Seq::empty());
        return records;
    }
    let body = slice_subrange(image, HEADER_LEN, total);
    assert(body@ =~= image@.skip(16));
    read_records(body)
}

/// Whether every key and value of the records fits a 4-byte length.
pub open spec fn records_fit(records: Seq<WalRecordView>) -> bool {
    forall|i: int|
        0 <= i < records.len() ==> (#[trigger] records[i]).key.len() <= u32::MAX && (
        records[i].value matches Some(v) ==> v.len() <= u32::MAX)
}

/// What is read from a log fits the log's format.
pub proof fn lemma_parsed_records_fit(bytes: Seq<u8>)
    ensures
        records_fit(parse_records(bytes)),
    decreases bytes.len(),
{
    match first_record(bytes) {
        Some((r, n)) => {
            lemma_parsed_records_fit(bytes.skip(n));
            let rest = parse_records(bytes.skip(n));
            assert forall|i: int| 0 <= i < parse_records(bytes).len() implies (
            #[trigger] parse_records(bytes)[i]).key.len() <= u32::MAX && (parse_records(
                bytes,
            )[i].value matches Some(v) ==> v.len() <= u32::MAX) by {
                if i > 0 {
                    assert(parse_records(bytes)[i] == rest[i - 1]);
                }
            }
        },
        None => {},
    }
}

/// The sequence numbers of the records.
pub open spec fn lsns(records: Seq<WalRecordView>) -> Seq<u64> {
    records.map_values(|r: WalRecordView| r.lsn)
}

/// Whether the numbers ascend strictly.
pub open spec fn strictly_ascending(s: Seq<u64>) -> bool {
    forall|i: int, j: int| 0 <= i < j < s.len() ==> s[i] < s[j]
}

/// Whether a log image is what a writer's appends leave behind: it is empty,
/// or it ends where its header says; every byte after the header belongs to
/// a record that reads back; and the records carry strictly ascending
/// sequence numbers, none above the one that the header names.
pub open spec fn log_in_order(image: Seq<u8>) -> bool {
    &&& image.len() == 0 || (has_header(image) && stored_log_end(image) == image.len())
    &&& parsed_len(log_body(image)) == log_body(image).len()
    &&& strictly_ascending(lsns(log_records(image)))
    &&& forall|i: int|
        0 <= i < log_records(image).len() ==> (#[trigger] log_records(image)[i]).lsn <= stored_lsn(
            image,
        )
}

/// Appending a record with a greater sequence number to a log in order
/// leaves a log in order, with the record at its end.
pub proof fn lemma_append_in_order(image: Seq<u8>, lsn: u64, code: u8, key: Seq<u8>, value: Seq<u8>)
    requires
        log_in_order(image),
        lsn > stored_lsn(image),
        record_fits(stored_log_end(image), key, value),
    ensures
        log_in_order(appended(image, stored_log_end(image) as int, lsn, frame(lsn, code, key, value))),
        log_records(appended(image, stored_log_end(image) as int, lsn, frame(lsn, code, key, value)))
            == log_records(image).push(record_of(lsn, code, key, value)),
        stored_log_end(appended(image, stored_log_end(image) as int, lsn, frame(lsn, code, key, value)))
            == stored_log_end(image) + 21 + key.len() + value.len(),
        stored_lsn(appended(image, stored_log_end(image) as int, lsn, frame(lsn, code, key, value)))
            == lsn,
{
    let end = stored_log_end(image) as int;
    let f = frame(lsn, code, key, value);
    let after = appended(image, end, lsn, f);
    let body = log_body(image);
    let new_end = (end + f.len()) as u64;
    lemma_frame_len(lsn, code, key, value);
    lemma_be64(new_end);
    lemma_be64(lsn);
    assert(padded(image, end).subrange(16, end) =~= body);
    assert(after =~= header(new_end, lsn) + body + f);
    assert(after.subrange(0, 8) =~= be64(new_end));
    assert(after.subrange(8, 16) =~= be64(lsn));
    assert(log_body(after) =~= body + f);
    lemma_parse_append(body, lsn, code, key, value);
    let before = log_records(image);
    let now = log_records(after);
    assert(now == before.push(record_of(lsn, code, key, value)));
    assert forall|i: int, j: int| 0 <= i < j < lsns(now).len() implies lsns(now)[i] < lsns(now)[j] by {
        if j < before.len() {
            assert(lsns(before)[i] < lsns(before)[j]);
        } else {
            assert(before[i].lsn <= stored_lsn(image));
        }
    }
}

/// A log that is open for reading.
pub struct WalReader {
    image: Vec<u8>,
}

impl WalReader {
    /// The image that the reader holds.
    pub closed spec fn image(&self) -> Seq<u8> {
        self.image@
    }

    /// Opens the image of a log for reading.
    pub fn open(image: Vec<u8>) -> (reader: WalReader)
        ensures
            reader.image() == image@,
    {
        WalReader { image }
    }

    /// Everything that the log holds: the records after the header, in the
    /// order in which they stand, up to the first that is cut short or whose
    /// checksum does not hold.
    pub fn read_all(&self) -> (records: Vec<WalRecord>)
        ensures
            records_view(records@) == log_records(self.image()),
    {
        read_log(self.image.as_slice())
    }
}

/// A log that is open for appending.
pub struct WalWriter {
    image: Vec<u8>,
    log_end: u64,
    last_lsn: u64,
}

impl WalWriter {
    /// The image of the log file.
    pub closed spec fn image(&self) -> Seq<u8> {
        self.image@
    }

    /// Where the next record goes.
    pub closed spec fn log_end(&self) -> u64 {
        self.log_end
    }

    /// The sequence number of the record appended last.
    pub closed spec fn last_lsn(&self) -> u64 {
        self.last_lsn
    }

    /// The end of the log never lies inside the header.
    pub open spec fn wf(&self) -> bool {
        self.log_end() >= 16
    }

    /// Whether the log is exactly what its appends made it: the image is in
    /// order, and the writer stands where the image's header says.
    pub open spec fn tight(&self) -> bool {
        &&& log_in_order(self.image())
        &&& self.log_end() == stored_log_end(self.image())
        &&& self.last_lsn() == stored_lsn(self.image())
    }

    /// Opens the image of a log for appending. With `should_truncate` the log
    /// starts empty; without it the header says where the log ends and which
    /// sequence number came last. An image without a whole header is a fresh
    /// log, and a header that names an end of log inside itself is read as
    /// naming the end of the header.
    pub fn open(image: Vec<u8>, should_truncate: bool) -> (w: WalWriter)
        ensures
            w.wf(),
            should_truncate ==> w.image() == Seq::<u8>::empty() && w.log_end() == 16
                && w.last_lsn() == 0,
            !should_truncate ==> w.image() == image@ && w.log_end() == stored_log_end(image@)
                && w.last_lsn() == stored_lsn(image@),
    {
        if should_truncate {
            return WalWriter { image: Vec::new(), log_end: 16, last_lsn: 0 };
        }
        if image.len() < HEADER_LEN {
            return WalWriter { image, log_end: 16, last_lsn: 0 };
        }
        let end: u64 = read_be64(image.as_slice(), 0);
        let lsn: u64 = read_be64(image.as_slice(), 8);
        if end < 16 {
            return WalWriter { image, log_end: 16, last_lsn: lsn };
        }
        WalWriter { image, log_end: end, last_lsn: lsn }
    }

    /// The image of the log file.
    pub fn bytes(&self) -> (b: &Vec<u8>)
        ensures
            b@ == self.image(),
    {
        &self.image
    }

    /// Where the next record goes.
    pub fn end_of_log(&self) -> (e: u64)
        ensures
            e == self.log_end(),
    {
        self.log_end
    }

    /// The sequence number of the record appended last.
    pub fn last_sequence_number(&self) -> (l: u64)
        ensures
            l == self.last_lsn(),
    {
        self.last_lsn
    }

    /// Appends a put of `value` under `key`.
    pub fn append_put(&mut self, lsn: u64, key: &[u8], value: &[u8]) -> (r: Result<(), WalError>)
        requires
            old(self).wf(),
        ensures
            final(self).wf(),
            append_result(*old(self), *final(self), r, lsn, WalOp::Put, key@, value@),
    {
        self.append_record(lsn, WalOp::Put, key, Some(value))
    }

    /// Appends a delete of `key`.
    pub fn append_delete(&mut self, lsn: u64, key: &[u8]) -> (r: Result<(), WalError>)
        requires
            old(self).wf(),
        ensures
            final(self).wf(),
            append_result(*old(self), *final(self), r, lsn, WalOp::Delete, key@, Seq::empty()),
    {
        self.append_record(lsn, WalOp::Delete, key, None)
    }

    /// Appends one record: writes it at the end of the log, moves the end
    /// past it and rewrites the header. A record that cannot be written
    /// leaves the log as it was.
    pub fn append_record(&mut self, lsn: u64, op: WalOp, key: &[u8], val: Option<&[u8]>) -> (r:
        Result<(), WalError>)
        requires
            old(self).wf(),
        ensures
            final(self).wf(),
            append_result(*old(self), *final(self), r, lsn, op, key@, value_bytes(val)),
    {
        let vlen: usize = match val {
            Some(v) => v.len(),
            None => 0,
        };
        if key.len() > u32::MAX as usize || vlen > u32::MAX as usize {
            return Err(WalError::RecordTooLarge);
        }
        let need: u64 = 21 + key.len() as u64 + vlen as u64;
        if self.log_end > usize::MAX as u64 || need > usize::MAX as u64 - self.log_end {
            return Err(WalError::LogFull);
        }
        let rec: Vec<u8> = encode_record(lsn, op, key, val);
        let start: usize = self.log_end as usize;
        proof {
            lemma_frame_len(lsn, code_of_op(op), key@, value_bytes(val));
        }
        let new_end: usize = start + rec.len();
        let ghost old_image = self.image@;
        splice(&mut self.image, start, rec.as_slice());
        write_header(&mut self.image, new_end as u64, lsn);
        self.log_end = new_end as u64;
        self.last_lsn = lsn;
        proof {
            lemma_appended(old_image, start as int, lsn, rec@);
        }
        Ok(())
    }
}

/// What is left of `image` past the place `end`.
pub open spec fn stale_tail(image: Seq<u8>, end: int) -> Seq<u8> {
    if image.len() > end {
        image.subrange(end, image.len() as int)
    } else {
        Seq::empty()
    }
}

/// The image after `rec` was written at `start`: the bytes before `start`,
/// zero where the image was shorter, then `rec`, then what the image held
/// past the end of `rec`.
pub open spec fn spliced(image: Seq<u8>, start: int, rec: Seq<u8>) -> Seq<u8> {
    padded(image, start).subrange(0, start) + rec + stale_tail(image, start + rec.len())
}

/// An append is a write of the record followed by a write of the header.
proof fn lemma_appended(image: Seq<u8>, start: int, lsn: u64, rec: Seq<u8>)
    requires
        start >= 16,
    ensures
        header((start + rec.len()) as u64, lsn) + spliced(image, start, rec).skip(16) == appended(
            image,
            start,
            lsn,
            rec,
        ),
{
    let front = padded(image, start).subrange(0, start);
    let tail = stale_tail(image, start + rec.len());
    assert((front + rec + tail).skip(16) =~= front.subrange(16, start) + rec + tail);
    assert(front.subrange(16, start) =~= padded(image, start).subrange(16, start));
}

/// Writes `rec` into `image` at the place `start`.
fn splice(image: &mut Vec<u8>, start: usize, rec: &[u8])
    requires
        start + rec@.len() <= usize::MAX,
    ensures
        final(image)@ == spliced(old(image)@, start as int, rec@),
{
    let new_end: usize = start + rec.len();
    let mut tail: Vec<u8> = Vec::new();
    if image.len() > new_end {
        tail = image.split_off(new_end);
    }
    assert(tail@ =~= stale_tail(old(image)@, new_end as int));
    if image.len() > start {
        image.truncate(start);
    }
    pad_to(image, start);
    assert(image@ =~= padded(old(image)@, start as int).subrange(0, start as int));
    extend_bytes(image, rec);
    extend_bytes(image, tail.as_slice());
}

/// Fills `image` up with zero bytes to the length `len`.
fn pad_to(image: &mut Vec<u8>, len: usize)
    ensures
        final(image)@ == padded(old(image)@, len as int),
{
    while image.len() < len
        invariant
            old(image)@.len() <= image@.len(),
            image@.len() <= len || image@.len() == old(image)@.len(),
            image@ == old(image)@ + Seq::new(
                (image@.len() - old(image)@.len()) as nat,
                |i: int| 0u8,
            ),
        decreases len - image@.len(),
    {
        image.push(0u8);
        assert(image@ =~= old(image)@ + Seq::new(
            (image@.len() - old(image)@.len()) as nat,
            |i: int| 0u8,
        ));
    }
    assert(image@ =~= padded(old(image)@, len as int));
}

/// Overwrites the first 16 bytes of `image` with the header `(log_end, lsn)`.
fn write_header(image: &mut Vec<u8>, log_end: u64, lsn: u64)
    requires
        old(image)@.len() >= 16,
    ensures
        final(image)@ == header(log_end, lsn) + old(image)@.skip(16),
{
    let mut head: Vec<u8> = Vec::new();
    push_be64(&mut head, log_end);
    push_be64(&mut head, lsn);
    proof {
        lemma_be64(log_end);
        lemma_be64(lsn);
    }
    let mut i: usize = 0;
    while i < 16
        invariant
            i <= 16,
            head@ == header(log_end, lsn),
            head@.len() == 16,
            old(image)@.len() >= 16,
            image@ == head@.take(i as int) + old(image)@.skip(i as int),
        decreases 16 - i,
    {
        image[i] = head[i];
        i = i + 1;
        assert(image@ =~= head@.take(i as int) + old(image)@.skip(i as int));
    }
    assert(head@.take(16) =~= head@);
}

/// What an append does: a record that fits is written at the end of the log,
/// and one that does not fit changes nothing and says why.
pub open spec fn append_result(
    pre: WalWriter,
    post: WalWriter,
    r: Result<(), WalError>,
    lsn: u64,
    op: WalOp,
    key: Seq<u8>,
    value: Seq<u8>,
) -> bool {
    if key.len() > u32::MAX || value.len() > u32::MAX {
        &&& r == Err::<(), WalError>(WalError::RecordTooLarge)
        &&& post == pre
    } else if !record_fits(pre.log_end(), key, value) {
        &&& r == Err::<(), WalError>(WalError::LogFull)
        &&& post == pre
    } else {
        &&& r == Ok::<(), WalError>(())
        &&& post.image() == appended(
            pre.image(),
            pre.log_end() as int,
            lsn,
            frame(lsn, code_of_op(op), key, value),
        )
        &&& post.log_end() == pre.log_end() + 21 + key.len() + value.len()
        &&& post.last_lsn() == lsn
    }
}

} // verus!
