//! The commands that the replicated log carries, and their byte format:
//!
//! ```text
//! put      [0x01][klen: 4][key][vlen: 4][value]
//! delete   [0x02][klen: 4][key]
//! ```
//!
//! Lengths are big-endian. The bytes are written and read with the buffers
//! of the `bytes` crate.

use bytes::Buf;
use bytes::BufMut;
use bytes::BytesMut;
use vstd::prelude::*;
use crate::endian::be32;
use crate::endian::from_be32;
use crate::endian::lemma_be32;

verus! {

/// `bytes::BytesMut`: a growable buffer of bytes.
#[verifier::external_type_specification]
#[verifier::external_body]
pub struct ExBytesMut(bytes::BytesMut);

/// The bytes that a buffer holds.
pub uninterp spec fn buffer_bytes(buf: BytesMut) -> Seq<u8>;

/// `BytesMut::new`: a buffer that holds nothing.
#[verifier::external_body]
fn buffer_new() -> (buf: BytesMut)
    ensures
        buffer_bytes(buf) == Seq::<u8>::empty(),
{
    BytesMut::new()
}

/// `BufMut::put_u8` on a `BytesMut`: the byte is appended. The buffer grows
/// as needed; the call panics only where it would grow past what can be
/// allocated.
#[verifier::external_body]
fn buffer_put_u8(buf: &mut BytesMut, n: u8)
    requires
        buffer_bytes(*old(buf)).len() + 1 <= isize::MAX,
    ensures
        buffer_bytes(*final(buf)) == buffer_bytes(*old(buf)).push(n),
{
    buf.put_u8(n)
}

/// `BufMut::put_u32` on a `BytesMut`: the four bytes of the integer are
/// appended in big-endian order.
#[verifier::external_body]
fn buffer_put_u32(buf: &mut BytesMut, n: u32)
    requires
        buffer_bytes(*old(buf)).len() + 4 <= isize::MAX,
    ensures
        buffer_bytes(*final(buf)) == buffer_bytes(*old(buf)) + be32(n),
{
    buf.put_u32(n)
}

/// `BytesMut::extend_from_slice`: the bytes of the slice are appended.
#[verifier::external_body]
fn buffer_extend(buf: &mut BytesMut, bytes: &[u8])
    requires
        buffer_bytes(*old(buf)).len() + bytes@.len() <= isize::MAX,
    ensures
        buffer_bytes(*final(buf)) == buffer_bytes(*old(buf)) + bytes@,
{
    buf.extend_from_slice(bytes)
}

/// The slice method `to_vec` on a `BytesMut`: a vector of the bytes that the
/// buffer holds.
#[verifier::external_body]
fn buffer_to_vec(buf: &BytesMut) -> (v: Vec<u8>)
    ensures
        v@ == buffer_bytes(*buf),
{
    buf.to_vec()
}

/// `Buf::get_u8` on a byte slice: the first byte, and the slice moved past
/// it. The call panics on an empty slice.
#[verifier::external_body]
fn take_u8<'a>(data: &'a [u8]) -> (r: (u8, &'a [u8]))
    requires
        data@.len() >= 1,
    ensures
        r.0 == data@[0],
        r.1@ == data@.skip(1),
{
    let mut rest = data;
    let value = rest.get_u8();
    (value, rest)
}

/// `Buf::get_u32` on a byte slice: the big-endian integer of the first four
/// bytes, and the slice moved past them. The call panics on a shorter slice.
#[verifier::external_body]
fn take_u32<'a>(data: &'a [u8]) -> (r: (u32, &'a [u8]))
    requires
        data@.len() >= 4,
    ensures
        r.0 == from_be32(data@.subrange(0, 4)),
        r.1@ == data@.skip(4),
{
    let mut rest = data;
    let value = rest.get_u32();
    (value, rest)
}

/// `Buf::copy_to_slice` on a byte slice, into a fresh vector of `n` bytes:
/// the first `n` bytes, and the slice moved past them. The call panics on a
/// shorter slice.
#[verifier::external_body]
fn take_bytes<'a>(data: &'a [u8], n: usize) -> (r: (Vec<u8>, &'a [u8]))
    requires
        n <= data@.len(),
    ensures
        r.0@ == data@.take(n as int),
        r.1@ == data@.skip(n as int),
{
    let mut rest = data;
    let mut out = vec![0u8; n];
    rest.copy_to_slice(&mut out);
    (out, rest)
}

/// A mutation that the replicated log applies to the engine.
#[derive(Debug)]
pub enum Command {
    Put { key: Vec<u8>, val: Vec<u8> },
    Delete { key: Vec<u8> },
}

/// The mathematical content of a [`Command`].
pub enum CommandView {
    Put { key: Seq<u8>, val: Seq<u8> },
    Delete { key: Seq<u8> },
}

/// Why bytes are no command.
#[derive(Debug, Clone, Copy, PartialEq, Eq, Structural)]
pub enum DecodeError {
    /// The tag is neither that of a put nor that of a delete.
    UnknownTag,
    /// The bytes end before the command does.
    Truncated,
}

impl View for Command {
    type V = CommandView;

    open spec fn view(&self) -> CommandView {
        match self {
            Command::Put { key, val } => CommandView::Put { key: key@, val: val@ },
            Command::Delete { key } => CommandView::Delete { key: key@ },
        }
    }
}

/// Whether the lengths of the command fit their 4-byte fields, and its
/// encoding the memory of the machine.
pub open spec fn encodable(c: CommandView) -> bool {
    match c {
        CommandView::Put { key, val } => key.len() <= u32::MAX && val.len() <= u32::MAX && 9
            + key.len() + val.len() <= isize::MAX,
        CommandView::Delete { key } => key.len() <= u32::MAX && 5 + key.len() <= isize::MAX,
    }
}

/// The bytes of a command.
pub open spec fn encoding(c: CommandView) -> Seq<u8> {
    match c {
        CommandView::Put { key, val } => seq![1u8] + be32(key.len() as u32) + key + be32(
            val.len() as u32,
        ) + val,
        CommandView::Delete { key } => seq![2u8] + be32(key.len() as u32) + key,
    }
}

/// The command at the start of `data`, or why there is none. The tag, the
/// key's length and the key are read first, so bytes that end within them
/// are cut short whatever their tag is. Bytes after the command are passed over.
pub open spec fn decoding(data: Seq<u8>) -> Result<CommandView, DecodeError> {
    if data.len() < 5 {
        Err(DecodeError::Truncated)
    } else {
        let klen = from_be32(data.subrange(1, 5)) as int;
        if data.len() < 5 + klen {
            Err(DecodeError::Truncated)
        } else {
            let key = data.subrange(5, 5 + klen);
            if data[0] == 1 {
                if data.len() < 9 + klen {
                    Err(DecodeError::Truncated)
                } else {
                    let vlen = from_be32(data.subrange(5 + klen, 9 + klen)) as int;
                    if data.len() < 9 + klen + vlen {
                        Err(DecodeError::Truncated)
                    } else {
                        Ok(CommandView::Put { key, val: data.subrange(9 + klen, 9 + klen + vlen) })
                    }
                }
            } else if data[0] == 2 {
                Ok(CommandView::Delete { key })
            } else {
                Err(DecodeError::UnknownTag)
            }
        }
    }
}

/// The contents of what decoding returns.
pub open spec fn decoded_view(r: Result<Command, DecodeError>) -> Result<CommandView, DecodeError> {
    match r {
        Ok(c) => Ok(c@),
        Err(e) => Err(e),
    }
}

/// Decoding undoes encoding, whatever follows the command.
pub proof fn law_decode_encode(c: CommandView, rest: Seq<u8>)
    requires
        encodable(c),
    ensures
        decoding(encoding(c) + rest) == Ok::<CommandView, DecodeError>(c),
{
    let data = encoding(c) + rest;
    match c {
        CommandView::Put { key, val } => {
            let klen = key.len() as int;
            let vlen = val.len() as int;
            lemma_be32(klen as u32);
            lemma_be32(vlen as u32);
            assert(data.subrange(1, 5) =~= be32(klen as u32));
            assert(data.subrange(5, 5 + klen) =~= key);
            assert(data.subrange(5 + klen, 9 + klen) =~= be32(vlen as u32));
            assert(data.subrange(9 + klen, 9 + klen + vlen) =~= val);
            assert(data[0] == 1);
        },
        CommandView::Delete { key } => {
            let klen = key.len() as int;
            lemma_be32(klen as u32);
            assert(data.subrange(1, 5) =~= be32(klen as u32));
            assert(data.subrange(5, 5 + klen) =~= key);
            assert(data[0] == 2);
        },
    }
}

impl Command {
    /// Whether the command can be encoded: its lengths fit their fields.
    pub fn can_encode(&self) -> (r: bool)
        ensures
            r == encodable(self@),
    {
        match self {
            Command::Put { key, val } => key.len() <= u32::MAX as usize && val.len()
                <= u32::MAX as usize && 9u128 + key.len() as u128 + val.len() as u128
                <= isize::MAX as u128,
            Command::Delete { key } => key.len() <= u32::MAX as usize && 5u128 + key.len() as u128
                <= isize::MAX as u128,
        }
    }

    /// The bytes of the command.
    pub fn encode(&self) -> (out: Vec<u8>)
        requires
            encodable(self@),
        ensures
            out@ == encoding(self@),
    {
        let mut buf = buffer_new();
        match self {
            Command::Put { key, val } => {
                proof {
                    lemma_be32(key@.len() as u32);
                    lemma_be32(val@.len() as u32);
                }
                buffer_put_u8(&mut buf, 1);
                buffer_put_u32(&mut buf, key.len() as u32);
                buffer_extend(&mut buf, key.as_slice());
                buffer_put_u32(&mut buf, val.len() as u32);
                buffer_extend(&mut buf, val.as_slice());
                assert(buffer_bytes(buf) =~= encoding(self@));
            },
            Command::Delete { key } => {
                proof {
                    lemma_be32(key@.len() as u32);
                }
                buffer_put_u8(&mut buf, 2);
                buffer_put_u32(&mut buf, key.len() as u32);
                buffer_extend(&mut buf, key.as_slice());
                assert(buffer_bytes(buf) =~= encoding(self@));
            },
        }
        buffer_to_vec(&buf)
    }

    /// The command that the bytes start with. Bytes that end before the
    /// command does, and a tag that names no command, are reported.
    pub fn decode(data: &[u8]) -> (r: Result<Command, DecodeError>)
        ensures
            decoded_view(r) == decoding(data@),
    {
        if data.len() < 1 {
            return Err(DecodeError::Truncated);
        }
        let (tag, rest) = take_u8(data);
        if rest.len() < 4 {
            return Err(DecodeError::Truncated);
        }
        let (klen, rest) = take_u32(rest);
        assert(data@.skip(1).subrange(0, 4) =~= data@.subrange(1, 5));
        if rest.len() < klen as usize {
            return Err(DecodeError::Truncated);
        }
        let (key, rest) = take_bytes(rest, klen as usize);
        assert(data@.skip(1).skip(4).take(klen as int) =~= data@.subrange(5, 5 + klen));
        assert(data@.skip(1).skip(4).skip(klen as int) =~= data@.skip(5 + klen));
        if tag == 1 {
            if rest.len() < 4 {
                return Err(DecodeError::Truncated);
            }
            let (vlen, rest) = take_u32(rest);
            assert(data@.skip(5 + klen).subrange(0, 4) =~= data@.subrange(5 + klen, 9 + klen));
            if rest.len() < vlen as usize {
                return Err(DecodeError::Truncated);
            }
            let (val, rest) = take_bytes(rest, vlen as usize);
            assert(data@.skip(5 + klen).skip(4).take(vlen as int) =~= data@.subrange(
                9 + klen,
                9 + klen + vlen,
            ));
            Ok(Command::Put { key, val })
        } else if tag == 2 {
            Ok(Command::Delete { key })
        } else {
            Err(DecodeError::UnknownTag)
        }
    }
}

} // verus!
