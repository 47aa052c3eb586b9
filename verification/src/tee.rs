use vstd::prelude::*;
use vstd::bytes::{spec_u32_from_le_bytes, u32_from_le_bytes};
use crate::codec::spec_i32_from_le_bytes;
use crate::error::FormatError;
use crate::stream::{ByteReader, ByteWriter};

verus! {

/// The tee contract shared by every tee operation, over the bytes it moves:
/// on success the sink is extended by exactly the bytes consumed from the
/// source, so both sides of the tee carry identical bytes.
pub open spec fn teed(
    reader_pre: ByteReader,
    reader_post: ByteReader,
    writer_pre: ByteWriter,
    writer_post: ByteWriter,
    len: int,
) -> bool {
    &&& reader_pre.position() + len <= reader_post.bytes().len()
    &&& reader_post.position() == reader_pre.position() + len
    &&& writer_post.bytes() == writer_pre.bytes() + reader_post.bytes().subrange(
        reader_pre.position(),
        reader_pre.position() + len,
    )
}

/// Reads a run of exactly `N` bytes and mirrors the same bytes to the sink.
/// Fails atomically: on `UnexpectedEof` neither stream moved; on
/// `WriteFailure` the bytes were already consumed from the source but the sink
/// is unchanged, and the caller must treat the stream pair as unusable.
pub fn rw<const N: usize>(reader: &mut ByteReader, writer: &mut ByteWriter) -> (r: Result<
    Vec<u8>,
    FormatError,
>)
    requires
        old(reader).wf(),
        old(writer).wf(),
    ensures
        final(reader).wf(),
        final(writer).wf(),
        final(reader).bytes() == old(reader).bytes(),
        final(writer).capacity() == old(writer).capacity(),
        match r {
            Ok(v) => {
                &&& teed(*old(reader), *final(reader), *old(writer), *final(writer), N as int)
                &&& v@ == final(reader).bytes().subrange(
                    old(reader).position(),
                    old(reader).position() + N,
                )
            },
            Err(e) => {
                &&& final(writer).bytes() == old(writer).bytes()
                &&& (e == FormatError::UnexpectedEof || e == FormatError::WriteFailure)
                &&& (e == FormatError::UnexpectedEof ==> old(reader).position() + N > final(reader).bytes().len()
                    && final(reader).position() == old(reader).position())
                &&& (e == FormatError::WriteFailure ==> old(reader).position() + N <= final(reader).bytes().len()
                    && final(reader).position() == old(reader).position() + N
                    && old(writer).bytes().len() + N > final(writer).capacity())
            },
        },
{
    let bytes = reader.read_exact(N)?;
    writer.write_all(bytes.as_slice())?;
    Ok(bytes)
}

/// Reads a run of exactly `len` bytes and mirrors the same bytes to the sink,
/// with the same atomic-failure contract as `rw`.
pub fn rw_bytes_with_len(reader: &mut ByteReader, writer: &mut ByteWriter, len: usize) -> (r:
    Result<Vec<u8>, FormatError>)
    requires
        old(reader).wf(),
        old(writer).wf(),
    ensures
        final(reader).wf(),
        final(writer).wf(),
        final(reader).bytes() == old(reader).bytes(),
        final(writer).capacity() == old(writer).capacity(),
        match r {
            Ok(v) => {
                &&& teed(*old(reader), *final(reader), *old(writer), *final(writer), len as int)
                &&& v@ == final(reader).bytes().subrange(
                    old(reader).position(),
                    old(reader).position() + len,
                )
            },
            Err(e) => {
                &&& final(writer).bytes() == old(writer).bytes()
                &&& (e == FormatError::UnexpectedEof || e == FormatError::WriteFailure)
                &&& (e == FormatError::UnexpectedEof ==> old(reader).position() + len > final(reader).bytes().len()
                    && final(reader).position() == old(reader).position())
                &&& (e == FormatError::WriteFailure ==> old(reader).position() + len <= final(reader).bytes().len()
                    && final(reader).position() == old(reader).position() + len
                    && old(writer).bytes().len() + len > final(writer).capacity())
            },
        },
{
    let bytes = reader.read_exact(len)?;
    writer.write_all(bytes.as_slice())?;
    Ok(bytes)
}

/// Reads a little-endian `u32` and mirrors its four bytes to the sink, with
/// the same atomic-failure contract as `rw`.
pub fn rw_u32(reader: &mut ByteReader, writer: &mut ByteWriter) -> (r: Result<u32, FormatError>)
    requires
        old(reader).wf(),
        old(writer).wf(),
    ensures
        final(reader).wf(),
        final(writer).wf(),
        final(reader).bytes() == old(reader).bytes(),
        final(writer).capacity() == old(writer).capacity(),
        match r {
            Ok(v) => {
                &&& teed(*old(reader), *final(reader), *old(writer), *final(writer), 4)
                &&& v == spec_u32_from_le_bytes(
                    final(reader).bytes().subrange(
                        old(reader).position(),
                        old(reader).position() + 4,
                    ),
                )
            },
            Err(e) => {
                &&& final(writer).bytes() == old(writer).bytes()
                &&& (e == FormatError::UnexpectedEof || e == FormatError::WriteFailure)
                &&& (e == FormatError::UnexpectedEof ==> old(reader).position() + 4 > final(reader).bytes().len()
                    && final(reader).position() == old(reader).position())
                &&& (e == FormatError::WriteFailure ==> old(reader).position() + 4 <= final(reader).bytes().len()
                    && final(reader).position() == old(reader).position() + 4
                    && old(writer).bytes().len() + 4 > final(writer).capacity())
            },
        },
{
    let bytes = rw::<4>(reader, writer)?;
    Ok(u32_from_le_bytes(bytes.as_slice()))
}

/// Reads a little-endian `i32` and mirrors its four bytes to the sink, with
/// the same atomic-failure contract as `rw`.
pub fn rw_i32(reader: &mut ByteReader, writer: &mut ByteWriter) -> (r: Result<i32, FormatError>)
    requires
        old(reader).wf(),
        old(writer).wf(),
    ensures
        final(reader).wf(),
        final(writer).wf(),
        final(reader).bytes() == old(reader).bytes(),
        final(writer).capacity() == old(writer).capacity(),
        match r {
            Ok(v) => {
                &&& teed(*old(reader), *final(reader), *old(writer), *final(writer), 4)
                &&& v == spec_i32_from_le_bytes(
                    final(reader).bytes().subrange(
                        old(reader).position(),
                        old(reader).position() + 4,
                    ),
                )
            },
            Err(e) => {
                &&& final(writer).bytes() == old(writer).bytes()
                &&& (e == FormatError::UnexpectedEof || e == FormatError::WriteFailure)
                &&& (e == FormatError::UnexpectedEof ==> old(reader).position() + 4 > final(reader).bytes().len()
                    && final(reader).position() == old(reader).position())
                &&& (e == FormatError::WriteFailure ==> old(reader).position() + 4 <= final(reader).bytes().len()
                    && final(reader).position() == old(reader).position() + 4
                    && old(writer).bytes().len() + 4 > final(writer).capacity())
            },
        },
{
    let bytes = rw::<4>(reader, writer)?;
    Ok(u32_from_le_bytes(bytes.as_slice()) as i32)
}

} // verus!
