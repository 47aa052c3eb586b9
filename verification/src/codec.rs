use vstd::prelude::*;
use vstd::bytes::{
    spec_u32_from_le_bytes, spec_u32_to_le_bytes, spec_u64_from_le_bytes, spec_u64_to_le_bytes,
    u32_from_le_bytes, u32_to_le_bytes, u64_from_le_bytes, u64_to_le_bytes,
    lemma_auto_spec_u32_to_from_le_bytes, lemma_auto_spec_u64_to_from_le_bytes,
};
use crate::error::FormatError;
use crate::stream::{ByteReader, ByteWriter};

verus! {

/// The little-endian four-byte encoding of an `i32`: the encoding of its
/// two's-complement bit pattern.
pub open spec fn spec_i32_to_le_bytes(x: i32) -> Seq<u8> {
    spec_u32_to_le_bytes(x as u32)
}

/// The `i32` decoded from four little-endian bytes.
pub open spec fn spec_i32_from_le_bytes(s: Seq<u8>) -> i32
    recommends
        s.len() == 4,
{
    spec_u32_from_le_bytes(s) as i32
}

/// Decoding inverts encoding for `i32`, and vice versa.
pub proof fn lemma_i32_le_bytes_round_trip()
    ensures
        forall|x: i32|
            {
                &&& (#[trigger] spec_i32_to_le_bytes(x)).len() == 4
                &&& spec_i32_from_le_bytes(spec_i32_to_le_bytes(x)) == x
            },
        forall|s: Seq<u8>|
            s.len() == 4 ==> #[trigger] spec_i32_to_le_bytes(spec_i32_from_le_bytes(s)) == s,
{
    lemma_auto_spec_u32_to_from_le_bytes();
    assert forall|x: i32|
        {
            &&& (#[trigger] spec_i32_to_le_bytes(x)).len() == 4
            &&& spec_i32_from_le_bytes(spec_i32_to_le_bytes(x)) == x
        } by {
        assert((x as u32) as i32 == x) by (bit_vector);
    }
    assert forall|s: Seq<u8>|
        s.len() == 4 implies #[trigger] spec_i32_to_le_bytes(spec_i32_from_le_bytes(s)) == s by {
        let u = spec_u32_from_le_bytes(s);
        assert((u as i32) as u32 == u) by (bit_vector);
    }
}

/// Reads a run of exactly `N` bytes, or fails with `UnexpectedEof` leaving the
/// reader unchanged.
pub fn read_bytes<const N: usize>(reader: &mut ByteReader) -> (r: Result<Vec<u8>, FormatError>)
    requires
        old(reader).wf(),
    ensures
        final(reader).wf(),
        final(reader).bytes() == old(reader).bytes(),
        match r {
            Ok(v) => {
                &&& old(reader).position() + N <= final(reader).bytes().len()
                &&& v@ == final(reader).bytes().subrange(
                    old(reader).position(),
                    old(reader).position() + N,
                )
                &&& final(reader).position() == old(reader).position() + N
            },
            Err(e) => {
                &&& e == FormatError::UnexpectedEof
                &&& old(reader).position() + N > final(reader).bytes().len()
                &&& final(reader).position() == old(reader).position()
            },
        },
{
    reader.read_exact(N)
}

/// Reads a run of exactly `len` bytes, or fails with `UnexpectedEof` leaving
/// the reader unchanged. No partial read is ever returned.
pub fn read_bytes_with_len(reader: &mut ByteReader, len: usize) -> (r: Result<
    Vec<u8>,
    FormatError,
>)
    requires
        old(reader).wf(),
    ensures
        final(reader).wf(),
        final(reader).bytes() == old(reader).bytes(),
        match r {
            Ok(v) => {
                &&& old(reader).position() + len <= final(reader).bytes().len()
                &&& v@ == final(reader).bytes().subrange(
                    old(reader).position(),
                    old(reader).position() + len,
                )
                &&& final(reader).position() == old(reader).position() + len
            },
            Err(e) => {
                &&& e == FormatError::UnexpectedEof
                &&& old(reader).position() + len > final(reader).bytes().len()
                &&& final(reader).position() == old(reader).position()
            },
        },
{
    reader.read_exact(len)
}

/// Reads a little-endian `u32`, or fails with `UnexpectedEof` leaving the
/// reader unchanged.
pub fn read_u32(reader: &mut ByteReader) -> (r: Result<u32, FormatError>)
    requires
        old(reader).wf(),
    ensures
        final(reader).wf(),
        final(reader).bytes() == old(reader).bytes(),
        match r {
            Ok(v) => {
                &&& old(reader).position() + 4 <= final(reader).bytes().len()
                &&& v == spec_u32_from_le_bytes(
                    final(reader).bytes().subrange(
                        old(reader).position(),
                        old(reader).position() + 4,
                    ),
                )
                &&& final(reader).position() == old(reader).position() + 4
            },
            Err(e) => {
                &&& e == FormatError::UnexpectedEof
                &&& old(reader).position() + 4 > final(reader).bytes().len()
                &&& final(reader).position() == old(reader).position()
            },
        },
{
    let bytes = reader.read_exact(4)?;
    Ok(u32_from_le_bytes(bytes.as_slice()))
}

/// Reads a little-endian `i32`, or fails with `UnexpectedEof` leaving the
/// reader unchanged.
pub fn read_i32(reader: &mut ByteReader) -> (r: Result<i32, FormatError>)
    requires
        old(reader).wf(),
    ensures
        final(reader).wf(),
        final(reader).bytes() == old(reader).bytes(),
        match r {
            Ok(v) => {
                &&& old(reader).position() + 4 <= final(reader).bytes().len()
                &&& v == spec_i32_from_le_bytes(
                    final(reader).bytes().subrange(
                        old(reader).position(),
                        old(reader).position() + 4,
                    ),
                )
                &&& final(reader).position() == old(reader).position() + 4
            },
            Err(e) => {
                &&& e == FormatError::UnexpectedEof
                &&& old(reader).position() + 4 > final(reader).bytes().len()
                &&& final(reader).position() == old(reader).position()
            },
        },
{
    let bytes = reader.read_exact(4)?;
    let u = u32_from_le_bytes(bytes.as_slice());
    let v = u as i32;
    proof {
        assert(u as i32 == spec_u32_from_le_bytes(bytes@) as i32);
    }
    Ok(v)
}

/// Reads a little-endian `u64`, or fails with `UnexpectedEof` leaving the
/// reader unchanged.
pub fn read_u64(reader: &mut ByteReader) -> (r: Result<u64, FormatError>)
    requires
        old(reader).wf(),
    ensures
        final(reader).wf(),
        final(reader).bytes() == old(reader).bytes(),
        match r {
            Ok(v) => {
                &&& old(reader).position() + 8 <= final(reader).bytes().len()
                &&& v == spec_u64_from_le_bytes(
                    final(reader).bytes().subrange(
                        old(reader).position(),
                        old(reader).position() + 8,
                    ),
                )
                &&& final(reader).position() == old(reader).position() + 8
            },
            Err(e) => {
                &&& e == FormatError::UnexpectedEof
                &&& old(reader).position() + 8 > final(reader).bytes().len()
                &&& final(reader).position() == old(reader).position()
            },
        },
{
    let bytes = reader.read_exact(8)?;
    Ok(u64_from_le_bytes(bytes.as_slice()))
}

/// Writes a run of bytes whole, or fails with `WriteFailure` leaving the sink
/// unchanged.
pub fn write_bytes(writer: &mut ByteWriter, data: &[u8]) -> (r: Result<(), FormatError>)
    requires
        old(writer).wf(),
    ensures
        final(writer).wf(),
        final(writer).capacity() == old(writer).capacity(),
        match r {
            Ok(()) => {
                &&& old(writer).bytes().len() + data@.len() <= final(writer).capacity()
                &&& final(writer).bytes() == old(writer).bytes() + data@
            },
            Err(e) => {
                &&& e == FormatError::WriteFailure
                &&& old(writer).bytes().len() + data@.len() > final(writer).capacity()
                &&& final(writer).bytes() == old(writer).bytes()
            },
        },
{
    writer.write_all(data)
}

/// Writes a `u32` as four little-endian bytes, or fails with `WriteFailure`
/// leaving the sink unchanged.
pub fn write_u32(writer: &mut ByteWriter, value: u32) -> (r: Result<(), FormatError>)
    requires
        old(writer).wf(),
    ensures
        final(writer).wf(),
        final(writer).capacity() == old(writer).capacity(),
        match r {
            Ok(()) => {
                &&& old(writer).bytes().len() + 4 <= final(writer).capacity()
                &&& final(writer).bytes() == old(writer).bytes() + spec_u32_to_le_bytes(value)
            },
            Err(e) => {
                &&& e == FormatError::WriteFailure
                &&& old(writer).bytes().len() + 4 > final(writer).capacity()
                &&& final(writer).bytes() == old(writer).bytes()
            },
        },
{
    proof {
        lemma_auto_spec_u32_to_from_le_bytes();
    }
    let bytes = u32_to_le_bytes(value);
    writer.write_all(bytes.as_slice())
}

/// Writes an `i32` as four little-endian bytes (two's complement), or fails
/// with `WriteFailure` leaving the sink unchanged.
pub fn write_i32(writer: &mut ByteWriter, value: i32) -> (r: Result<(), FormatError>)
    requires
        old(writer).wf(),
    ensures
        final(writer).wf(),
        final(writer).capacity() == old(writer).capacity(),
        match r {
            Ok(()) => {
                &&& old(writer).bytes().len() + 4 <= final(writer).capacity()
                &&& final(writer).bytes() == old(writer).bytes() + spec_i32_to_le_bytes(value)
            },
            Err(e) => {
                &&& e == FormatError::WriteFailure
                &&& old(writer).bytes().len() + 4 > final(writer).capacity()
                &&& final(writer).bytes() == old(writer).bytes()
            },
        },
{
    write_u32(writer, value as u32)
}

/// Writes a `u64` as eight little-endian bytes, or fails with `WriteFailure`
/// leaving the sink unchanged.
pub fn write_u64(writer: &mut ByteWriter, value: u64) -> (r: Result<(), FormatError>)
    requires
        old(writer).wf(),
    ensures
        final(writer).wf(),
        final(writer).capacity() == old(writer).capacity(),
        match r {
            Ok(()) => {
                &&& old(writer).bytes().len() + 8 <= final(writer).capacity()
                &&& final(writer).bytes() == old(writer).bytes() + spec_u64_to_le_bytes(value)
            },
            Err(e) => {
                &&& e == FormatError::WriteFailure
                &&& old(writer).bytes().len() + 8 > final(writer).capacity()
                &&& final(writer).bytes() == old(writer).bytes()
            },
        },
{
    proof {
        lemma_auto_spec_u64_to_from_le_bytes();
    }
    let bytes = u64_to_le_bytes(value);
    writer.write_all(bytes.as_slice())
}

/// Whether any bytes remain to be read.
pub fn has_data_left(reader: &ByteReader) -> (r: bool)
    requires
        reader.wf(),
    ensures
        r <==> reader.position() < reader.bytes().len(),
{
    reader.pos() < reader.len()
}

} // verus!
