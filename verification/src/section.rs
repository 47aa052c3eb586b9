use vstd::prelude::*;
use vstd::bytes::{spec_u32_from_le_bytes, spec_u32_to_le_bytes};
use crate::codec::{read_bytes_with_len, read_u32, write_bytes, write_u32};
use crate::error::FormatError;
use crate::stream::{ByteReader, ByteWriter};

verus! {

/// Whether `a` is a positive power of two.
pub open spec fn is_power_of_two(a: int) -> bool
    decreases a,
{
    if a <= 0 {
        false
    } else if a == 1 {
        true
    } else {
        a % 2 == 0 && is_power_of_two(a / 2)
    }
}

/// The number of padding bytes needed to carry position `pos` up to the next
/// multiple of `align`: `(align - pos % align) % align`.
pub open spec fn pad_len(pos: int, align: int) -> int
    recommends
        align >= 1,
{
    (align - pos % align) % align
}

/// The padding after any position is always in `[0, align)`, and carries the
/// position exactly to a multiple of the alignment.
pub proof fn lemma_pad_len_bounds(pos: int, align: int)
    requires
        pos >= 0,
        align >= 1,
    ensures
        0 <= pad_len(pos, align) < align,
        (pos + pad_len(pos, align)) % align == 0,
        pos % align == 0 ==> pad_len(pos, align) == 0,
{
    let m = pos % align;
    assert(0 <= m < align) by {
        vstd::arithmetic::div_mod::lemma_mod_bound(pos, align);
    }
    if m == 0 {
        assert(pad_len(pos, align) == 0) by {
            vstd::arithmetic::div_mod::lemma_mod_self_0(align);
        }
        assert((pos + 0) % align == 0);
    } else {
        assert(pad_len(pos, align) == align - m) by {
            vstd::arithmetic::div_mod::lemma_small_mod((align - m) as nat, align as nat);
        }
        vstd::arithmetic::div_mod::lemma_mod_bound(align - m, align);
        assert((pos + (align - m)) % align == 0) by {
            vstd::arithmetic::div_mod::lemma_add_mod_noop(pos, align - m, align);
            assert((m + (align - m) % align) % align == ((align - m) + m) % align) by {
                vstd::arithmetic::div_mod::lemma_small_mod((align - m) as nat, align as nat);
            }
            vstd::arithmetic::div_mod::lemma_mod_self_0(align);
        }
    }
}

/// A sequence of `n` zero bytes, the padding a section writer emits.
pub open spec fn zeros(n: int) -> Seq<u8> {
    Seq::new(n as nat, |i: int| 0u8)
}

/// Checks in executable code that `a` is a positive power of two.
pub fn check_power_of_two(a: u32) -> (r: bool)
    ensures
        r <==> is_power_of_two(a as int),
{
    if a == 0 {
        return false;
    }
    let mut x = a;
    while x % 2 == 0 && x > 1
        invariant
            x >= 1,
            is_power_of_two(x as int) <==> is_power_of_two(a as int),
        decreases x,
    {
        x = x / 2;
    }
    x == 1
}

/// Computes the padding needed from position `pos` to the next multiple of
/// `align`.
pub fn padding_for(pos: usize, align: u32) -> (r: usize)
    requires
        align >= 1,
    ensures
        r == pad_len(pos as int, align as int),
        0 <= r < align,
    {
    proof {
        lemma_pad_len_bounds(pos as int, align as int);
    }
    let a = align as usize;
    (a - pos % a) % a
}

/// Computes the padding needed from a 64-bit position `pos` to the next
/// multiple of `align`.
pub fn padding_for_u64(pos: u64, align: u32) -> (r: u64)
    requires
        align >= 1,
    ensures
        r == pad_len(pos as int, align as int),
        0 <= r < align,
{
    proof {
        lemma_pad_len_bounds(pos as int, align as int);
    }
    let a = align as u64;
    (a - pos % a) % a
}

/// What reading one section from `s` at position `pos` yields: the outcome
/// (tag and payload, or the error), and the stream position afterwards. A
/// declared payload length that would pass the caller-supplied `bound` is
/// malformed; a payload or padding that passes the end of the stream is a
/// short read. A failed fixed-width read leaves the position where that read
/// began.
pub open spec fn spec_section_read(s: Seq<u8>, pos: int, align: int, bound: int) -> (Result<
    (u32, Seq<u8>),
    FormatError,
>, int)
    recommends
        align >= 1,
{
    if pos + 4 > s.len() {
        (Err(FormatError::UnexpectedEof), pos)
    } else {
        let tag = spec_u32_from_le_bytes(s.subrange(pos, pos + 4));
        if pos + 8 > s.len() {
            (Err(FormatError::UnexpectedEof), pos + 4)
        } else {
            let len = spec_u32_from_le_bytes(s.subrange(pos + 4, pos + 8)) as int;
            if pos + 8 + len > bound {
                (Err(FormatError::MalformedSection), pos + 8)
            } else if pos + 8 + len > s.len() {
                (Err(FormatError::UnexpectedEof), pos + 8)
            } else {
                let end = pos + 8 + len;
                let pad = pad_len(end, align);
                if end + pad > s.len() {
                    (Err(FormatError::UnexpectedEof), end)
                } else {
                    (Ok((tag, s.subrange(pos + 8, end))), end + pad)
                }
            }
        }
    }
}

/// The byte encoding of one section starting at sink position `pos`: tag,
/// declared length, payload, then zero padding to the next alignment boundary.
pub open spec fn spec_section_bytes(pos: int, align: int, tag: u32, payload: Seq<u8>) -> Seq<u8>
    recommends
        align >= 1,
{
    spec_u32_to_le_bytes(tag) + spec_u32_to_le_bytes(payload.len() as u32) + payload + zeros(
        pad_len(pos + 8 + payload.len(), align),
    )
}

/// Reads one section: a tag, a declared payload length, the payload, then
/// discards padding up to the next alignment boundary. Fails with
/// `MalformedSection` if the declared length would read past `bound`, and with
/// `UnexpectedEof` if the stream ends first. The outcome and the final
/// position are exactly those of `spec_section_read`.
pub fn read_section(reader: &mut ByteReader, align: u32, bound: usize) -> (r: Result<
    (u32, Vec<u8>),
    FormatError,
>)
    requires
        old(reader).wf(),
        align >= 1,
    ensures
        final(reader).wf(),
        final(reader).bytes() == old(reader).bytes(),
        ({
            let (res, p) = spec_section_read(
                old(reader).bytes(),
                old(reader).position(),
                align as int,
                bound as int,
            );
            &&& final(reader).position() == p
            &&& match r {
                Ok((tag, payload)) => res == Ok::<_, FormatError>((tag, payload@)),
                Err(e) => res == Err::<(u32, Seq<u8>), _>(e),
            }
        }),
{
    let tag = read_u32(reader)?;
    let len_field = read_u32(reader)?;
    let len = len_field as usize;
    if len > bound || reader.pos() > bound - len {
        return Err(FormatError::MalformedSection);
    }
    let payload = read_bytes_with_len(reader, len)?;
    let pad = padding_for(reader.pos(), align);
    reader.skip(pad)?;
    Ok((tag, payload))
}

/// Writes `n` zero bytes, or fails with `WriteFailure` leaving the sink
/// unchanged.
pub fn write_padding(writer: &mut ByteWriter, n: usize) -> (r: Result<(), FormatError>)
    requires
        old(writer).wf(),
    ensures
        final(writer).wf(),
        final(writer).capacity() == old(writer).capacity(),
        match r {
            Ok(()) => {
                &&& old(writer).bytes().len() + n <= final(writer).capacity()
                &&& final(writer).bytes() == old(writer).bytes() + zeros(n as int)
            },
            Err(e) => {
                &&& e == FormatError::WriteFailure
                &&& old(writer).bytes().len() + n > final(writer).capacity()
                &&& final(writer).bytes() == old(writer).bytes()
            },
        },
{
    let mut pad: Vec<u8> = Vec::new();
    let mut i: usize = 0;
    while i < n
        invariant
            0 <= i <= n,
            pad@ == zeros(i as int),
        decreases n - i,
    {
        pad.push(0u8);
        i = i + 1;
        proof {
            assert(pad@ =~= zeros(i as int));
        }
    }
    write_bytes(writer, pad.as_slice())
}

/// Writes one section whole — tag, declared length, payload, zero padding to
/// the next alignment boundary — and returns the number of padding bytes
/// written, which the caller needs to compute the next section's offset. If
/// the sink cannot take the whole section, fails with `WriteFailure` before
/// writing anything.
pub fn write_section(writer: &mut ByteWriter, align: u32, tag: u32, payload: &[u8]) -> (r: Result<
    usize,
    FormatError,
>)
    requires
        old(writer).wf(),
        align >= 1,
        payload@.len() <= u32::MAX,
    ensures
        final(writer).wf(),
        final(writer).capacity() == old(writer).capacity(),
        ({
            let section = spec_section_bytes(
                old(writer).bytes().len() as int,
                align as int,
                tag,
                payload@,
            );
            match r {
                Ok(pad) => {
                    &&& old(writer).bytes().len() + section.len() <= final(writer).capacity()
                    &&& final(writer).bytes() == old(writer).bytes() + section
                    &&& pad == pad_len(
                        old(writer).bytes().len() + 8 + payload@.len() as int,
                        align as int,
                    )
                    &&& (final(writer).bytes().len() as int) % (align as int) == 0
                },
                Err(e) => {
                    &&& e == FormatError::WriteFailure
                    &&& old(writer).bytes().len() + section.len() > final(writer).capacity()
                    &&& final(writer).bytes() == old(writer).bytes()
                },
            }
        }),
{
    let start = writer.len();
    proof {
        vstd::bytes::lemma_auto_spec_u32_to_from_le_bytes();
        lemma_pad_len_bounds(start + 8 + payload@.len() as int, align as int);
    }
    if payload.len() > usize::MAX - 8 || start > usize::MAX - 8 - payload.len() {
        // The section cannot even be measured in `usize`, so the sink, which
        // already holds `start` bytes, cannot take it whole.
        return Err(FormatError::WriteFailure);
    }
    let body_end = start + 8 + payload.len();
    let pad = padding_for(body_end, align);
    if pad > usize::MAX - body_end {
        return Err(FormatError::WriteFailure);
    }
    let total = 8 + payload.len() + pad;
    if total > writer.cap() - start {
        return Err(FormatError::WriteFailure);
    }
    let res1 = write_u32(writer, tag);
    proof {
        assert(res1 is Ok);
    }
    let res2 = write_u32(writer, payload.len() as u32);
    proof {
        assert(res2 is Ok);
    }
    let res3 = write_bytes(writer, payload);
    proof {
        assert(res3 is Ok);
    }
    let res4 = write_padding(writer, pad);
    proof {
        assert(res4 is Ok);
        assert(writer.bytes() =~= old(writer).bytes() + spec_section_bytes(
            old(writer).bytes().len() as int,
            align as int,
            tag,
            payload@,
        ));
    }
    Ok(pad)
}

} // verus!
