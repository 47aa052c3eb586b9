use vstd::prelude::*;
use vstd::bytes::{spec_u32_to_le_bytes, spec_u64_to_le_bytes};
use crate::model::{DocSpec, EntrySpec, ValueSpec};
use crate::section::{pad_len, zeros};

verus! {

/// The on-disk tag of each metadata value variant.
pub open spec fn value_tag(v: ValueSpec) -> u32 {
    match v {
        ValueSpec::Bool(_) => 0,
        ValueSpec::UInt32(_) => 1,
        ValueSpec::Int32(_) => 2,
        ValueSpec::UInt64(_) => 3,
        ValueSpec::Int64(_) => 4,
        ValueSpec::Float32Bits(_) => 5,
        ValueSpec::Float64Bits(_) => 6,
        ValueSpec::Str(_) => 7,
        ValueSpec::Array(_) => 8,
    }
}

/// The byte encoding of one metadata value: a `u32` tag, then the value's
/// fixed-width little-endian payload, length-prefixed bytes for a string, or
/// a count followed by the elements' own encodings for an array.
pub open spec fn spec_encode_value(v: ValueSpec) -> Seq<u8>
    decreases v, 2int,
{
    spec_u32_to_le_bytes(value_tag(v)) + match v {
        ValueSpec::Bool(b) => seq![
            if b {
                1u8
            } else {
                0u8
            },
        ],
        ValueSpec::UInt32(x) => spec_u32_to_le_bytes(x),
        ValueSpec::Int32(x) => spec_u32_to_le_bytes(x as u32),
        ValueSpec::UInt64(x) => spec_u64_to_le_bytes(x),
        ValueSpec::Int64(x) => spec_u64_to_le_bytes(x as u64),
        ValueSpec::Float32Bits(x) => spec_u32_to_le_bytes(x),
        ValueSpec::Float64Bits(x) => spec_u64_to_le_bytes(x),
        ValueSpec::Str(s) => spec_u32_to_le_bytes(s.len() as u32) + s,
        ValueSpec::Array(items) => spec_u32_to_le_bytes(items.len() as u32)
            + spec_encode_values(items),
    }
}

/// The concatenated encodings of a run of metadata values, each one's
/// encoding laid out after the previous one's.
pub open spec fn spec_encode_values(items: Seq<ValueSpec>) -> Seq<u8>
    decreases items, 1int,
{
    value_encodings(items).flatten()
}

/// The encodings of a run of metadata values, one sequence per value.
pub open spec fn value_encodings(items: Seq<ValueSpec>) -> Seq<Seq<u8>>
    decreases items, 0int,
{
    Seq::new(
        items.len(),
        |i: int|
            if 0 <= i < items.len() {
                spec_encode_value(items[i])
            } else {
                Seq::empty()
            },
    )
}

/// The byte encoding of one metadata pair: the key, length-prefixed, then the
/// value.
pub open spec fn spec_encode_pair(p: (Seq<u8>, ValueSpec)) -> Seq<u8> {
    spec_u32_to_le_bytes(p.0.len() as u32) + p.0 + spec_encode_value(p.1)
}

/// The encodings of the metadata pairs, one sequence per pair.
pub open spec fn pair_encodings(pairs: Seq<(Seq<u8>, ValueSpec)>) -> Seq<Seq<u8>> {
    Seq::new(
        pairs.len(),
        |i: int|
            if 0 <= i < pairs.len() {
                spec_encode_pair(pairs[i])
            } else {
                Seq::empty()
            },
    )
}

/// The concatenated encodings of the metadata pairs, in declaration order.
pub open spec fn spec_encode_pairs(pairs: Seq<(Seq<u8>, ValueSpec)>) -> Seq<u8> {
    pair_encodings(pairs).flatten()
}

/// The byte encoding of one entry-table record: the name, length-prefixed,
/// the element type's tag, the dimension count, each dimension, then the
/// declared byte length. Offsets are not stored: the reader recomputes them
/// from the running layout.
pub open spec fn spec_encode_entry(e: EntrySpec) -> Seq<u8> {
    spec_u32_to_le_bytes(e.name.len() as u32) + e.name + spec_u32_to_le_bytes(
        e.element_type.spec_tag(),
    ) + spec_u32_to_le_bytes(e.shape.len() as u32) + dim_encodings(e.shape).flatten()
        + spec_u64_to_le_bytes(e.byte_length)
}

/// The encodings of a shape's dimensions, one four-byte sequence per
/// dimension.
pub open spec fn dim_encodings(shape: Seq<u32>) -> Seq<Seq<u8>> {
    Seq::new(
        shape.len(),
        |i: int|
            if 0 <= i < shape.len() {
                spec_u32_to_le_bytes(shape[i])
            } else {
                Seq::empty()
            },
    )
}

/// The encodings of the entry-table records, one sequence per record.
pub open spec fn entry_encodings(entries: Seq<EntrySpec>) -> Seq<Seq<u8>> {
    Seq::new(
        entries.len(),
        |i: int|
            if 0 <= i < entries.len() {
                spec_encode_entry(entries[i])
            } else {
                Seq::empty()
            },
    )
}

/// The concatenated encodings of the entry-table records, in file order.
pub open spec fn spec_encode_entries(entries: Seq<EntrySpec>) -> Seq<u8> {
    entry_encodings(entries).flatten()
}

/// Everything before the data region: magic, version, alignment, the
/// metadata block (count then pairs), and the entry table (count then
/// records).
pub open spec fn spec_encode_header_table(d: DocSpec) -> Seq<u8> {
    crate::model::spec_magic() + spec_u32_to_le_bytes(d.version) + spec_u32_to_le_bytes(
        d.alignment,
    ) + spec_u32_to_le_bytes(d.metadata.len() as u32) + spec_encode_pairs(d.metadata)
        + spec_u32_to_le_bytes(d.entries.len() as u32) + spec_encode_entries(d.entries)
}

/// The position where the data region begins: the end of the header and
/// table, rounded up to the alignment.
pub open spec fn spec_data_start(d: DocSpec) -> int {
    let table_end = spec_encode_header_table(d).len() as int;
    table_end + pad_len(table_end, d.alignment as int)
}

/// The data region from position `pos`: each entry's payload, padded up to
/// the alignment before the next entry's payload; nothing follows the last
/// payload, so a valid document ends exactly at its last entry's end.
pub open spec fn spec_encode_data(payloads: Seq<Seq<u8>>, align: int, pos: int) -> Seq<u8>
    decreases payloads.len(),
{
    if payloads.len() == 0 {
        Seq::empty()
    } else if payloads.len() == 1 {
        payloads[0]
    } else {
        let end = pos + payloads[0].len();
        let pad = pad_len(end, align);
        payloads[0] + zeros(pad) + spec_encode_data(payloads.drop_first(), align, end + pad)
    }
}

/// The byte encoding of a whole document together with its entries' data:
/// header and table, padding up to the data region, then the padded payloads.
pub open spec fn spec_encode_document(d: DocSpec, payloads: Seq<Seq<u8>>) -> Seq<u8> {
    let ht = spec_encode_header_table(d);
    ht + zeros(pad_len(ht.len() as int, d.alignment as int)) + spec_encode_data(
        payloads,
        d.alignment as int,
        spec_data_start(d),
    )
}

/// Flattening one more piece appends exactly that piece.
pub proof fn lemma_flatten_take_step(ss: Seq<Seq<u8>>, i: int)
    requires
        0 <= i < ss.len(),
    ensures
        ss.take(i + 1).flatten() == ss.take(i).flatten() + ss[i],
{
    assert(ss.take(i + 1) =~= ss.take(i).push(ss[i]));
    ss.take(i + 1).lemma_flatten_and_flatten_alt_are_equivalent();
    ss.take(i).lemma_flatten_and_flatten_alt_are_equivalent();
    assert(ss.take(i).push(ss[i]).drop_last() =~= ss.take(i));
}

/// A flattened prefix never passes the whole flattening in length.
pub proof fn lemma_flatten_take_le(ss: Seq<Seq<u8>>, i: int)
    requires
        0 <= i <= ss.len(),
    ensures
        ss.take(i).flatten().len() <= ss.flatten().len(),
    decreases ss.len() - i,
{
    if i < ss.len() {
        lemma_flatten_take_step(ss, i);
        lemma_flatten_take_le(ss, i + 1);
    } else {
        assert(ss.take(i) =~= ss);
    }
}

} // verus!
