use vstd::prelude::*;
use vstd::bytes::{
    lemma_auto_spec_u32_to_from_le_bytes, lemma_auto_spec_u64_to_from_le_bytes,
    spec_u32_to_le_bytes, spec_u64_to_le_bytes,
};
use crate::encode::{
    dim_encodings, entry_encodings, pair_encodings, spec_data_start, spec_encode_data,
    spec_encode_document, spec_encode_entry, spec_encode_header_table, spec_encode_pair,
    spec_encode_value, spec_encode_values, value_encodings, value_tag,
};
use crate::error::FormatError;
use crate::model::{wf_document, wf_entry, wf_value, DocSpec, ElementType, EntrySpec, ValueSpec};
use crate::parse::{
    lemma_parse_entries_end, lemma_parse_pairs_end, spec_doc_end, spec_entry_offset,
    spec_parse_dims, spec_parse_document, spec_parse_entries, spec_parse_entry, spec_parse_pair,
    spec_parse_pairs, spec_parse_u32, spec_parse_u64, spec_parse_value, spec_parse_values,
    spec_place_entries,
};
use crate::section::{pad_len, zeros};

verus! {

/// Four bytes that are the little-endian encoding of `x` parse back to `x`.
proof fn lemma_parse_u32_at(s: Seq<u8>, pos: int, x: u32)
    requires
        0 <= pos,
        pos + 4 <= s.len(),
        s.subrange(pos, pos + 4) == spec_u32_to_le_bytes(x),
    ensures
        spec_parse_u32(s, pos) == Ok::<_, FormatError>((x, pos + 4)),
{
    lemma_auto_spec_u32_to_from_le_bytes();
    assert(spec_u32_to_le_bytes(x).len() == 4);
}

/// Eight bytes that are the little-endian encoding of `x` parse back to `x`.
proof fn lemma_parse_u64_at(s: Seq<u8>, pos: int, x: u64)
    requires
        0 <= pos,
        pos + 8 <= s.len(),
        s.subrange(pos, pos + 8) == spec_u64_to_le_bytes(x),
    ensures
        spec_parse_u64(s, pos) == Ok::<_, FormatError>((x, pos + 8)),
{
    lemma_auto_spec_u64_to_from_le_bytes();
    assert(spec_u64_to_le_bytes(x).len() == 8);
}

/// A slice of a run of bytes known to sit at `pos` in `s` is the matching
/// slice of `s` itself.
proof fn lemma_subrange_slice(s: Seq<u8>, pos: int, enc: Seq<u8>, a: int, b: int)
    requires
        0 <= pos,
        pos + enc.len() <= s.len(),
        s.subrange(pos, pos + enc.len() as int) == enc,
        0 <= a <= b <= enc.len(),
    ensures
        s.subrange(pos + a, pos + b) == enc.subrange(a, b),
{
    assert(s.subrange(pos + a, pos + b) =~= enc.subrange(a, b));
}

/// A well-formed metadata value written at `pos` parses back to itself,
/// consuming exactly its encoding.
proof fn lemma_rt_value(s: Seq<u8>, pos: int, v: ValueSpec)
    requires
        wf_value(v),
        0 <= pos,
        pos + spec_encode_value(v).len() <= s.len(),
        s.subrange(pos, pos + spec_encode_value(v).len()) == spec_encode_value(v),
    ensures
        spec_parse_value(s, pos) == Ok::<_, FormatError>((v, pos + spec_encode_value(v).len())),
    decreases v, 2int, 0int,
{
    lemma_auto_spec_u32_to_from_le_bytes();
    lemma_auto_spec_u64_to_from_le_bytes();
    let enc = spec_encode_value(v);
    let tag = value_tag(v);
    assert(spec_u32_to_le_bytes(tag).len() == 4);
    lemma_subrange_slice(s, pos, enc, 0, 4);
    assert(enc.subrange(0, 4) =~= spec_u32_to_le_bytes(tag));
    assert(s.subrange(pos, pos + 4) == s.subrange(pos + 0, pos + 4));
    lemma_parse_u32_at(s, pos, tag);
    let p1 = pos + 4;
    match v {
        ValueSpec::Bool(b) => {
            lemma_subrange_slice(s, pos, enc, 4, 5);
            assert(s[p1] == s.subrange(pos + 4, pos + 5)[0]);
            assert(enc[4] == (if b { 1u8 } else { 0u8 }));
        },
        ValueSpec::UInt32(x) => {
            assert(spec_u32_to_le_bytes(x).len() == 4);
            lemma_subrange_slice(s, pos, enc, 4, 8);
            assert(enc.subrange(4, 8) =~= spec_u32_to_le_bytes(x));
            assert(s.subrange(p1, p1 + 4) == s.subrange(pos + 4, pos + 8));
            lemma_parse_u32_at(s, p1, x);
        },
        ValueSpec::Int32(x) => {
            assert(spec_u32_to_le_bytes(x as u32).len() == 4);
            lemma_subrange_slice(s, pos, enc, 4, 8);
            assert(enc.subrange(4, 8) =~= spec_u32_to_le_bytes(x as u32));
            assert(s.subrange(p1, p1 + 4) == s.subrange(pos + 4, pos + 8));
            lemma_parse_u32_at(s, p1, x as u32);
            assert((x as u32) as i32 == x) by (bit_vector);
        },
        ValueSpec::UInt64(x) => {
            assert(spec_u64_to_le_bytes(x).len() == 8);
            lemma_subrange_slice(s, pos, enc, 4, 12);
            assert(enc.subrange(4, 12) =~= spec_u64_to_le_bytes(x));
            assert(s.subrange(p1, p1 + 8) == s.subrange(pos + 4, pos + 12));
            lemma_parse_u64_at(s, p1, x);
        },
        ValueSpec::Int64(x) => {
            assert(spec_u64_to_le_bytes(x as u64).len() == 8);
            lemma_subrange_slice(s, pos, enc, 4, 12);
            assert(enc.subrange(4, 12) =~= spec_u64_to_le_bytes(x as u64));
            assert(s.subrange(p1, p1 + 8) == s.subrange(pos + 4, pos + 12));
            lemma_parse_u64_at(s, p1, x as u64);
            assert((x as u64) as i64 == x) by (bit_vector);
        },
        ValueSpec::Float32Bits(x) => {
            assert(spec_u32_to_le_bytes(x).len() == 4);
            lemma_subrange_slice(s, pos, enc, 4, 8);
            assert(enc.subrange(4, 8) =~= spec_u32_to_le_bytes(x));
            assert(s.subrange(p1, p1 + 4) == s.subrange(pos + 4, pos + 8));
            lemma_parse_u32_at(s, p1, x);
        },
        ValueSpec::Float64Bits(x) => {
            assert(spec_u64_to_le_bytes(x).len() == 8);
            lemma_subrange_slice(s, pos, enc, 4, 12);
            assert(enc.subrange(4, 12) =~= spec_u64_to_le_bytes(x));
            assert(s.subrange(p1, p1 + 8) == s.subrange(pos + 4, pos + 12));
            lemma_parse_u64_at(s, p1, x);
        },
        ValueSpec::Str(st) => {
            assert(spec_u32_to_le_bytes(st.len() as u32).len() == 4);
            lemma_subrange_slice(s, pos, enc, 4, 8);
            assert(enc.subrange(4, 8) =~= spec_u32_to_le_bytes(st.len() as u32));
            assert(s.subrange(p1, p1 + 4) == s.subrange(pos + 4, pos + 8));
            lemma_parse_u32_at(s, p1, st.len() as u32);
            let p2 = p1 + 4;
            lemma_subrange_slice(s, pos, enc, 8, 8 + st.len() as int);
            assert(enc.subrange(8, 8 + st.len() as int) =~= st);
            assert(s.subrange(p2, p2 + st.len() as int) == s.subrange(
                pos + 8,
                pos + 8 + st.len() as int,
            ));
        },
        ValueSpec::Array(items) => {
            assert(spec_u32_to_le_bytes(items.len() as u32).len() == 4);
            lemma_subrange_slice(s, pos, enc, 4, 8);
            assert(enc.subrange(4, 8) =~= spec_u32_to_le_bytes(items.len() as u32));
            assert(s.subrange(p1, p1 + 4) == s.subrange(pos + 4, pos + 8));
            lemma_parse_u32_at(s, p1, items.len() as u32);
            let p2 = p1 + 4;
            let lv = spec_encode_values(items);
            lemma_subrange_slice(s, pos, enc, 8, 8 + lv.len() as int);
            assert(enc.subrange(8, 8 + lv.len() as int) =~= lv);
            assert(s.subrange(p2, p2 + lv.len() as int) == s.subrange(
                pos + 8,
                pos + 8 + lv.len() as int,
            ));
            assert(items.skip(0) =~= items);
            assert(spec_encode_values(items.skip(0)) == lv);
            lemma_rt_values(s, p2, items, 0);
        },
    }
}

/// The values from index `i` on, written one after the other at `pos`, parse
/// back to themselves.
proof fn lemma_rt_values(s: Seq<u8>, pos: int, items: Seq<ValueSpec>, i: int)
    requires
        forall|j: int| 0 <= j < items.len() ==> wf_value(#[trigger] items[j]),
        0 <= i <= items.len(),
        0 <= pos,
        pos + spec_encode_values(items.skip(i)).len() <= s.len(),
        s.subrange(pos, pos + spec_encode_values(items.skip(i)).len()) == spec_encode_values(
            items.skip(i),
        ),
    ensures
        spec_parse_values(s, pos, items.len() - i) == Ok::<_, FormatError>((
            items.skip(i),
            pos + spec_encode_values(items.skip(i)).len(),
        )),
    decreases items, 1int, items.len() - i,
{
    lemma_auto_spec_u32_to_from_le_bytes();
    let rest = items.skip(i);
    let ve = value_encodings(rest);
    if i == items.len() {
        assert(rest =~= Seq::<ValueSpec>::empty());
        assert(ve =~= Seq::<Seq<u8>>::empty());
        assert(ve.flatten() =~= Seq::<u8>::empty());
    } else {
        let v0 = items[i];
        let enc0 = spec_encode_value(v0);
        let rest2 = items.skip(i + 1);
        let ve2 = value_encodings(rest2);
        assert(rest[0] == v0);
        assert(ve[0] == enc0);
        assert(ve.drop_first() =~= ve2);
        assert(ve.flatten() == enc0 + ve2.flatten());
        let l0 = enc0.len() as int;
        let l2 = ve2.flatten().len() as int;
        let vef = ve.flatten();
        assert(s.subrange(pos, pos + vef.len() as int) == vef);
        lemma_subrange_slice(s, pos, vef, 0, l0);
        assert(vef.subrange(0, l0) =~= enc0);
        assert(s.subrange(pos, pos + l0) == s.subrange(pos + 0, pos + l0));
        lemma_rt_value(s, pos, v0);
        lemma_subrange_slice(s, pos, vef, l0, l0 + l2);
        assert(vef.subrange(l0, l0 + l2) =~= ve2.flatten());
        assert(spec_encode_values(rest2) == ve2.flatten());
        assert(s.subrange(pos + l0, pos + l0 + l2) == ve2.flatten());
        lemma_rt_values(s, pos + l0, items, i + 1);
        assert(spec_parse_values(s, pos + l0, items.len() - (i + 1)) == Ok::<_, FormatError>((
            rest2,
            pos + l0 + l2,
        )));
        assert(seq![v0] + rest2 =~= rest);
        assert(enc0.len() >= 4);
    }
}

/// A metadata pair written at `pos` parses back to itself.
proof fn lemma_rt_pair(s: Seq<u8>, pos: int, p: (Seq<u8>, ValueSpec))
    requires
        p.0.len() <= u32::MAX,
        wf_value(p.1),
        0 <= pos,
        pos + spec_encode_pair(p).len() <= s.len(),
        s.subrange(pos, pos + spec_encode_pair(p).len()) == spec_encode_pair(p),
    ensures
        spec_parse_pair(s, pos) == Ok::<_, FormatError>((p, pos + spec_encode_pair(p).len())),
{
    lemma_auto_spec_u32_to_from_le_bytes();
    let enc = spec_encode_pair(p);
    let klen = p.0.len() as int;
    assert(spec_u32_to_le_bytes(p.0.len() as u32).len() == 4);
    lemma_subrange_slice(s, pos, enc, 0, 4);
    assert(enc.subrange(0, 4) =~= spec_u32_to_le_bytes(p.0.len() as u32));
    assert(s.subrange(pos, pos + 4) == s.subrange(pos + 0, pos + 4));
    lemma_parse_u32_at(s, pos, p.0.len() as u32);
    lemma_subrange_slice(s, pos, enc, 4, 4 + klen);
    assert(enc.subrange(4, 4 + klen) =~= p.0);
    let p1 = pos + 4;
    assert(s.subrange(p1, p1 + klen) == s.subrange(pos + 4, pos + (4 + klen)));
    let ev = spec_encode_value(p.1);
    lemma_subrange_slice(s, pos, enc, 4 + klen, 4 + klen + ev.len() as int);
    assert(enc.subrange(4 + klen, 4 + klen + ev.len() as int) =~= ev);
    assert(s.subrange(p1 + klen, p1 + klen + ev.len() as int) == s.subrange(
        pos + (4 + klen),
        pos + (4 + klen + ev.len() as int),
    ));
    lemma_rt_value(s, p1 + klen, p.1);
}

/// The metadata pairs from index `i` on, written one after the other at
/// `pos`, parse back to themselves.
proof fn lemma_rt_pairs(s: Seq<u8>, pos: int, pairs: Seq<(Seq<u8>, ValueSpec)>, i: int)
    requires
        forall|j: int|
            0 <= j < pairs.len() ==> (#[trigger] pairs[j]).0.len() <= u32::MAX && wf_value(
                pairs[j].1,
            ),
        0 <= i <= pairs.len(),
        0 <= pos,
        pos + pair_encodings(pairs.skip(i)).flatten().len() <= s.len(),
        s.subrange(pos, pos + pair_encodings(pairs.skip(i)).flatten().len()) == pair_encodings(
            pairs.skip(i),
        ).flatten(),
    ensures
        spec_parse_pairs(s, pos, pairs.len() - i) == Ok::<_, FormatError>((
            pairs.skip(i),
            pos + pair_encodings(pairs.skip(i)).flatten().len(),
        )),
    decreases pairs.len() - i,
{
    lemma_auto_spec_u32_to_from_le_bytes();
    let rest = pairs.skip(i);
    let ve = pair_encodings(rest);
    if i == pairs.len() {
        assert(rest =~= Seq::<(Seq<u8>, ValueSpec)>::empty());
        assert(ve =~= Seq::<Seq<u8>>::empty());
        assert(ve.flatten() =~= Seq::<u8>::empty());
    } else {
        let p0 = pairs[i];
        let enc0 = spec_encode_pair(p0);
        let rest2 = pairs.skip(i + 1);
        let ve2 = pair_encodings(rest2);
        assert(rest[0] == p0);
        assert(ve[0] == enc0);
        assert(ve.drop_first() =~= ve2);
        assert(ve.flatten() == enc0 + ve2.flatten());
        let l0 = enc0.len() as int;
        let l2 = ve2.flatten().len() as int;
        let vef = ve.flatten();
        assert(s.subrange(pos, pos + vef.len() as int) == vef);
        lemma_subrange_slice(s, pos, vef, 0, l0);
        assert(vef.subrange(0, l0) =~= enc0);
        assert(s.subrange(pos, pos + l0) == s.subrange(pos + 0, pos + l0));
        lemma_rt_pair(s, pos, p0);
        lemma_subrange_slice(s, pos, vef, l0, l0 + l2);
        assert(vef.subrange(l0, l0 + l2) =~= ve2.flatten());
        assert(s.subrange(pos + l0, pos + l0 + l2) == ve2.flatten());
        lemma_rt_pairs(s, pos + l0, pairs, i + 1);
        assert(seq![p0] + rest2 =~= rest);
        assert(spec_u32_to_le_bytes(p0.0.len() as u32).len() == 4);
    }
}

/// The flattened encodings of the dimensions from index `i` on take four
/// bytes per dimension.
proof fn lemma_dims_flat_len(shape: Seq<u32>, i: int)
    requires
        0 <= i <= shape.len(),
    ensures
        dim_encodings(shape.skip(i)).flatten().len() == 4 * (shape.len() - i),
    decreases shape.len() - i,
{
    lemma_auto_spec_u32_to_from_le_bytes();
    let rest = shape.skip(i);
    let de = dim_encodings(rest);
    if i == shape.len() {
        assert(de =~= Seq::<Seq<u8>>::empty());
        assert(de.flatten() =~= Seq::<u8>::empty());
    } else {
        assert(de[0] == spec_u32_to_le_bytes(shape[i]));
        assert(spec_u32_to_le_bytes(shape[i]).len() == 4);
        assert(de.drop_first() =~= dim_encodings(shape.skip(i + 1)));
        assert(de.flatten() == de[0] + de.drop_first().flatten());
        lemma_dims_flat_len(shape, i + 1);
    }
}

/// The dimensions from index `i` on, written one after the other at `pos`,
/// parse back to themselves.
proof fn lemma_rt_dims(s: Seq<u8>, pos: int, shape: Seq<u32>, i: int)
    requires
        forall|j: int| 0 <= j < shape.len() ==> #[trigger] shape[j] >= 1,
        0 <= i <= shape.len(),
        0 <= pos,
        pos + dim_encodings(shape.skip(i)).flatten().len() <= s.len(),
        s.subrange(pos, pos + dim_encodings(shape.skip(i)).flatten().len()) == dim_encodings(
            shape.skip(i),
        ).flatten(),
    ensures
        spec_parse_dims(s, pos, shape.len() - i) == Ok::<_, FormatError>((
            shape.skip(i),
            pos + dim_encodings(shape.skip(i)).flatten().len(),
        )),
    decreases shape.len() - i,
{
    lemma_auto_spec_u32_to_from_le_bytes();
    let rest = shape.skip(i);
    let de = dim_encodings(rest);
    if i == shape.len() {
        assert(rest =~= Seq::<u32>::empty());
        assert(de =~= Seq::<Seq<u8>>::empty());
        assert(de.flatten() =~= Seq::<u8>::empty());
    } else {
        let d0 = shape[i];
        let enc0 = spec_u32_to_le_bytes(d0);
        assert(enc0.len() == 4);
        assert(rest[0] == d0);
        assert(de[0] == enc0);
        assert(de.drop_first() =~= dim_encodings(shape.skip(i + 1)));
        assert(de.flatten() == enc0 + de.drop_first().flatten());
        let l2 = de.drop_first().flatten().len() as int;
        let def = de.flatten();
        assert(s.subrange(pos, pos + def.len() as int) == def);
        lemma_subrange_slice(s, pos, def, 0, 4);
        assert(def.subrange(0, 4) =~= enc0);
        assert(s.subrange(pos, pos + 4) == s.subrange(pos + 0, pos + 4));
        lemma_parse_u32_at(s, pos, d0);
        lemma_subrange_slice(s, pos, def, 4, 4 + l2);
        assert(def.subrange(4, 4 + l2) =~= dim_encodings(shape.skip(i + 1)).flatten());
        assert(s.subrange(pos + 4, pos + 4 + l2) == dim_encodings(shape.skip(i + 1)).flatten());
        lemma_rt_dims(s, pos + 4, shape, i + 1);
        assert(seq![d0] + shape.skip(i + 1) =~= rest);
    }
}

/// The entry `e` with its offset cleared, as the table parser returns it.
pub open spec fn zero_offset(e: EntrySpec) -> EntrySpec {
    EntrySpec { data_offset: 0, ..e }
}

/// The entries with their offsets cleared, as the table parser returns them.
pub open spec fn zero_offsets(entries: Seq<EntrySpec>) -> Seq<EntrySpec> {
    Seq::new(
        entries.len(),
        |j: int|
            if 0 <= j < entries.len() {
                zero_offset(entries[j])
            } else {
                entries[j]
            },
    )
}

/// An entry record written at `pos` parses back to the same entry, with its
/// offset cleared for the document parse to place.
proof fn lemma_rt_entry(s: Seq<u8>, pos: int, e: EntrySpec)
    requires
        wf_entry(e),
        0 <= pos,
        pos + spec_encode_entry(e).len() <= s.len(),
        s.subrange(pos, pos + spec_encode_entry(e).len()) == spec_encode_entry(e),
    ensures
        spec_parse_entry(s, pos) == Ok::<_, FormatError>((
            zero_offset(e),
            pos + spec_encode_entry(e).len(),
        )),
{
    lemma_auto_spec_u32_to_from_le_bytes();
    lemma_auto_spec_u64_to_from_le_bytes();
    let enc = spec_encode_entry(e);
    let nlen = e.name.len() as int;
    let nd = e.shape.len() as int;
    assert(e.shape.skip(0) =~= e.shape);
    lemma_dims_flat_len(e.shape, 0);
    let df = dim_encodings(e.shape).flatten();
    assert(spec_u32_to_le_bytes(e.name.len() as u32).len() == 4);
    assert(spec_u32_to_le_bytes(e.element_type.spec_tag()).len() == 4);
    assert(spec_u32_to_le_bytes(e.shape.len() as u32).len() == 4);
    assert(spec_u64_to_le_bytes(e.byte_length).len() == 8);
    lemma_subrange_slice(s, pos, enc, 0, 4);
    assert(enc.subrange(0, 4) =~= spec_u32_to_le_bytes(e.name.len() as u32));
    assert(s.subrange(pos, pos + 4) == s.subrange(pos + 0, pos + 4));
    lemma_parse_u32_at(s, pos, e.name.len() as u32);
    lemma_subrange_slice(s, pos, enc, 4, 4 + nlen);
    assert(enc.subrange(4, 4 + nlen) =~= e.name);
    let p1 = pos + 4;
    assert(s.subrange(p1, p1 + nlen) == s.subrange(pos + 4, pos + (4 + nlen)));
    lemma_subrange_slice(s, pos, enc, 4 + nlen, 8 + nlen);
    assert(enc.subrange(4 + nlen, 8 + nlen) =~= spec_u32_to_le_bytes(e.element_type.spec_tag()));
    assert(s.subrange(p1 + nlen, p1 + nlen + 4) == s.subrange(pos + (4 + nlen), pos + (8 + nlen)));
    lemma_parse_u32_at(s, p1 + nlen, e.element_type.spec_tag());
    assert(ElementType::spec_from_tag(e.element_type.spec_tag()) == Some(e.element_type));
    lemma_subrange_slice(s, pos, enc, 8 + nlen, 12 + nlen);
    assert(enc.subrange(8 + nlen, 12 + nlen) =~= spec_u32_to_le_bytes(e.shape.len() as u32));
    let p2 = p1 + nlen + 4;
    assert(s.subrange(p2, p2 + 4) == s.subrange(pos + (8 + nlen), pos + (12 + nlen)));
    lemma_parse_u32_at(s, p2, e.shape.len() as u32);
    lemma_subrange_slice(s, pos, enc, 12 + nlen, 12 + nlen + df.len() as int);
    assert(enc.subrange(12 + nlen, 12 + nlen + df.len() as int) =~= df);
    let p3 = p2 + 4;
    assert(s.subrange(p3, p3 + df.len() as int) == s.subrange(
        pos + (12 + nlen),
        pos + (12 + nlen + df.len() as int),
    ));
    assert(dim_encodings(e.shape.skip(0)).flatten() == df);
    lemma_rt_dims(s, p3, e.shape, 0);
    let p4 = p3 + df.len() as int;
    lemma_subrange_slice(s, pos, enc, 12 + nlen + df.len() as int, enc.len() as int);
    assert(enc.subrange(12 + nlen + df.len() as int, enc.len() as int) =~= spec_u64_to_le_bytes(
        e.byte_length,
    ));
    assert(s.subrange(p4, p4 + 8) == s.subrange(
        pos + (12 + nlen + df.len() as int),
        pos + enc.len() as int,
    ));
    lemma_parse_u64_at(s, p4, e.byte_length);
}

/// The entry records from index `i` on, written one after the other at
/// `pos`, parse back to the same entries with their offsets cleared.
proof fn lemma_rt_entries(s: Seq<u8>, pos: int, entries: Seq<EntrySpec>, i: int)
    requires
        forall|j: int| 0 <= j < entries.len() ==> wf_entry(#[trigger] entries[j]),
        0 <= i <= entries.len(),
        0 <= pos,
        pos + entry_encodings(entries.skip(i)).flatten().len() <= s.len(),
        s.subrange(pos, pos + entry_encodings(entries.skip(i)).flatten().len()) == entry_encodings(
            entries.skip(i),
        ).flatten(),
    ensures
        spec_parse_entries(s, pos, entries.len() - i) == Ok::<_, FormatError>((
            zero_offsets(entries).skip(i),
            pos + entry_encodings(entries.skip(i)).flatten().len(),
        )),
    decreases entries.len() - i,
{
    lemma_auto_spec_u32_to_from_le_bytes();
    let rest = entries.skip(i);
    let ve = entry_encodings(rest);
    if i == entries.len() {
        assert(rest =~= Seq::<EntrySpec>::empty());
        assert(ve =~= Seq::<Seq<u8>>::empty());
        assert(ve.flatten() =~= Seq::<u8>::empty());
        assert(zero_offsets(entries).skip(i) =~= Seq::<EntrySpec>::empty());
    } else {
        let e0 = entries[i];
        let enc0 = spec_encode_entry(e0);
        let rest2 = entries.skip(i + 1);
        let ve2 = entry_encodings(rest2);
        assert(rest[0] == e0);
        assert(ve[0] == enc0);
        assert(ve.drop_first() =~= ve2);
        assert(ve.flatten() == enc0 + ve2.flatten());
        let l0 = enc0.len() as int;
        let l2 = ve2.flatten().len() as int;
        let vef = ve.flatten();
        assert(s.subrange(pos, pos + vef.len() as int) == vef);
        lemma_subrange_slice(s, pos, vef, 0, l0);
        assert(vef.subrange(0, l0) =~= enc0);
        assert(s.subrange(pos, pos + l0) == s.subrange(pos + 0, pos + l0));
        lemma_rt_entry(s, pos, e0);
        lemma_subrange_slice(s, pos, vef, l0, l0 + l2);
        assert(vef.subrange(l0, l0 + l2) =~= ve2.flatten());
        assert(s.subrange(pos + l0, pos + l0 + l2) == ve2.flatten());
        lemma_rt_entries(s, pos + l0, entries, i + 1);
        assert(seq![zero_offset(e0)] + zero_offsets(entries).skip(i + 1) =~= zero_offsets(
            entries,
        ).skip(i));
        assert(spec_u32_to_le_bytes(e0.name.len() as u32).len() == 4);
    }
}

/// Entry offsets depend only on the entries' byte lengths, never on the
/// offsets they carried in.
proof fn lemma_offsets_same(e1: Seq<EntrySpec>, e2: Seq<EntrySpec>, i: int, start: int, align: int)
    requires
        e1.len() == e2.len(),
        forall|j: int|
            0 <= j < e1.len() ==> (#[trigger] e1[j]).byte_length == (#[trigger] e2[j]).byte_length,
        0 <= i <= e1.len(),
    ensures
        spec_entry_offset(e1, i, start, align) == spec_entry_offset(e2, i, start, align),
    decreases i,
{
    if i > 0 {
        lemma_offsets_same(e1, e2, i - 1, start, align);
        assert(e1[i - 1].byte_length == e2[i - 1].byte_length);
    }
}

/// When the data region starts on an alignment boundary, every entry offset
/// lies on one too.
proof fn lemma_offsets_aligned(entries: Seq<EntrySpec>, i: int, start: int, align: int)
    requires
        start >= 0,
        align >= 1,
        start % align == 0,
        0 <= i,
    ensures
        spec_entry_offset(entries, i, start, align) % align == 0,
        spec_entry_offset(entries, i, start, align) >= start,
    decreases i,
{
    crate::parse::lemma_entry_offset_ge_start(entries, i, start, align);
    if i > 0 {
        lemma_offsets_aligned(entries, i - 1, start, align);
        crate::parse::lemma_entry_offset_ge_start(entries, i - 1, start, align);
        let end = spec_entry_offset(entries, i - 1, start, align) + entries[i - 1].byte_length;
        crate::section::lemma_pad_len_bounds(end, align);
    }
}

/// Dropping the first entry shifts the offset chain: entry `i` of the whole
/// table sits where entry `i - 1` of the rest sits, once the region start
/// moves past the first entry's padded data.
proof fn lemma_offset_shift(entries: Seq<EntrySpec>, i: int, start: int, align: int)
    requires
        entries.len() >= 1,
        align >= 1,
        1 <= i <= entries.len(),
    ensures
        ({
            let end0 = start + entries[0].byte_length;
            let start2 = end0 + pad_len(end0, align);
            spec_entry_offset(entries, i, start, align) == spec_entry_offset(
                entries.drop_first(),
                i - 1,
                start2,
                align,
            )
        }),
    decreases i,
{
    let end0 = start + entries[0].byte_length;
    let start2 = end0 + pad_len(end0, align);
    if i == 1 {
        assert(spec_entry_offset(entries, 0, start, align) == start);
        assert(spec_entry_offset(entries, 1, start, align) == start2);
        assert(spec_entry_offset(entries.drop_first(), 0, start2, align) == start2);
    } else {
        lemma_offset_shift(entries, i - 1, start, align);
        assert(entries.drop_first()[i - 2] == entries[i - 1]);
    }
}

/// The data region's byte count is exactly the distance from its start to
/// the computed end of the document.
proof fn lemma_data_len(
    entries: Seq<EntrySpec>,
    payloads: Seq<Seq<u8>>,
    align: int,
    pos: int,
)
    requires
        entries.len() == payloads.len(),
        forall|j: int|
            0 <= j < payloads.len() ==> (#[trigger] payloads[j]).len() == (
            #[trigger] entries[j]).byte_length,
        align >= 1,
        pos >= 0,
    ensures
        crate::encode::spec_encode_data(payloads, align, pos).len() == spec_doc_end(
            entries,
            pos,
            align,
        ) - pos,
    decreases payloads.len(),
{
    if payloads.len() == 0 {
    } else if payloads.len() == 1 {
        assert(payloads[0].len() == entries[0].byte_length);
        assert(spec_doc_end(entries, pos, align) == spec_entry_offset(entries, 0, pos, align)
            + entries[0].byte_length);
    } else {
        let end0 = pos + payloads[0].len();
        let pad = pad_len(end0, align);
        crate::section::lemma_pad_len_bounds(end0, align);
        let e2 = entries.drop_first();
        let p2 = payloads.drop_first();
        assert(forall|j: int|
            0 <= j < p2.len() ==> (#[trigger] p2[j]).len() == (#[trigger] e2[j]).byte_length) by {
            assert(forall|j: int| 0 <= j < p2.len() ==> p2[j] == payloads[j + 1]);
            assert(forall|j: int| 0 <= j < e2.len() ==> e2[j] == entries[j + 1]);
        }
        lemma_data_len(e2, p2, align, end0 + pad);
        lemma_offset_shift(entries, entries.len() - 1, pos, align);
        assert(entries[0].byte_length == payloads[0].len());
        assert(e2[e2.len() - 1] == entries[entries.len() - 1]);
        assert(spec_doc_end(entries, pos, align) == spec_doc_end(e2, end0 + pad, align));
    }
}

/// Round trip: writing any well-formed document together with payloads of
/// the declared lengths, then reading the result, yields a document equal to
/// the original in version, alignment, metadata, entry names, element types,
/// shapes and byte lengths. The offsets are recomputed from the running
/// layout and are valid: every one lies on an alignment boundary, no two
/// entries' data regions overlap, and all data lies within the encoded
/// bytes. The reader is left exactly at the start of the data region.
pub proof fn lemma_document_round_trip(d: DocSpec, payloads: Seq<Seq<u8>>)
    requires
        wf_document(d),
        payloads.len() == d.entries.len(),
        forall|i: int|
            0 <= i < payloads.len() ==> (#[trigger] payloads[i]).len() == d.entries[
                i
            ].byte_length,
        spec_encode_document(d, payloads).len() <= u64::MAX,
    ensures
        ({
            let bytes = spec_encode_document(d, payloads);
            let r = spec_parse_document(bytes, 0);
            &&& r is Ok
            &&& r->Ok_0.1 == spec_data_start(d)
            &&& ({
                let d2 = r->Ok_0.0;
                &&& d2.version == d.version
                &&& d2.alignment == d.alignment
                &&& d2.metadata == d.metadata
                &&& d2.entries.len() == d.entries.len()
                &&& forall|i: int|
                    0 <= i < d.entries.len() ==> {
                        let e2 = #[trigger] d2.entries[i];
                        &&& e2.name == d.entries[i].name
                        &&& e2.element_type == d.entries[i].element_type
                        &&& e2.shape == d.entries[i].shape
                        &&& e2.byte_length == d.entries[i].byte_length
                        &&& (e2.data_offset as int) % (d.alignment as int) == 0
                        &&& e2.data_offset + e2.byte_length <= bytes.len()
                    }
                &&& forall|i: int, j: int|
                    0 <= i < j < d.entries.len() ==> (#[trigger] d2.entries[i]).data_offset + d2
                        .entries[i].byte_length <= (#[trigger] d2.entries[j]).data_offset
            })
        }),
{
    lemma_auto_spec_u32_to_from_le_bytes();
    let a = d.alignment as int;
    assert(a >= 1);
    let bytes = spec_encode_document(d, payloads);
    let ht = spec_encode_header_table(d);
    let padh = pad_len(ht.len() as int, a);
    crate::section::lemma_pad_len_bounds(ht.len() as int, a);
    let start = spec_data_start(d);
    let data = spec_encode_data(payloads, a, start);
    assert(bytes == ht + zeros(padh) + data);
    assert(zeros(padh).len() == padh);
    let lp = pair_encodings(d.metadata).flatten().len() as int;
    let le = entry_encodings(d.entries).flatten().len() as int;
    assert(crate::model::spec_magic().len() == 4);
    assert(spec_u32_to_le_bytes(d.version).len() == 4);
    assert(spec_u32_to_le_bytes(d.alignment).len() == 4);
    assert(spec_u32_to_le_bytes(d.metadata.len() as u32).len() == 4);
    assert(spec_u32_to_le_bytes(d.entries.len() as u32).len() == 4);
    assert(ht.len() == 20 + lp + le);
    assert(bytes.subrange(0, ht.len() as int) =~= ht);
    lemma_subrange_slice(bytes, 0, ht, 0, 4);
    assert(ht.subrange(0, 4) =~= crate::model::spec_magic());
    assert(bytes.subrange(0, 4) == bytes.subrange(0int + 0, 0int + 4));
    lemma_subrange_slice(bytes, 0, ht, 4, 8);
    assert(ht.subrange(4, 8) =~= spec_u32_to_le_bytes(d.version));
    assert(bytes.subrange(4, 8) == bytes.subrange(0int + 4, 0int + 8));
    lemma_parse_u32_at(bytes, 4, d.version);
    lemma_subrange_slice(bytes, 0, ht, 8, 12);
    assert(ht.subrange(8, 12) =~= spec_u32_to_le_bytes(d.alignment));
    assert(bytes.subrange(8, 12) == bytes.subrange(0int + 8, 0int + 12));
    lemma_parse_u32_at(bytes, 8, d.alignment);
    lemma_subrange_slice(bytes, 0, ht, 12, 16);
    assert(ht.subrange(12, 16) =~= spec_u32_to_le_bytes(d.metadata.len() as u32));
    assert(bytes.subrange(12, 16) == bytes.subrange(0int + 12, 0int + 16));
    lemma_parse_u32_at(bytes, 12, d.metadata.len() as u32);
    lemma_subrange_slice(bytes, 0, ht, 16, 16 + lp);
    assert(ht.subrange(16, 16 + lp) =~= pair_encodings(d.metadata).flatten());
    assert(bytes.subrange(16, 16 + lp) == bytes.subrange(0int + 16, 0int + (16 + lp)));
    assert(d.metadata.skip(0) =~= d.metadata);
    assert(pair_encodings(d.metadata.skip(0)) == pair_encodings(d.metadata));
    lemma_rt_pairs(bytes, 16, d.metadata, 0);
    assert(spec_parse_pairs(bytes, 16, d.metadata.len() as int) == Ok::<_, FormatError>((
        d.metadata,
        16 + lp,
    )));
    lemma_subrange_slice(bytes, 0, ht, 16 + lp, 20 + lp);
    assert(ht.subrange(16 + lp, 20 + lp) =~= spec_u32_to_le_bytes(d.entries.len() as u32));
    assert(bytes.subrange(16 + lp, 16 + lp + 4) == bytes.subrange(0int + (16 + lp), 0int + (20 + lp)));
    lemma_parse_u32_at(bytes, 16 + lp, d.entries.len() as u32);
    lemma_subrange_slice(bytes, 0, ht, 20 + lp, 20 + lp + le);
    assert(ht.subrange(20 + lp, 20 + lp + le) =~= entry_encodings(d.entries).flatten());
    assert(bytes.subrange(20 + lp, 20 + lp + le) == bytes.subrange(
        0int + (20 + lp),
        0int + (20 + lp + le),
    ));
    assert(d.entries.skip(0) =~= d.entries);
    assert(entry_encodings(d.entries.skip(0)) == entry_encodings(d.entries));
    assert(forall|j: int| 0 <= j < d.entries.len() ==> wf_entry(#[trigger] d.entries[j]));
    lemma_rt_entries(bytes, 20 + lp, d.entries, 0);
    let zents = zero_offsets(d.entries);
    assert(zents.skip(0) =~= zents);
    assert(spec_parse_entries(bytes, 20 + lp, d.entries.len() as int) == Ok::<_, FormatError>((
        zents,
        ht.len() as int,
    )));
    assert(crate::model::unique_names(zents)) by {
        assert(forall|i: int| 0 <= i < zents.len() ==> (#[trigger] zents[i]).name == d.entries[
            i
        ].name);
    }
    assert(ht.len() + padh <= bytes.len());
    assert(ht.len() + padh == start);
    // The computed end of the data region is exactly the end of the bytes.
    assert(forall|j: int|
        0 <= j < zents.len() ==> (#[trigger] zents[j]).byte_length == (
        #[trigger] d.entries[j]).byte_length);
    lemma_data_len(d.entries, payloads, a, start);
    if d.entries.len() > 0 {
        lemma_offsets_same(zents, d.entries, d.entries.len() - 1, start, a);
        assert(spec_doc_end(zents, start, a) == spec_doc_end(d.entries, start, a));
    }
    assert(spec_doc_end(zents, start, a) == bytes.len());
    let r = spec_parse_document(bytes, 0);
    assert(r is Ok);
    let d2 = r->Ok_0.0;
    assert(d2.entries == spec_place_entries(zents, start, a));
    assert(start % a == 0);
    assert forall|i: int| 0 <= i < d.entries.len() implies {
        let e2 = #[trigger] d2.entries[i];
        &&& e2.name == d.entries[i].name
        &&& e2.element_type == d.entries[i].element_type
        &&& e2.shape == d.entries[i].shape
        &&& e2.byte_length == d.entries[i].byte_length
        &&& (e2.data_offset as int) % (d.alignment as int) == 0
        &&& e2.data_offset + e2.byte_length <= bytes.len()
    } by {
        lemma_offsets_aligned(zents, i, start, a);
        crate::parse::lemma_doc_end_bounds(zents, i, start, a);
        assert(spec_entry_offset(zents, i, start, a) + zents[i].byte_length <= bytes.len());
        assert(0 <= spec_entry_offset(zents, i, start, a) <= u64::MAX);
    }
    assert forall|i: int, j: int| 0 <= i < j < d.entries.len() implies (
    #[trigger] d2.entries[i]).data_offset + d2.entries[i].byte_length <= (
    #[trigger] d2.entries[j]).data_offset by {
        crate::parse::lemma_doc_end_bounds(zents, i, start, a);
        crate::parse::lemma_doc_end_bounds(zents, j, start, a);
        let endi = spec_entry_offset(zents, i, start, a) + zents[i].byte_length;
        crate::section::lemma_pad_len_bounds(endi, a);
        assert(spec_entry_offset(zents, i + 1, start, a) == endi + pad_len(endi, a));
        crate::parse::lemma_entry_offset_monotone(zents, i + 1, j, start, a);
        assert(0 <= spec_entry_offset(zents, j, start, a) <= u64::MAX) by {
            crate::parse::lemma_doc_end_bounds(zents, j, start, a);
        }
        assert(0 <= spec_entry_offset(zents, i, start, a) <= u64::MAX);
    }
}

/// Truncating the stream to `m` bytes leaves a parsed `u32` untouched when
/// it lay within the kept prefix, and turns it into a short read otherwise.
proof fn lemma_prefix_u32(s: Seq<u8>, m: int, pos: int)
    requires
        0 <= pos <= m <= s.len(),
    ensures
        pos + 4 <= m ==> spec_parse_u32(s.take(m), pos) == spec_parse_u32(s, pos),
        pos + 4 > m ==> spec_parse_u32(s.take(m), pos) == Err::<(u32, int), _>(
            FormatError::UnexpectedEof,
        ),
{
    if pos + 4 <= m {
        assert(s.take(m).subrange(pos, pos + 4) =~= s.subrange(pos, pos + 4));
    }
}

/// The same, for a parsed `u64`.
proof fn lemma_prefix_u64(s: Seq<u8>, m: int, pos: int)
    requires
        0 <= pos <= m <= s.len(),
    ensures
        pos + 8 <= m ==> spec_parse_u64(s.take(m), pos) == spec_parse_u64(s, pos),
        pos + 8 > m ==> spec_parse_u64(s.take(m), pos) == Err::<(u64, int), _>(
            FormatError::UnexpectedEof,
        ),
{
    if pos + 8 <= m {
        assert(s.take(m).subrange(pos, pos + 8) =~= s.subrange(pos, pos + 8));
    }
}

/// Truncating the stream to `m` bytes leaves a successfully parsed value
/// untouched when it lay wholly within the kept prefix, and turns it into a
/// short read when it did not: truncation never silently changes a value.
proof fn lemma_prefix_value(s: Seq<u8>, m: int, pos: int)
    requires
        0 <= pos <= m <= s.len(),
        spec_parse_value(s, pos) is Ok,
    ensures
        ({
            let (v, p) = spec_parse_value(s, pos)->Ok_0;
            if p <= m {
                spec_parse_value(s.take(m), pos) == spec_parse_value(s, pos)
            } else {
                spec_parse_value(s.take(m), pos) == Err::<(ValueSpec, int), _>(
                    FormatError::UnexpectedEof,
                )
            }
        }),
    decreases s.len() - pos, 0int, 0int,
{
    let t = s.take(m);
    let (v, p) = spec_parse_value(s, pos)->Ok_0;
    crate::parse::lemma_parse_value_progress(s, pos);
    lemma_prefix_u32(s, m, pos);
    if pos + 4 <= m {
        let (tag, p1) = spec_parse_u32(s, pos)->Ok_0;
        if tag == 0 {
            if p1 + 1 <= m {
                assert(t[p1] == s[p1]);
            }
        } else if tag == 1 || tag == 2 || tag == 5 {
            lemma_prefix_u32(s, m, p1);
        } else if tag == 3 || tag == 4 || tag == 6 {
            lemma_prefix_u64(s, m, p1);
        } else if tag == 7 {
            lemma_prefix_u32(s, m, p1);
            if p1 + 4 <= m {
                let (len, p2) = spec_parse_u32(s, p1)->Ok_0;
                if p2 + len <= m {
                    assert(t.subrange(p2, p2 + len) =~= s.subrange(p2, p2 + len));
                }
            }
        } else if tag == 8 {
            lemma_prefix_u32(s, m, p1);
            let (n, p2) = spec_parse_u32(s, p1)->Ok_0;
            crate::parse::lemma_parse_values_progress(s, p2, n as int);
            if p1 + 4 <= m {
                lemma_prefix_values(s, m, p2, n as int);
            }
        }
    }
}

/// The same, for a successfully parsed run of values.
proof fn lemma_prefix_values(s: Seq<u8>, m: int, pos: int, n: int)
    requires
        0 <= pos <= m <= s.len(),
        spec_parse_values(s, pos, n) is Ok,
    ensures
        ({
            let (vs, p) = spec_parse_values(s, pos, n)->Ok_0;
            if p <= m {
                spec_parse_values(s.take(m), pos, n) == spec_parse_values(s, pos, n)
            } else {
                spec_parse_values(s.take(m), pos, n) == Err::<(Seq<ValueSpec>, int), _>(
                    FormatError::UnexpectedEof,
                )
            }
        }),
    decreases s.len() - pos, 1int, n,
{
    if n <= 0 {
    } else {
        let (v, p2) = spec_parse_value(s, pos)->Ok_0;
        crate::parse::lemma_parse_value_progress(s, pos);
        crate::parse::lemma_parse_values_progress(s, p2, n - 1);
        lemma_prefix_value(s, m, pos);
        if p2 <= m {
            lemma_prefix_values(s, m, p2, n - 1);
        }
    }
}

/// The same, for a successfully parsed metadata pair.
proof fn lemma_prefix_pair(s: Seq<u8>, m: int, pos: int)
    requires
        0 <= pos <= m <= s.len(),
        spec_parse_pair(s, pos) is Ok,
    ensures
        ({
            let (pr, p) = spec_parse_pair(s, pos)->Ok_0;
            if p <= m {
                spec_parse_pair(s.take(m), pos) == spec_parse_pair(s, pos)
            } else {
                spec_parse_pair(s.take(m), pos) == Err::<((Seq<u8>, ValueSpec), int), _>(
                    FormatError::UnexpectedEof,
                )
            }
        }),
{
    lemma_prefix_u32(s, m, pos);
    let (klen, p1) = spec_parse_u32(s, pos)->Ok_0;
    crate::parse::lemma_parse_value_progress(s, p1 + klen);
    if pos + 4 <= m {
        if p1 + klen <= m {
            assert(s.take(m).subrange(p1, p1 + klen) =~= s.subrange(p1, p1 + klen));
            lemma_prefix_value(s, m, p1 + klen);
        }
    }
}

/// The same, for a successfully parsed run of metadata pairs.
proof fn lemma_prefix_pairs(s: Seq<u8>, m: int, pos: int, n: int)
    requires
        0 <= pos <= m <= s.len(),
        spec_parse_pairs(s, pos, n) is Ok,
    ensures
        ({
            let (ps, p) = spec_parse_pairs(s, pos, n)->Ok_0;
            if p <= m {
                spec_parse_pairs(s.take(m), pos, n) == spec_parse_pairs(s, pos, n)
            } else {
                spec_parse_pairs(s.take(m), pos, n) == Err::<
                    (Seq<(Seq<u8>, ValueSpec)>, int),
                    _,
                >(FormatError::UnexpectedEof)
            }
        }),
    decreases n,
{
    if n <= 0 {
    } else {
        let (pr, p2) = spec_parse_pair(s, pos)->Ok_0;
        crate::parse::lemma_parse_pair_progress(s, pos);
        lemma_prefix_pair(s, m, pos);
        lemma_parse_pairs_end(s, p2, n - 1);
        if p2 <= m {
            lemma_prefix_pairs(s, m, p2, n - 1);
        }
    }
}

/// The same, for a successfully parsed run of dimensions.
proof fn lemma_prefix_dims(s: Seq<u8>, m: int, pos: int, n: int)
    requires
        0 <= pos <= m <= s.len(),
        spec_parse_dims(s, pos, n) is Ok,
    ensures
        ({
            let (ds, p) = spec_parse_dims(s, pos, n)->Ok_0;
            if p <= m {
                spec_parse_dims(s.take(m), pos, n) == spec_parse_dims(s, pos, n)
            } else {
                spec_parse_dims(s.take(m), pos, n) == Err::<(Seq<u32>, int), _>(
                    FormatError::UnexpectedEof,
                )
            }
        }),
    decreases n,
{
    if n <= 0 {
    } else {
        lemma_prefix_u32(s, m, pos);
        let (d, p2) = spec_parse_u32(s, pos)->Ok_0;
        crate::parse::lemma_parse_dims_progress(s, p2, n - 1);
        if pos + 4 <= m {
            lemma_prefix_dims(s, m, p2, n - 1);
        }
    }
}

/// The same, for a successfully parsed entry record.
proof fn lemma_prefix_entry(s: Seq<u8>, m: int, pos: int)
    requires
        0 <= pos <= m <= s.len(),
        spec_parse_entry(s, pos) is Ok,
    ensures
        ({
            let (e, p) = spec_parse_entry(s, pos)->Ok_0;
            if p <= m {
                spec_parse_entry(s.take(m), pos) == spec_parse_entry(s, pos)
            } else {
                spec_parse_entry(s.take(m), pos) == Err::<(EntrySpec, int), _>(
                    FormatError::UnexpectedEof,
                )
            }
        }),
{
    lemma_prefix_u32(s, m, pos);
    let (nlen, p1) = spec_parse_u32(s, pos)->Ok_0;
    let (ttag, p2) = spec_parse_u32(s, p1 + nlen)->Ok_0;
    let (ndims, p3) = spec_parse_u32(s, p2)->Ok_0;
    let dr = spec_parse_dims(s, p3, ndims as int);
    crate::parse::lemma_parse_dims_progress(s, p3, ndims as int);
    if pos + 4 <= m {
        if p1 + nlen <= m {
            assert(s.take(m).subrange(p1, p1 + nlen) =~= s.subrange(p1, p1 + nlen));
            lemma_prefix_u32(s, m, p1 + nlen);
            if p1 + nlen + 4 <= m {
                lemma_prefix_u32(s, m, p2);
                if p2 + 4 <= m {
                    lemma_prefix_dims(s, m, p3, ndims as int);
                    if dr->Ok_0.1 <= m {
                        lemma_prefix_u64(s, m, dr->Ok_0.1);
                    }
                }
            }
        }
    }
}

/// The same, for a successfully parsed run of entry records.
proof fn lemma_prefix_entries(s: Seq<u8>, m: int, pos: int, n: int)
    requires
        0 <= pos <= m <= s.len(),
        spec_parse_entries(s, pos, n) is Ok,
    ensures
        ({
            let (es, p) = spec_parse_entries(s, pos, n)->Ok_0;
            if p <= m {
                spec_parse_entries(s.take(m), pos, n) == spec_parse_entries(s, pos, n)
            } else {
                spec_parse_entries(s.take(m), pos, n) == Err::<(Seq<EntrySpec>, int), _>(
                    FormatError::UnexpectedEof,
                )
            }
        }),
    decreases n,
{
    if n <= 0 {
    } else {
        let (e, p2) = spec_parse_entry(s, pos)->Ok_0;
        crate::parse::lemma_parse_entry_progress(s, pos);
        lemma_prefix_entry(s, m, pos);
        lemma_parse_entries_end(s, p2, n - 1);
        if p2 <= m {
            lemma_prefix_entries(s, m, p2, n - 1);
        }
    }
}

/// Truncating a valid serialized document by one byte from the end makes
/// reading fail closed: the parse ends in `TruncatedFile` or
/// `UnexpectedEof`, never in a document silently missing data.
#[verifier::rlimit(80)]
#[verifier::spinoff_prover]
pub proof fn lemma_truncation_fails_closed(d: DocSpec, payloads: Seq<Seq<u8>>)
    requires
        wf_document(d),
        payloads.len() == d.entries.len(),
        forall|i: int|
            0 <= i < payloads.len() ==> (#[trigger] payloads[i]).len() == d.entries[
                i
            ].byte_length,
        spec_encode_document(d, payloads).len() <= u64::MAX,
    ensures
        ({
            let bytes = spec_encode_document(d, payloads);
            let r = spec_parse_document(bytes.take(bytes.len() - 1), 0);
            &&& r is Err
            &&& (r->Err_0 == FormatError::UnexpectedEof || r->Err_0
                == FormatError::TruncatedFile)
        }),
{
    lemma_auto_spec_u32_to_from_le_bytes();
    let a = d.alignment as int;
    assert(a >= 1);
    let bytes = spec_encode_document(d, payloads);
    lemma_document_round_trip(d, payloads);
    let ht = spec_encode_header_table(d);
    let padh = pad_len(ht.len() as int, a);
    crate::section::lemma_pad_len_bounds(ht.len() as int, a);
    let start = spec_data_start(d);
    let data = spec_encode_data(payloads, a, start);
    assert(bytes == ht + zeros(padh) + data);
    assert(zeros(padh).len() == padh);
    let lp = pair_encodings(d.metadata).flatten().len() as int;
    let le = entry_encodings(d.entries).flatten().len() as int;
    assert(crate::model::spec_magic().len() == 4);
    assert(spec_u32_to_le_bytes(d.version).len() == 4);
    assert(spec_u32_to_le_bytes(d.alignment).len() == 4);
    assert(spec_u32_to_le_bytes(d.metadata.len() as u32).len() == 4);
    assert(spec_u32_to_le_bytes(d.entries.len() as u32).len() == 4);
    assert(ht.len() == 20 + lp + le);
    let m = bytes.len() - 1;
    let t = bytes.take(m);
    assert(t.len() == m);
    // Replay what reading the whole bytes finds, to name each stage's end.
    assert(bytes.subrange(0, ht.len() as int) =~= ht);
    lemma_subrange_slice(bytes, 0, ht, 0, 4);
    assert(ht.subrange(0, 4) =~= crate::model::spec_magic());
    assert(bytes.subrange(0, 4) == bytes.subrange(0int + 0, 0int + 4));
    lemma_subrange_slice(bytes, 0, ht, 4, 8);
    assert(ht.subrange(4, 8) =~= spec_u32_to_le_bytes(d.version));
    assert(bytes.subrange(4, 8) == bytes.subrange(0int + 4, 0int + 8));
    lemma_parse_u32_at(bytes, 4, d.version);
    lemma_subrange_slice(bytes, 0, ht, 8, 12);
    assert(ht.subrange(8, 12) =~= spec_u32_to_le_bytes(d.alignment));
    assert(bytes.subrange(8, 12) == bytes.subrange(0int + 8, 0int + 12));
    lemma_parse_u32_at(bytes, 8, d.alignment);
    lemma_subrange_slice(bytes, 0, ht, 12, 16);
    assert(ht.subrange(12, 16) =~= spec_u32_to_le_bytes(d.metadata.len() as u32));
    assert(bytes.subrange(12, 16) == bytes.subrange(0int + 12, 0int + 16));
    lemma_parse_u32_at(bytes, 12, d.metadata.len() as u32);
    lemma_subrange_slice(bytes, 0, ht, 16, 16 + lp);
    assert(ht.subrange(16, 16 + lp) =~= pair_encodings(d.metadata).flatten());
    assert(bytes.subrange(16, 16 + lp) == bytes.subrange(0int + 16, 0int + (16 + lp)));
    assert(d.metadata.skip(0) =~= d.metadata);
    assert(pair_encodings(d.metadata.skip(0)) == pair_encodings(d.metadata));
    lemma_rt_pairs(bytes, 16, d.metadata, 0);
    lemma_subrange_slice(bytes, 0, ht, 16 + lp, 20 + lp);
    assert(ht.subrange(16 + lp, 20 + lp) =~= spec_u32_to_le_bytes(d.entries.len() as u32));
    assert(bytes.subrange(16 + lp, 16 + lp + 4) == bytes.subrange(
        0int + (16 + lp),
        0int + (20 + lp),
    ));
    lemma_parse_u32_at(bytes, 16 + lp, d.entries.len() as u32);
    lemma_subrange_slice(bytes, 0, ht, 20 + lp, 20 + lp + le);
    assert(ht.subrange(20 + lp, 20 + lp + le) =~= entry_encodings(d.entries).flatten());
    assert(bytes.subrange(20 + lp, 20 + lp + le) == bytes.subrange(
        0int + (20 + lp),
        0int + (20 + lp + le),
    ));
    assert(d.entries.skip(0) =~= d.entries);
    assert(entry_encodings(d.entries.skip(0)) == entry_encodings(d.entries));
    lemma_rt_entries(bytes, 20 + lp, d.entries, 0);
    let zents = zero_offsets(d.entries);
    assert(zents.skip(0) =~= zents);
    assert(forall|j: int|
        0 <= j < zents.len() ==> (#[trigger] zents[j]).byte_length == (
        #[trigger] d.entries[j]).byte_length);
    lemma_data_len(d.entries, payloads, a, start);
    if d.entries.len() > 0 {
        lemma_offsets_same(zents, d.entries, d.entries.len() - 1, start, a);
        assert(spec_doc_end(zents, start, a) == spec_doc_end(d.entries, start, a));
    }
    assert(spec_doc_end(zents, start, a) == bytes.len());
    assert(ht.len() + padh == start <= bytes.len());
    // Now read the truncated bytes: every stage either sees the same bytes
    // or runs off the end.
    if 4 > m {
    } else {
        assert(t.subrange(0, 4) =~= bytes.subrange(0, 4));
        lemma_prefix_u32(bytes, m, 4);
        if 8 > m {
        } else {
            lemma_prefix_u32(bytes, m, 8);
            if 12 > m {
            } else {
                lemma_prefix_u32(bytes, m, 12);
                if 16 > m {
                } else {
                    lemma_parse_pairs_end(bytes, 16, d.metadata.len() as int);
                    lemma_prefix_pairs(bytes, m, 16, d.metadata.len() as int);
                    if 16 + lp <= m {
                        lemma_prefix_u32(bytes, m, 16 + lp);
                        if 20 + lp <= m {
                            lemma_parse_entries_end(bytes, 20 + lp, d.entries.len() as int);
                            lemma_prefix_entries(bytes, m, 20 + lp, d.entries.len() as int);
                            if 20 + lp + le <= m {
                                assert(crate::model::unique_names(zents)) by {
                                    assert(forall|i: int|
                                        0 <= i < zents.len() ==> (#[trigger] zents[i]).name
                                            == d.entries[i].name);
                                }
                                assert(spec_parse_entries(t, 20 + lp, d.entries.len() as int)
                                    == Ok::<_, FormatError>((zents, ht.len() as int)));
                                if ht.len() + padh <= m {
                                    assert(spec_doc_end(zents, start, a) > m);
                                    assert(spec_parse_document(t, 0) == Err::<
                                        (DocSpec, int),
                                        _,
                                    >(FormatError::TruncatedFile));
                                } else {
                                    assert(spec_parse_document(t, 0) == Err::<
                                        (DocSpec, int),
                                        _,
                                    >(FormatError::UnexpectedEof));
                                }
                            } else {
                                assert(spec_parse_document(t, 0) == Err::<(DocSpec, int), _>(
                                    FormatError::UnexpectedEof,
                                ));
                            }
                        }
                    }
                }
            }
        }
    }
}

} // verus!
