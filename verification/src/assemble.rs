use vstd::prelude::*;
use crate::codec::{read_bytes_with_len, read_u32, read_u64, write_bytes, write_u32, write_u64};
use crate::encode::{
    dim_encodings, entry_encodings, lemma_flatten_take_le, lemma_flatten_take_step, pair_encodings,
    spec_encode_entry, spec_encode_pair, spec_encode_value, value_tag,
};
use crate::error::FormatError;
use crate::model::{
    bytes_eq, bytes_views, entries_view, magic_bytes, pairs_view, shape_size, values_view,
    wf_document, Document, ElementType, Entry, MetadataValue, SUPPORTED_VERSION,
};
use crate::parse::{
    lemma_parse_entry_progress, lemma_parse_pair_progress, lemma_parse_value_progress,
    spec_parse_dims, spec_parse_entries, spec_parse_entry, spec_parse_pair, spec_parse_pairs,
    spec_parse_value, spec_parse_values,
};
use crate::stream::{ByteReader, ByteWriter};

verus! {

/// Reads one metadata value: a tag, then the variant's payload; arrays read
/// their elements recursively. The outcome is exactly `spec_parse_value` at
/// the starting position. On an error the position is wherever the failure
/// was found; the document reader rewinds for its callers.
#[verifier::loop_isolation(false)]
fn read_value(reader: &mut ByteReader) -> (r: Result<MetadataValue, FormatError>)
    requires
        old(reader).wf(),
    ensures
        final(reader).wf(),
        final(reader).bytes() == old(reader).bytes(),
        final(reader).position() >= old(reader).position(),
        match r {
            Ok(v) => spec_parse_value(old(reader).bytes(), old(reader).position()) == Ok::<
                _,
                FormatError,
            >((v@, final(reader).position())),
            Err(e) => spec_parse_value(old(reader).bytes(), old(reader).position()) == Err::<
                (crate::model::ValueSpec, int),
                _,
            >(e),
        },
    decreases old(reader).bytes().len() - old(reader).position(),
{
    let ghost s = old(reader).bytes();
    let ghost p0 = old(reader).position();
    let tag = read_u32(reader)?;
    if tag == 0 {
        let b = read_bytes_with_len(reader, 1)?;
        let ghost p1 = p0 + 4;
        proof {
            assert(b@[0] == s[p1]);
        }
        if b[0] == 0 {
            Ok(MetadataValue::Bool(false))
        } else if b[0] == 1 {
            Ok(MetadataValue::Bool(true))
        } else {
            Err(FormatError::MalformedSection)
        }
    } else if tag == 1 {
        let x = read_u32(reader)?;
        Ok(MetadataValue::UInt32(x))
    } else if tag == 2 {
        let x = read_u32(reader)?;
        Ok(MetadataValue::Int32(#[verifier::truncate] (x as i32)))
    } else if tag == 3 {
        let x = read_u64(reader)?;
        Ok(MetadataValue::UInt64(x))
    } else if tag == 4 {
        let x = read_u64(reader)?;
        Ok(MetadataValue::Int64(#[verifier::truncate] (x as i64)))
    } else if tag == 5 {
        let x = read_u32(reader)?;
        Ok(MetadataValue::Float32Bits(x))
    } else if tag == 6 {
        let x = read_u64(reader)?;
        Ok(MetadataValue::Float64Bits(x))
    } else if tag == 7 {
        let len = read_u32(reader)?;
        let bytes = read_bytes_with_len(reader, len as usize)?;
        Ok(MetadataValue::Str(bytes))
    } else if tag == 8 {
        let n = read_u32(reader)?;
        let ghost p2 = p0 + 8;
        let mut items: Vec<MetadataValue> = Vec::new();
        let mut i: u32 = 0;
        while i < n
            invariant
                reader.wf(),
                reader.bytes() == s,
                0 <= i <= n,
                i as int == items@.len(),
                p2 == p0 + 8,
                p0 + 8 <= reader.position() <= s.len(),
                spec_parse_values(s, p2, n as int) == (match spec_parse_values(
                    s,
                    reader.position(),
                    n - i,
                ) {
                    Ok((vs, e)) => Ok::<_, FormatError>((values_view(items@) + vs, e)),
                    Err(e) => Err::<(Seq<crate::model::ValueSpec>, int), _>(e),
                }),
            decreases n - i,
        {
            let ghost cur = reader.position();
            let ghost items_pre = items@;
            let v = match read_value(reader) {
                Ok(v) => v,
                Err(e) => {
                    proof {
                        assert(spec_parse_values(s, cur, n - i) == Err::<
                            (Seq<crate::model::ValueSpec>, int),
                            _,
                        >(e));
                    }
                    return Err(e);
                },
            };
            proof {
                lemma_parse_value_progress(s, cur);
            }
            items.push(v);
            i = i + 1;
            proof {
                assert(values_view(items@) =~= values_view(items_pre) + seq![v@]);
                let p_next = reader.position();
                assert(spec_parse_values(s, cur, n - (i - 1)) == (match spec_parse_values(
                    s,
                    p_next,
                    n - i,
                ) {
                    Ok((vs, e)) => Ok::<_, FormatError>((seq![v@] + vs, e)),
                    Err(e) => Err::<(Seq<crate::model::ValueSpec>, int), _>(e),
                }));
                if spec_parse_values(s, p_next, n - i) is Ok {
                    let (vs, e) = spec_parse_values(s, p_next, n - i)->Ok_0;
                    assert(values_view(items_pre) + (seq![v@] + vs) =~= values_view(items@) + vs);
                }
            }
        }
        proof {
            assert(spec_parse_values(s, reader.position(), 0) == Ok::<_, FormatError>((
                Seq::<crate::model::ValueSpec>::empty(),
                reader.position() as int,
            )));
            assert(values_view(items@) + Seq::<crate::model::ValueSpec>::empty() =~= values_view(
                items@,
            ));
            let s1 = crate::model::value_view(MetadataValue::Array(items))->Array_0;
            assert(s1 =~= values_view(items@));
            assert(crate::model::value_view(MetadataValue::Array(items))
                == crate::model::ValueSpec::Array(values_view(items@)));
        }
        Ok(MetadataValue::Array(items))
    } else {
        Err(FormatError::MalformedSection)
    }
}

/// Whether the product of `a` and `d` passes the largest `u64`, decided by
/// one division.
proof fn lemma_mul_div_bound(a: u64, d: u64)
    requires
        d >= 1,
    ensures
        a > u64::MAX as int / d as int <==> (a as int) * (d as int) > u64::MAX,
{
    let m = u64::MAX as int;
    let q = m / (d as int);
    vstd::arithmetic::div_mod::lemma_fundamental_div_mod(m, d as int);
    if a <= q {
        vstd::arithmetic::mul::lemma_mul_inequality(a as int, q, d as int);
        assert(q * (d as int) == m - m % (d as int));
    } else {
        vstd::arithmetic::mul::lemma_mul_inequality(q + 1, a as int, d as int);
        assert((q + 1) * (d as int) == q * (d as int) + (d as int)) by {
            vstd::arithmetic::mul::lemma_mul_is_distributive_add_other_way(d as int, q, 1);
        }
    }
}

/// The byte length a shape and element type declare: the product of the
/// dimensions times the element width, or nothing if that product passes the
/// largest `u64`.
fn shape_byte_length(shape: &Vec<u32>, ty: ElementType) -> (r: Option<u64>)
    requires
        forall|i: int| 0 <= i < shape@.len() ==> #[trigger] shape@[i] >= 1,
    ensures
        match r {
            Some(x) => x == shape_size(shape@) * ty.spec_size(),
            None => shape_size(shape@) * ty.spec_size() > u64::MAX,
        },
{
    let mut prod: u64 = 1;
    let mut i: usize = 0;
    proof {
        assert(shape@.skip(0) =~= shape@);
    }
    while i < shape.len()
        invariant
            0 <= i <= shape@.len(),
            prod >= 1,
            forall|j: int| 0 <= j < shape@.len() ==> #[trigger] shape@[j] >= 1,
            shape_size(shape@) == (prod as int) * shape_size(shape@.skip(i as int)),
        decreases shape@.len() - i,
    {
        let d = shape[i] as u64;
        let ghost rest = shape@.skip(i as int);
        let ghost rest2 = shape@.skip(i + 1);
        proof {
            assert(rest[0] == shape@[i as int]);
            assert(rest.drop_first() =~= rest2);
            assert(shape_size(rest) == (rest[0] * shape_size(rest2)) as nat);
            assert(forall|j: int| 0 <= j < rest2.len() ==> #[trigger] rest2[j] >= 1);
            crate::model::lemma_shape_size_positive(rest2);
            lemma_mul_div_bound(prod, d);
        }
        if prod > u64::MAX / d {
            proof {
                let sr2 = shape_size(rest2) as int;
                assert((prod as int) * ((d as int) * sr2) > u64::MAX) by (nonlinear_arith)
                    requires
                        (prod as int) * (d as int) > u64::MAX,
                        sr2 >= 1,
                        prod >= 1,
                        d >= 1,
                {}
                assert(shape_size(shape@) == (prod as int) * ((d as int) * sr2)) by (nonlinear_arith)
                    requires
                        shape_size(shape@) == (prod as int) * shape_size(rest),
                        shape_size(rest) == (d as int) * sr2,
                {}
                assert(ty.spec_size() >= 1);
                assert(shape_size(shape@) * ty.spec_size() > u64::MAX) by (nonlinear_arith)
                    requires
                        shape_size(shape@) > u64::MAX,
                        ty.spec_size() >= 1,
                {}
            }
            return None;
        }
        proof {
            let sr2 = shape_size(rest2) as int;
            assert((prod as int) * ((d as int) * sr2) == ((prod as int) * (d as int)) * sr2)
                by (nonlinear_arith);
            assert(shape_size(shape@) == ((prod as int) * (d as int)) * sr2) by (nonlinear_arith)
                requires
                    shape_size(shape@) == (prod as int) * shape_size(rest),
                    shape_size(rest) == (d as int) * sr2,
                    (prod as int) * ((d as int) * sr2) == ((prod as int) * (d as int)) * sr2,
            {}
        }
        proof {
            assert((prod as int) * (d as int) >= 1) by (nonlinear_arith)
                requires
                    prod >= 1,
                    d >= 1,
            {}
        }
        prod = prod * d;
        i = i + 1;
    }
    proof {
        assert(shape@.skip(i as int) =~= Seq::<u32>::empty());
        assert(shape_size(shape@.skip(i as int)) == 1);
        assert(shape_size(shape@) == (prod as int) * shape_size(shape@.skip(i as int)));
        assert((prod as int) * 1int == prod as int) by (nonlinear_arith);
        assert(shape_size(shape@) == prod as int);
    }
    let sz = ty.size() as u64;
    proof {
        assert(sz == ty.spec_size());
        assert(sz >= 1);
    }
    proof {
        lemma_mul_div_bound(prod, sz);
    }
    if prod > u64::MAX / sz {
        return None;
    }
    Some(prod * sz)
}

/// Reads one metadata pair: a length-prefixed key, then a value. The outcome
/// is exactly `spec_parse_pair` at the starting position.
fn read_pair(reader: &mut ByteReader) -> (r: Result<(Vec<u8>, MetadataValue), FormatError>)
    requires
        old(reader).wf(),
    ensures
        final(reader).wf(),
        final(reader).bytes() == old(reader).bytes(),
        final(reader).position() >= old(reader).position(),
        match r {
            Ok(p) => spec_parse_pair(old(reader).bytes(), old(reader).position()) == Ok::<
                _,
                FormatError,
            >(((p.0@, p.1@), final(reader).position() as int)),
            Err(e) => spec_parse_pair(old(reader).bytes(), old(reader).position()) == Err::<
                ((Seq<u8>, crate::model::ValueSpec), int),
                _,
            >(e),
        },
{
    let klen = read_u32(reader)?;
    let key = read_bytes_with_len(reader, klen as usize)?;
    let v = read_value(reader)?;
    Ok((key, v))
}

/// Reads a run of `n` metadata pairs. The outcome is exactly
/// `spec_parse_pairs` at the starting position.
#[verifier::loop_isolation(false)]
fn read_pairs(reader: &mut ByteReader, n: u32) -> (r: Result<
    Vec<(Vec<u8>, MetadataValue)>,
    FormatError,
>)
    requires
        old(reader).wf(),
    ensures
        final(reader).wf(),
        final(reader).bytes() == old(reader).bytes(),
        final(reader).position() >= old(reader).position(),
        match r {
            Ok(v) => spec_parse_pairs(old(reader).bytes(), old(reader).position(), n as int)
                == Ok::<_, FormatError>((pairs_view(v@), final(reader).position() as int)),
            Err(e) => spec_parse_pairs(old(reader).bytes(), old(reader).position(), n as int)
                == Err::<(Seq<(Seq<u8>, crate::model::ValueSpec)>, int), _>(e),
        },
{
    let ghost s = old(reader).bytes();
    let ghost p0 = old(reader).position();
    let mut acc: Vec<(Vec<u8>, MetadataValue)> = Vec::new();
    let mut i: u32 = 0;
    proof {
        assert(pairs_view(acc@) =~= Seq::<(Seq<u8>, crate::model::ValueSpec)>::empty());
    }
    while i < n
        invariant
            reader.wf(),
            reader.bytes() == s,
            0 <= i <= n,
            i as int == acc@.len(),
            p0 <= reader.position() <= s.len(),
            spec_parse_pairs(s, p0, n as int) == (match spec_parse_pairs(
                s,
                reader.position(),
                n - i,
            ) {
                Ok((ps, e)) => Ok::<_, FormatError>((pairs_view(acc@) + ps, e)),
                Err(e) => Err::<(Seq<(Seq<u8>, crate::model::ValueSpec)>, int), _>(e),
            }),
        decreases n - i,
    {
        let ghost cur = reader.position();
        let ghost acc_pre = acc@;
        let p = match read_pair(reader) {
            Ok(p) => p,
            Err(e) => {
                return Err(e);
            },
        };
        proof {
            lemma_parse_pair_progress(s, cur);
        }
        acc.push(p);
        i = i + 1;
        proof {
            assert(pairs_view(acc@) =~= pairs_view(acc_pre) + seq![(p.0@, p.1@)]);
            if spec_parse_pairs(s, reader.position(), n - i) is Ok {
                let (ps, e) = spec_parse_pairs(s, reader.position(), n - i)->Ok_0;
                assert(pairs_view(acc_pre) + (seq![(p.0@, p.1@)] + ps) =~= pairs_view(acc@) + ps);
            }
        }
    }
    proof {
        assert(pairs_view(acc@) + Seq::<(Seq<u8>, crate::model::ValueSpec)>::empty() =~= pairs_view(
            acc@,
        ));
    }
    Ok(acc)
}

/// Reads a run of `n` dimensions, each a positive little-endian `u32`. The
/// outcome is exactly `spec_parse_dims` at the starting position.
#[verifier::loop_isolation(false)]
fn read_dims(reader: &mut ByteReader, n: u32) -> (r: Result<Vec<u32>, FormatError>)
    requires
        old(reader).wf(),
    ensures
        final(reader).wf(),
        final(reader).bytes() == old(reader).bytes(),
        final(reader).position() >= old(reader).position(),
        match r {
            Ok(v) => spec_parse_dims(old(reader).bytes(), old(reader).position(), n as int)
                == Ok::<_, FormatError>((v@, final(reader).position() as int)),
            Err(e) => spec_parse_dims(old(reader).bytes(), old(reader).position(), n as int)
                == Err::<(Seq<u32>, int), _>(e),
        },
{
    let ghost s = old(reader).bytes();
    let ghost p0 = old(reader).position();
    let mut acc: Vec<u32> = Vec::new();
    let mut i: u32 = 0;
    while i < n
        invariant
            reader.wf(),
            reader.bytes() == s,
            0 <= i <= n,
            i as int == acc@.len(),
            p0 <= reader.position() <= s.len(),
            spec_parse_dims(s, p0, n as int) == (match spec_parse_dims(
                s,
                reader.position(),
                n - i,
            ) {
                Ok((ds, e)) => Ok::<_, FormatError>((acc@ + ds, e)),
                Err(e) => Err::<(Seq<u32>, int), _>(e),
            }),
        decreases n - i,
    {
        let ghost acc_pre = acc@;
        let d = read_u32(reader)?;
        if d == 0 {
            return Err(FormatError::MalformedSection);
        }
        acc.push(d);
        i = i + 1;
        proof {
            assert(acc@ =~= acc_pre + seq![d]);
            if spec_parse_dims(s, reader.position(), n - i) is Ok {
                let (ds, e) = spec_parse_dims(s, reader.position(), n - i)->Ok_0;
                assert(acc_pre + (seq![d] + ds) =~= acc@ + ds);
            }
        }
    }
    proof {
        assert(acc@ + Seq::<u32>::empty() =~= acc@);
    }
    Ok(acc)
}

/// Reads one entry-table record and validates that its declared byte length
/// is the product of its shape times its element width. The outcome is
/// exactly `spec_parse_entry` at the starting position; the entry's offset is
/// left at zero for the document reader to place.
fn read_entry(reader: &mut ByteReader) -> (r: Result<Entry, FormatError>)
    requires
        old(reader).wf(),
    ensures
        final(reader).wf(),
        final(reader).bytes() == old(reader).bytes(),
        final(reader).position() >= old(reader).position(),
        match r {
            Ok(e) => spec_parse_entry(old(reader).bytes(), old(reader).position()) == Ok::<
                _,
                FormatError,
            >((e@, final(reader).position() as int)),
            Err(e) => spec_parse_entry(old(reader).bytes(), old(reader).position()) == Err::<
                (crate::model::EntrySpec, int),
                _,
            >(e),
        },
{
    let ghost s = old(reader).bytes();
    let ghost p0 = old(reader).position();
    let nlen = read_u32(reader)?;
    let name = read_bytes_with_len(reader, nlen as usize)?;
    let ttag = read_u32(reader)?;
    let ty = match ElementType::from_tag(ttag) {
        Some(t) => t,
        None => {
            return Err(FormatError::MalformedSection);
        },
    };
    let ndims = read_u32(reader)?;
    let ghost p3 = reader.position();
    let dims = read_dims(reader, ndims)?;
    let blen = read_u64(reader)?;
    proof {
        crate::parse::lemma_parse_dims_positive(s, p3, ndims as int);
    }
    let expected = shape_byte_length(&dims, ty);
    let ok = match expected {
        Some(x) => x == blen,
        None => false,
    };
    if !ok {
        proof {
            if expected is None {
                assert(shape_size(dims@) * ty.spec_size() > u64::MAX);
                assert(blen != shape_size(dims@) * ty.spec_size());
            }
        }
        return Err(FormatError::MalformedSection);
    }
    Ok(Entry { name, element_type: ty, shape: dims, data_offset: 0, byte_length: blen })
}

/// Reads a run of `n` entry-table records. The outcome is exactly
/// `spec_parse_entries` at the starting position.
#[verifier::loop_isolation(false)]
fn read_entries(reader: &mut ByteReader, n: u32) -> (r: Result<Vec<Entry>, FormatError>)
    requires
        old(reader).wf(),
    ensures
        final(reader).wf(),
        final(reader).bytes() == old(reader).bytes(),
        final(reader).position() >= old(reader).position(),
        match r {
            Ok(v) => spec_parse_entries(old(reader).bytes(), old(reader).position(), n as int)
                == Ok::<_, FormatError>((entries_view(v@), final(reader).position() as int)),
            Err(e) => spec_parse_entries(old(reader).bytes(), old(reader).position(), n as int)
                == Err::<(Seq<crate::model::EntrySpec>, int), _>(e),
        },
{
    let ghost s = old(reader).bytes();
    let ghost p0 = old(reader).position();
    let mut acc: Vec<Entry> = Vec::new();
    let mut i: u32 = 0;
    proof {
        assert(entries_view(acc@) =~= Seq::<crate::model::EntrySpec>::empty());
    }
    while i < n
        invariant
            reader.wf(),
            reader.bytes() == s,
            0 <= i <= n,
            i as int == acc@.len(),
            p0 <= reader.position() <= s.len(),
            spec_parse_entries(s, p0, n as int) == (match spec_parse_entries(
                s,
                reader.position(),
                n - i,
            ) {
                Ok((es, e)) => Ok::<_, FormatError>((entries_view(acc@) + es, e)),
                Err(e) => Err::<(Seq<crate::model::EntrySpec>, int), _>(e),
            }),
        decreases n - i,
    {
        let ghost cur = reader.position();
        let ghost acc_pre = acc@;
        let en = match read_entry(reader) {
            Ok(en) => en,
            Err(e) => {
                return Err(e);
            },
        };
        proof {
            lemma_parse_entry_progress(s, cur);
        }
        acc.push(en);
        i = i + 1;
        proof {
            assert(entries_view(acc@) =~= entries_view(acc_pre) + seq![en@]);
            if spec_parse_entries(s, reader.position(), n - i) is Ok {
                let (es, e) = spec_parse_entries(s, reader.position(), n - i)->Ok_0;
                assert(entries_view(acc_pre) + (seq![en@] + es) =~= entries_view(acc@) + es);
            }
        }
    }
    proof {
        assert(entries_view(acc@) + Seq::<crate::model::EntrySpec>::empty() =~= entries_view(acc@));
    }
    Ok(acc)
}

/// Whether all metadata keys are distinct.
fn keys_unique(pairs: &Vec<(Vec<u8>, MetadataValue)>) -> (r: bool)
    ensures
        r <==> crate::model::unique_keys(pairs_view(pairs@)),
{
    let n = pairs.len();
    let mut i: usize = 0;
    while i < n
        invariant
            0 <= i <= n,
            n == pairs@.len(),
            forall|a: int, b: int|
                0 <= a < b < pairs@.len() && a < i ==> (#[trigger] pairs_view(pairs@)[a]).0 != (
                #[trigger] pairs_view(pairs@)[b]).0,
        decreases n - i,
    {
        let mut j: usize = i + 1;
        while j < n
            invariant
                0 <= i < j <= n,
                n == pairs@.len(),
                forall|b: int|
                    i < b < j ==> (#[trigger] pairs_view(pairs@)[b]).0 != pairs_view(pairs@)[
                        i as int
                    ].0,
            decreases n - j,
        {
            if bytes_eq(pairs[i].0.as_slice(), pairs[j].0.as_slice()) {
                proof {
                    assert(pairs_view(pairs@)[i as int].0 == pairs_view(pairs@)[j as int].0);
                }
                return false;
            }
            j = j + 1;
        }
        i = i + 1;
    }
    true
}

/// Whether all entry names are distinct.
fn names_unique(entries: &Vec<Entry>) -> (r: bool)
    ensures
        r <==> crate::model::unique_names(entries_view(entries@)),
{
    let n = entries.len();
    let mut i: usize = 0;
    while i < n
        invariant
            0 <= i <= n,
            n == entries@.len(),
            forall|a: int, b: int|
                0 <= a < b < entries@.len() && a < i ==> (#[trigger] entries_view(entries@)[a]).name
                    != (#[trigger] entries_view(entries@)[b]).name,
        decreases n - i,
    {
        let mut j: usize = i + 1;
        while j < n
            invariant
                0 <= i < j <= n,
                n == entries@.len(),
                forall|b: int|
                    i < b < j ==> (#[trigger] entries_view(entries@)[b]).name != entries_view(
                        entries@,
                    )[i as int].name,
            decreases n - j,
        {
            if bytes_eq(entries[i].name.as_slice(), entries[j].name.as_slice()) {
                proof {
                    assert(entries_view(entries@)[i as int].name == entries_view(entries@)[
                        j as int
                    ].name);
                }
                return false;
            }
            j = j + 1;
        }
        i = i + 1;
    }
    true
}

/// Reads a whole document, leaving the reader wherever the failure was found
/// on an error; `read_document` wraps this and rewinds.
#[verifier::loop_isolation(false)]
fn read_document_raw(reader: &mut ByteReader) -> (r: Result<Document, FormatError>)
    requires
        old(reader).wf(),
    ensures
        final(reader).wf(),
        final(reader).bytes() == old(reader).bytes(),
        final(reader).position() >= old(reader).position(),
        match r {
            Ok(d) => crate::parse::spec_parse_document(old(reader).bytes(), old(reader).position())
                == Ok::<_, FormatError>((d@, final(reader).position() as int)),
            Err(e) => crate::parse::spec_parse_document(
                old(reader).bytes(),
                old(reader).position(),
            ) == Err::<(crate::model::DocSpec, int), _>(e),
        },
{
    let ghost s = old(reader).bytes();
    let ghost p0 = old(reader).position();
    let magic = read_bytes_with_len(reader, 4)?;
    let expected_magic = magic_bytes();
    if !bytes_eq(magic.as_slice(), expected_magic.as_slice()) {
        return Err(FormatError::BadMagic);
    }
    let version = read_u32(reader)?;
    if version != SUPPORTED_VERSION {
        return Err(FormatError::UnsupportedVersion);
    }
    let align = read_u32(reader)?;
    if !crate::section::check_power_of_two(align) {
        return Err(FormatError::MalformedSection);
    }
    proof {
        assert(align >= 1);
    }
    let mcount = read_u32(reader)?;
    let pairs = read_pairs(reader, mcount)?;
    if !keys_unique(&pairs) {
        return Err(FormatError::MalformedSection);
    }
    let ecount = read_u32(reader)?;
    let mut ents = read_entries(reader, ecount)?;
    if !names_unique(&ents) {
        return Err(FormatError::MalformedSection);
    }
    let table_end = reader.pos();
    let pad = crate::section::padding_for(table_end, align);
    reader.skip(pad)?;
    let start_pos = reader.pos();
    let ghost gents = entries_view(ents@);
    let ghost start_i = start_pos as int;
    let ghost galign = align as int;
    let ghost placed_spec = crate::parse::spec_place_entries(gents, start_i, galign);
    let ghost gend = crate::parse::spec_doc_end(gents, start_i, galign);
    let total_len = reader.len();
    proof {
        assert(usize::MAX <= u64::MAX);
    }
    let n = ents.len();
    let mut placed: Vec<Entry> = Vec::new();
    let mut off: u64 = start_pos as u64;
    let mut end_last: u64 = start_pos as u64;
    let mut idx: usize = 0;
    proof {
        assert(entries_view(placed@) =~= placed_spec.take(0));
        assert(entries_view(ents@) =~= gents.skip(0));
    }
    while ents.len() > 0
        invariant
            idx == placed@.len(),
            idx + ents@.len() == n,
            n == gents.len(),
            entries_view(placed@) == placed_spec.take(idx as int),
            entries_view(ents@) == gents.skip(idx as int),
            idx < n ==> off as int == crate::parse::spec_entry_offset(gents, idx as int, start_i, galign),
            idx > 0 ==> end_last as int == crate::parse::spec_entry_offset(
                gents,
                idx as int - 1,
                start_i,
                galign,
            ) + gents[idx as int - 1].byte_length,
            idx == 0 ==> end_last == start_pos as u64,
        decreases ents@.len(),
    {
        let ghost ents_pre = ents@;
        let e = ents.remove(0);
        proof {
            assert(entries_view(ents_pre)[0] == gents.skip(idx as int)[0]);
            assert(e@ == gents[idx as int]);
            assert(entries_view(ents@) =~= entries_view(ents_pre).drop_first());
            assert(entries_view(ents_pre).drop_first() =~= gents.skip(idx as int + 1));
        }
        let blen = e.byte_length;
        let placed_entry = Entry {
            name: e.name,
            element_type: e.element_type,
            shape: e.shape,
            data_offset: off,
            byte_length: blen,
        };
        proof {
            assert(placed_entry@ == placed_spec[idx as int]);
        }
        placed.push(placed_entry);
        let ghost placed_now = placed@;
        proof {
            assert(entries_view(placed_now) =~= placed_spec.take(idx as int + 1));
        }
        let end = match off.checked_add(blen) {
            Some(x) => x,
            None => {
                proof {
                    crate::parse::lemma_doc_end_bounds(gents, idx as int, start_i, galign);
                }
                return Err(FormatError::TruncatedFile);
            },
        };
        proof {
            crate::parse::lemma_doc_end_bounds(gents, idx as int, start_i, galign);
            assert(end as int == crate::parse::spec_entry_offset(gents, idx as int, start_i, galign)
                + gents[idx as int].byte_length);
        }
        end_last = end;
        idx = idx + 1;
        if ents.len() > 0 {
            let pad2 = crate::section::padding_for_u64(end, align);
            off = match end.checked_add(pad2) {
                Some(x) => x,
                None => {
                    proof {
                        assert(crate::parse::spec_entry_offset(gents, idx as int, start_i, galign)
                            > u64::MAX);
                        crate::parse::lemma_entry_offset_monotone(
                            gents,
                            idx as int,
                            n as int - 1,
                            start_i,
                            galign,
                        );
                        crate::parse::lemma_doc_end_bounds(gents, n as int - 1, start_i, galign);
                    }
                    return Err(FormatError::TruncatedFile);
                },
            };
        }
    }
    if n > 0 {
        if end_last > total_len as u64 {
            return Err(FormatError::TruncatedFile);
        }
    }
    proof {
        assert(entries_view(placed@) =~= placed_spec);
        if n > 0 {
            assert(gend == end_last as int);
        } else {
            assert(gend == start_i);
        }
        assert(gend <= s.len());
    }
    let d = Document { format_version: version, alignment: align, metadata: pairs, entries: placed };
    proof {
        let parsed = crate::parse::spec_parse_document(s, p0);
        assert(parsed is Ok);
        assert(parsed->Ok_0.0 == d@);
        assert(parsed->Ok_0.1 == start_i);
    }
    Ok(d)
}

/// Reads and validates a whole document: magic and version, the metadata
/// block, the entry table with every entry's offset computed from the running
/// layout, the padding before the data region, and the bound of the data
/// itself against the stream length. On success the reader is left at the
/// start of the data region, for the caller to read entry payloads; no
/// payload bytes are read eagerly. On an error the reader is rewound to where
/// it began, and no partial document is returned. The outcome is exactly
/// `spec_parse_document` at the starting position.
pub fn read_document(reader: &mut ByteReader) -> (r: Result<Document, FormatError>)
    requires
        old(reader).wf(),
    ensures
        final(reader).wf(),
        final(reader).bytes() == old(reader).bytes(),
        match r {
            Ok(d) => crate::parse::spec_parse_document(old(reader).bytes(), old(reader).position())
                == Ok::<_, FormatError>((d@, final(reader).position() as int)),
            Err(e) => {
                &&& crate::parse::spec_parse_document(old(reader).bytes(), old(reader).position())
                    == Err::<(crate::model::DocSpec, int), _>(e)
                &&& final(reader).position() == old(reader).position()
            },
        },
{
    let start = reader.pos();
    match read_document_raw(reader) {
        Ok(d) => Ok(d),
        Err(e) => {
            reader.rewind(start);
            Err(e)
        },
    }
}

/// Writes one metadata value: its tag, then its payload; arrays write their
/// elements recursively. On success the sink grows by exactly
/// `spec_encode_value` of the value; a failure means the whole encoding could
/// not fit, and leaves the sink holding what was written before the failure.
#[verifier::loop_isolation(false)]
fn write_value(writer: &mut ByteWriter, v: &MetadataValue) -> (r: Result<(), FormatError>)
    requires
        old(writer).wf(),
        crate::model::wf_value(v@),
    ensures
        final(writer).wf(),
        final(writer).capacity() == old(writer).capacity(),
        old(writer).bytes().is_prefix_of(final(writer).bytes()),
        match r {
            Ok(()) => final(writer).bytes() == old(writer).bytes() + spec_encode_value(v@),
            Err(e) => {
                &&& e == FormatError::WriteFailure
                &&& old(writer).bytes().len() + spec_encode_value(v@).len()
                    > final(writer).capacity()
            },
        },
    decreases v,
{
    let ghost enc = spec_encode_value(v@);
    proof {
        vstd::bytes::lemma_auto_spec_u32_to_from_le_bytes();
        vstd::bytes::lemma_auto_spec_u64_to_from_le_bytes();
    }
    match v {
        MetadataValue::Bool(b) => {
            write_u32(writer, 0)?;
            let mut byte: Vec<u8> = Vec::new();
            byte.push(if *b { 1u8 } else { 0u8 });
            proof {
                assert(byte@ =~= seq![if *b { 1u8 } else { 0u8 }]);
            }
            write_bytes(writer, byte.as_slice())?;
            proof {
                assert(writer.bytes() =~= old(writer).bytes() + enc);
            }
            Ok(())
        },
        MetadataValue::UInt32(x) => {
            write_u32(writer, 1)?;
            write_u32(writer, *x)?;
            proof {
                assert(writer.bytes() =~= old(writer).bytes() + enc);
            }
            Ok(())
        },
        MetadataValue::Int32(x) => {
            write_u32(writer, 2)?;
            write_u32(writer, #[verifier::truncate] (*x as u32))?;
            proof {
                assert(writer.bytes() =~= old(writer).bytes() + enc);
            }
            Ok(())
        },
        MetadataValue::UInt64(x) => {
            write_u32(writer, 3)?;
            write_u64(writer, *x)?;
            proof {
                assert(writer.bytes() =~= old(writer).bytes() + enc);
            }
            Ok(())
        },
        MetadataValue::Int64(x) => {
            write_u32(writer, 4)?;
            write_u64(writer, #[verifier::truncate] (*x as u64))?;
            proof {
                assert(writer.bytes() =~= old(writer).bytes() + enc);
            }
            Ok(())
        },
        MetadataValue::Float32Bits(x) => {
            write_u32(writer, 5)?;
            write_u32(writer, *x)?;
            proof {
                assert(writer.bytes() =~= old(writer).bytes() + enc);
            }
            Ok(())
        },
        MetadataValue::Float64Bits(x) => {
            write_u32(writer, 6)?;
            write_u64(writer, *x)?;
            proof {
                assert(writer.bytes() =~= old(writer).bytes() + enc);
            }
            Ok(())
        },
        MetadataValue::Str(sv) => {
            write_u32(writer, 7)?;
            write_u32(writer, sv.len() as u32)?;
            write_bytes(writer, sv.as_slice())?;
            proof {
                assert(writer.bytes() =~= old(writer).bytes() + enc);
            }
            Ok(())
        },
        MetadataValue::Array(items) => {
            let ghost gitems = crate::model::value_view(*v)->Array_0;
            let ghost es = crate::encode::value_encodings(gitems);
            proof {
                assert(gitems.len() == items@.len());
                assert(enc == vstd::bytes::spec_u32_to_le_bytes(8u32)
                    + (vstd::bytes::spec_u32_to_le_bytes(gitems.len() as u32) + es.flatten()));
            }
            write_u32(writer, 8)?;
            write_u32(writer, items.len() as u32)?;
            let ghost base = writer.bytes();
            let mut i: usize = 0;
            proof {
                assert(es.take(0).flatten() =~= Seq::<u8>::empty());
                assert(base + es.take(0).flatten() =~= base);
            }
            while i < items.len()
                invariant
                    writer.wf(),
                    writer.capacity() == old(writer).capacity(),
                    0 <= i <= items@.len(),
                    base.is_prefix_of(writer.bytes()),
                    writer.bytes() == base + es.take(i as int).flatten(),
                decreases items@.len() - i,
            {
                proof {
                    assert(gitems[i as int] == items@[i as int]@);
                    assert(crate::model::wf_value(gitems[i as int]));
                    assert(es[i as int] == spec_encode_value(items@[i as int]@));
                }
                let res = write_value(writer, &items[i]);
                proof {
                    lemma_flatten_take_step(es, i as int);
                }
                match res {
                    Ok(()) => {},
                    Err(e) => {
                        proof {
                            lemma_flatten_take_le(es, i as int + 1);
                        }
                        return Err(e);
                    },
                }
                i = i + 1;
            }
            proof {
                assert(es.take(items@.len() as int) =~= es);
                assert(writer.bytes() =~= old(writer).bytes() + enc);
            }
            Ok(())
        },
    }
}

/// Writes one metadata pair: the key, length-prefixed, then the value. On
/// success the sink grows by exactly `spec_encode_pair` of the pair.
fn write_pair(writer: &mut ByteWriter, key: &Vec<u8>, v: &MetadataValue) -> (r: Result<
    (),
    FormatError,
>)
    requires
        old(writer).wf(),
        key@.len() <= u32::MAX,
        crate::model::wf_value(v@),
    ensures
        final(writer).wf(),
        final(writer).capacity() == old(writer).capacity(),
        old(writer).bytes().is_prefix_of(final(writer).bytes()),
        match r {
            Ok(()) => final(writer).bytes() == old(writer).bytes() + spec_encode_pair(
                (key@, v@),
            ),
            Err(e) => {
                &&& e == FormatError::WriteFailure
                &&& old(writer).bytes().len() + spec_encode_pair((key@, v@)).len()
                    > final(writer).capacity()
            },
        },
{
    proof {
        vstd::bytes::lemma_auto_spec_u32_to_from_le_bytes();
    }
    write_u32(writer, key.len() as u32)?;
    write_bytes(writer, key.as_slice())?;
    write_value(writer, v)?;
    proof {
        assert(writer.bytes() =~= old(writer).bytes() + spec_encode_pair((key@, v@)));
    }
    Ok(())
}

/// Writes one entry-table record: the name, length-prefixed, the element
/// type's tag, the dimension count, the dimensions, and the declared byte
/// length. On success the sink grows by exactly `spec_encode_entry` of the
/// entry.
#[verifier::loop_isolation(false)]
fn write_entry(writer: &mut ByteWriter, e: &Entry) -> (r: Result<(), FormatError>)
    requires
        old(writer).wf(),
        crate::model::wf_entry(e@),
    ensures
        final(writer).wf(),
        final(writer).capacity() == old(writer).capacity(),
        old(writer).bytes().is_prefix_of(final(writer).bytes()),
        match r {
            Ok(()) => final(writer).bytes() == old(writer).bytes() + spec_encode_entry(e@),
            Err(er) => {
                &&& er == FormatError::WriteFailure
                &&& old(writer).bytes().len() + spec_encode_entry(e@).len()
                    > final(writer).capacity()
            },
        },
{
    proof {
        vstd::bytes::lemma_auto_spec_u32_to_from_le_bytes();
        vstd::bytes::lemma_auto_spec_u64_to_from_le_bytes();
    }
    let ghost enc = spec_encode_entry(e@);
    let ghost ds = dim_encodings(e@.shape);
    write_u32(writer, e.name.len() as u32)?;
    write_bytes(writer, e.name.as_slice())?;
    write_u32(writer, e.element_type.tag())?;
    write_u32(writer, e.shape.len() as u32)?;
    let ghost base = writer.bytes();
    let mut i: usize = 0;
    proof {
        assert(ds.take(0).flatten() =~= Seq::<u8>::empty());
        assert(base + ds.take(0).flatten() =~= base);
    }
    while i < e.shape.len()
        invariant
            writer.wf(),
            writer.capacity() == old(writer).capacity(),
            0 <= i <= e@.shape.len(),
            base.is_prefix_of(writer.bytes()),
            writer.bytes() == base + ds.take(i as int).flatten(),
        decreases e@.shape.len() - i,
    {
        proof {
            assert(ds[i as int] == vstd::bytes::spec_u32_to_le_bytes(e@.shape[i as int]));
        }
        let res = write_u32(writer, e.shape[i]);
        proof {
            lemma_flatten_take_step(ds, i as int);
        }
        match res {
            Ok(()) => {},
            Err(er) => {
                proof {
                    lemma_flatten_take_le(ds, i as int + 1);
                }
                return Err(er);
            },
        }
        i = i + 1;
    }
    proof {
        assert(ds.take(e@.shape.len() as int) =~= ds);
    }
    write_u64(writer, e.byte_length)?;
    proof {
        assert(writer.bytes() =~= old(writer).bytes() + enc);
    }
    Ok(())
}

/// Checks in executable code whether one metadata value is well formed.
#[verifier::loop_isolation(false)]
fn check_value(v: &MetadataValue) -> (r: bool)
    ensures
        r <==> crate::model::wf_value(v@),
    decreases v,
{
    match v {
        MetadataValue::Str(sv) => sv.len() as u64 <= u32::MAX as u64,
        MetadataValue::Array(items) => {
            let ghost gitems = crate::model::value_view(*v)->Array_0;
            proof {
                assert(gitems.len() == items@.len());
            }
            if items.len() as u64 > u32::MAX as u64 {
                return false;
            }
            let mut i: usize = 0;
            let mut ok = true;
            while i < items.len()
                invariant
                    0 <= i <= items@.len(),
                    ok <==> forall|j: int|
                        0 <= j < i ==> crate::model::wf_value(#[trigger] gitems[j]),
                decreases items@.len() - i,
            {
                proof {
                    assert(gitems[i as int] == items@[i as int]@);
                }
                if !check_value(&items[i]) {
                    ok = false;
                }
                i = i + 1;
            }
            ok
        },
        _ => true,
    }
}

/// Checks in executable code whether one entry is well formed.
fn check_entry(e: &Entry) -> (r: bool)
    ensures
        r <==> crate::model::wf_entry(e@),
{
    if e.name.len() as u64 > u32::MAX as u64 {
        return false;
    }
    if e.shape.len() as u64 > u32::MAX as u64 {
        return false;
    }
    let mut i: usize = 0;
    while i < e.shape.len()
        invariant
            0 <= i <= e@.shape.len(),
            forall|j: int| 0 <= j < i ==> #[trigger] e@.shape[j] >= 1,
        decreases e@.shape.len() - i,
    {
        if e.shape[i] == 0 {
            return false;
        }
        i = i + 1;
    }
    match shape_byte_length(&e.shape, e.element_type) {
        Some(x) => x == e.byte_length,
        None => false,
    }
}

/// Checks in executable code whether a document is well formed: the one
/// supported version, a power-of-two alignment, counts and lengths that fit
/// their 32-bit fields, unique keys and names, and well-formed values and
/// entries. Unverified callers test this before handing a document to the
/// writer.
#[verifier::loop_isolation(false)]
pub fn check_document(doc: &Document) -> (r: bool)
    ensures
        r <==> wf_document(doc@),
{
    if doc.format_version != SUPPORTED_VERSION {
        return false;
    }
    if !crate::section::check_power_of_two(doc.alignment) {
        return false;
    }
    if doc.metadata.len() as u64 > u32::MAX as u64 {
        return false;
    }
    if !keys_unique(&doc.metadata) {
        return false;
    }
    let mut i: usize = 0;
    while i < doc.metadata.len()
        invariant
            0 <= i <= doc@.metadata.len(),
            forall|j: int|
                0 <= j < i ==> (#[trigger] doc@.metadata[j]).0.len() <= u32::MAX
                    && crate::model::wf_value(doc@.metadata[j].1),
        decreases doc@.metadata.len() - i,
    {
        proof {
            assert(doc@.metadata[i as int] == (doc.metadata@[i as int].0@,
                crate::model::value_view(doc.metadata@[i as int].1)));
        }
        if doc.metadata[i].0.len() as u64 > u32::MAX as u64 {
            proof {
                assert(doc@.metadata[i as int].0.len() > u32::MAX);
            }
            return false;
        }
        if !check_value(&doc.metadata[i].1) {
            proof {
                assert(!crate::model::wf_value(doc@.metadata[i as int].1));
            }
            return false;
        }
        i = i + 1;
    }
    if doc.entries.len() as u64 > u32::MAX as u64 {
        return false;
    }
    if !names_unique(&doc.entries) {
        return false;
    }
    let mut i: usize = 0;
    while i < doc.entries.len()
        invariant
            0 <= i <= doc@.entries.len(),
            forall|j: int| 0 <= j < i ==> crate::model::wf_entry(#[trigger] doc@.entries[j]),
        decreases doc@.entries.len() - i,
    {
        if !check_entry(&doc.entries[i]) {
            proof {
                assert(doc@.entries[i as int] == doc.entries@[i as int]@);
            }
            return false;
        }
        i = i + 1;
    }
    true
}

/// Whether every supplied payload has exactly its entry's declared length.
pub open spec fn payload_sizes_match(d: crate::model::DocSpec, payloads: Seq<Seq<u8>>) -> bool {
    forall|i: int|
        0 <= i < payloads.len() ==> (#[trigger] payloads[i]).len() == d.entries[i].byte_length
}

/// Writes a whole document and its entries' data: header, metadata block,
/// entry table with offsets computed from the running layout, padding up to
/// the data region, then each payload padded up to the alignment, with
/// nothing after the last payload. The write is atomic: it is staged in
/// memory first, so a sink that cannot take the whole encoding is left
/// unchanged. Fails with `SizeMismatch` if any payload's length differs from
/// its entry's declared byte length, and with `WriteFailure` if the sink's
/// capacity would be exceeded.
#[verifier::loop_isolation(false)]
pub fn write_document(
    writer: &mut ByteWriter,
    doc: &Document,
    payloads: &Vec<Vec<u8>>,
) -> (r: Result<(), FormatError>)
    requires
        old(writer).wf(),
        wf_document(doc@),
        payloads@.len() == doc@.entries.len(),
    ensures
        final(writer).wf(),
        final(writer).capacity() == old(writer).capacity(),
        ({
            let enc = crate::encode::spec_encode_document(doc@, bytes_views(payloads@));
            match r {
                Ok(()) => {
                    &&& payload_sizes_match(doc@, bytes_views(payloads@))
                    &&& old(writer).bytes().len() + enc.len() <= final(writer).capacity()
                    &&& final(writer).bytes() == old(writer).bytes() + enc
                },
                Err(e) => {
                    &&& final(writer).bytes() == old(writer).bytes()
                    &&& (e == FormatError::SizeMismatch || e == FormatError::WriteFailure)
                    &&& (e == FormatError::SizeMismatch <==> !payload_sizes_match(
                        doc@,
                        bytes_views(payloads@),
                    ))
                    &&& (e == FormatError::WriteFailure ==> old(writer).bytes().len() + enc.len()
                        > final(writer).capacity())
                },
            }
        }),
{
    let ghost dv = doc@;
    let ghost pv = bytes_views(payloads@);
    let ghost enc = crate::encode::spec_encode_document(dv, pv);
    let ghost ht = crate::encode::spec_encode_header_table(dv);
    proof {
        vstd::bytes::lemma_auto_spec_u32_to_from_le_bytes();
    }
    let mut i: usize = 0;
    while i < payloads.len()
        invariant
            0 <= i <= payloads@.len(),
            payloads@.len() == doc@.entries.len(),
            forall|j: int|
                0 <= j < i ==> (#[trigger] bytes_views(payloads@)[j]).len()
                    == doc@.entries[j].byte_length,
        decreases payloads@.len() - i,
    {
        let want = doc.entries[i].byte_length;
        if payloads[i].len() as u64 != want {
            proof {
                assert(bytes_views(payloads@)[i as int].len() != doc@.entries[i as int].byte_length);
            }
            return Err(FormatError::SizeMismatch);
        }
        i = i + 1;
    }
    proof {
        assert(payload_sizes_match(dv, pv));
    }
    let mut st = ByteWriter::new();
    match write_document_staged(&mut st, doc, payloads) {
        Ok(()) => {},
        Err(_) => {
            proof {
                assert(old(writer).bytes().len() + enc.len() > old(writer).capacity());
            }
            return Err(FormatError::WriteFailure);
        },
    }
    let staged = st.into_bytes();
    match writer.write_all(staged.as_slice()) {
        Ok(()) => Ok(()),
        Err(_) => Err(FormatError::WriteFailure),
    }
}

/// Stages a whole document's encoding into an empty sink, filling it with
/// exactly `spec_encode_document` of the document and payloads on success; a
/// failure means the whole encoding could not fit. The sink must start empty:
/// the encoding's padding is relative to the document's own start.
#[verifier::loop_isolation(false)]
#[verifier::rlimit(30)]
fn write_document_staged(
    writer: &mut ByteWriter,
    doc: &Document,
    payloads: &Vec<Vec<u8>>,
) -> (r: Result<(), FormatError>)
    requires
        old(writer).wf(),
        old(writer).bytes().len() == 0,
        wf_document(doc@),
        payloads@.len() == doc@.entries.len(),
        payload_sizes_match(doc@, bytes_views(payloads@)),
    ensures
        final(writer).wf(),
        final(writer).capacity() == old(writer).capacity(),
        ({
            let enc = crate::encode::spec_encode_document(doc@, bytes_views(payloads@));
            match r {
                Ok(()) => final(writer).bytes() == old(writer).bytes() + enc,
                Err(e) => {
                    &&& e == FormatError::WriteFailure
                    &&& old(writer).bytes().len() + enc.len() > final(writer).capacity()
                },
            }
        }),
{
    let ghost dv = doc@;
    let ghost pv = bytes_views(payloads@);
    let ghost enc = crate::encode::spec_encode_document(dv, pv);
    let ghost ht = crate::encode::spec_encode_header_table(dv);
    let ghost pes = pair_encodings(dv.metadata);
    let ghost ees = entry_encodings(dv.entries);
    proof {
        vstd::bytes::lemma_auto_spec_u32_to_from_le_bytes();
    }
    let magic = magic_bytes();
    write_bytes(writer, magic.as_slice())?;
    write_u32(writer, doc.format_version)?;
    write_u32(writer, doc.alignment)?;
    write_u32(writer, doc.metadata.len() as u32)?;
    let ghost base_pairs = writer.bytes();
    let mut i: usize = 0;
    proof {
        assert(pes.take(0).flatten() =~= Seq::<u8>::empty());
        assert(base_pairs + pes.take(0).flatten() =~= base_pairs);
    }
    while i < doc.metadata.len()
        invariant
            writer.wf(),
            writer.capacity() == old(writer).capacity(),
            0 <= i <= dv.metadata.len(),
            writer.bytes() == base_pairs + pes.take(i as int).flatten(),
        decreases dv.metadata.len() - i,
    {
        proof {
            assert(dv.metadata[i as int] == (doc.metadata@[i as int].0@, crate::model::value_view(
                doc.metadata@[i as int].1,
            )));
            assert(pes[i as int] == spec_encode_pair(dv.metadata[i as int]));
        }
        let res = write_pair(writer, &doc.metadata[i].0, &doc.metadata[i].1);
        proof {
            lemma_flatten_take_step(pes, i as int);
        }
        match res {
            Ok(()) => {},
            Err(_) => {
                proof {
                    lemma_flatten_take_le(pes, i as int + 1);
                }
                return Err(FormatError::WriteFailure);
            },
        }
        i = i + 1;
    }
    proof {
        assert(pes.take(dv.metadata.len() as int) =~= pes);
    }
    write_u32(writer, doc.entries.len() as u32)?;
    let ghost base_ents = writer.bytes();
    let mut i: usize = 0;
    proof {
        assert(ees.take(0).flatten() =~= Seq::<u8>::empty());
        assert(base_ents + ees.take(0).flatten() =~= base_ents);
    }
    while i < doc.entries.len()
        invariant
            writer.wf(),
            writer.capacity() == old(writer).capacity(),
            0 <= i <= dv.entries.len(),
            writer.bytes() == base_ents + ees.take(i as int).flatten(),
        decreases dv.entries.len() - i,
    {
        proof {
            assert(dv.entries[i as int] == doc.entries@[i as int]@);
            assert(ees[i as int] == spec_encode_entry(dv.entries[i as int]));
            assert(crate::model::wf_entry(dv.entries[i as int]));
        }
        let res = write_entry(writer, &doc.entries[i]);
        proof {
            lemma_flatten_take_step(ees, i as int);
        }
        match res {
            Ok(()) => {},
            Err(_) => {
                proof {
                    lemma_flatten_take_le(ees, i as int + 1);
                }
                return Err(FormatError::WriteFailure);
            },
        }
        i = i + 1;
    }
    proof {
        assert(ees.take(dv.entries.len() as int) =~= ees);
        assert(writer.bytes() =~= old(writer).bytes() + ht);
    }
    let table_len = writer.len();
    proof {
        assert(doc@.alignment >= 1);
        crate::section::lemma_pad_len_bounds(ht.len() as int, dv.alignment as int);
        assert(writer.bytes() =~= ht);
    }
    let pad = crate::section::padding_for(table_len, doc.alignment);
    crate::section::write_padding(writer, pad)?;
    let ghost base_data = writer.bytes();
    let ghost ga = dv.alignment as int;
    let ghost data_start = crate::encode::spec_data_start(dv);
    let ghost full_data = crate::encode::spec_encode_data(pv, ga, data_start);
    proof {
        assert(base_data =~= ht + crate::section::zeros(
            crate::section::pad_len(ht.len() as int, ga),
        ));
        assert(base_data.len() == data_start);
        assert(enc =~= base_data + full_data);
        assert(crate::encode::spec_encode_data(pv.skip(0), ga, data_start) == full_data) by {
            assert(pv.skip(0) =~= pv);
        }
        assert(full_data =~= Seq::<u8>::empty() + crate::encode::spec_encode_data(
            pv.skip(0),
            ga,
            data_start,
        ));
    }
    let n = payloads.len();
    let mut i: usize = 0;
    while i < n
        invariant
            writer.wf(),
            writer.capacity() == old(writer).capacity(),
            0 <= i <= pv.len(),
            n == pv.len(),
            base_data.is_prefix_of(writer.bytes()),
            full_data == writer.bytes().skip(data_start) + crate::encode::spec_encode_data(
                pv.skip(i as int),
                ga,
                writer.bytes().len() as int,
            ),
            writer.bytes() == base_data + writer.bytes().skip(data_start),
        decreases pv.len() - i,
    {
        let ghost rest = crate::encode::spec_encode_data(
            pv.skip(i as int),
            ga,
            writer.bytes().len() as int,
        );
        let ghost pos_i = writer.bytes().len() as int;
        proof {
            assert(pv.skip(i as int)[0] == pv[i as int]);
            assert(pv[i as int] == payloads@[i as int]@);
            if i + 1 < n {
                assert(pv.skip(i as int).len() > 1);
                assert(rest == pv[i as int] + crate::section::zeros(
                    crate::section::pad_len(pos_i + pv[i as int].len(), ga),
                ) + crate::encode::spec_encode_data(
                    pv.skip(i as int).drop_first(),
                    ga,
                    pos_i + pv[i as int].len() + crate::section::pad_len(
                        pos_i + pv[i as int].len(),
                        ga,
                    ),
                ));
                crate::section::lemma_pad_len_bounds(pos_i + pv[i as int].len(), ga);
            } else {
                assert(pv.skip(i as int).len() == 1);
                assert(rest == pv[i as int]);
            }
        }
        let res = write_bytes(writer, payloads[i].as_slice());
        match res {
            Ok(()) => {},
            Err(_) => {
                return Err(FormatError::WriteFailure);
            },
        }
        if i + 1 < n {
            let pad2 = crate::section::padding_for(writer.len(), doc.alignment);
            let res2 = crate::section::write_padding(writer, pad2);
            match res2 {
                Ok(()) => {},
                Err(_) => {
                    return Err(FormatError::WriteFailure);
                },
            }
        }
        proof {
            assert(pv.skip(i as int).drop_first() =~= pv.skip(i as int + 1));
            assert(writer.bytes().skip(data_start) =~= writer.bytes().skip(data_start));
            assert(base_data.len() == data_start);
            assert(writer.bytes() =~= base_data + writer.bytes().skip(data_start));
            assert(full_data == writer.bytes().skip(data_start) + crate::encode::spec_encode_data(
                pv.skip(i as int + 1),
                ga,
                writer.bytes().len() as int,
            )) by {
                assert((base_data + writer.bytes().skip(data_start)).skip(data_start)
                    =~= writer.bytes().skip(data_start));
            }
        }
        i = i + 1;
    }
    proof {
        assert(pv.skip(n as int) =~= Seq::<Seq<u8>>::empty());
        assert(crate::encode::spec_encode_data(pv.skip(n as int), ga, writer.bytes().len() as int)
            =~= Seq::<u8>::empty());
        assert(full_data =~= writer.bytes().skip(data_start));
        assert(writer.bytes() =~= old(writer).bytes() + enc);
    }
    Ok(())
}

} // verus!
