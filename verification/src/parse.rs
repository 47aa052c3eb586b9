use vstd::prelude::*;
use vstd::bytes::{spec_u32_from_le_bytes, spec_u64_from_le_bytes};
use crate::error::FormatError;
use crate::model::{DocSpec, ElementType, EntrySpec, ValueSpec, shape_size, spec_magic,
    unique_keys, unique_names, SUPPORTED_VERSION};
use crate::section::{is_power_of_two, pad_len};

verus! {

/// Parses a little-endian `u32` at `pos`: the value and the position after
/// it, or a short read.
pub open spec fn spec_parse_u32(s: Seq<u8>, pos: int) -> Result<(u32, int), FormatError> {
    if pos + 4 > s.len() {
        Err(FormatError::UnexpectedEof)
    } else {
        Ok((spec_u32_from_le_bytes(s.subrange(pos, pos + 4)), pos + 4))
    }
}

/// Parses a little-endian `u64` at `pos`.
pub open spec fn spec_parse_u64(s: Seq<u8>, pos: int) -> Result<(u64, int), FormatError> {
    if pos + 8 > s.len() {
        Err(FormatError::UnexpectedEof)
    } else {
        Ok((spec_u64_from_le_bytes(s.subrange(pos, pos + 8)), pos + 8))
    }
}

/// Parses one metadata value at `pos`: a tag, then the variant's payload. An
/// unknown tag or a boolean byte other than 0 or 1 is malformed; a payload
/// that passes the end of the stream is a short read.
pub open spec fn spec_parse_value(s: Seq<u8>, pos: int) -> Result<(ValueSpec, int), FormatError>
    decreases s.len() - pos, 0int, 0int,
{
    match spec_parse_u32(s, pos) {
        Err(e) => Err(e),
        Ok((tag, p1)) => {
            if tag == 0 {
                if p1 + 1 > s.len() {
                    Err(FormatError::UnexpectedEof)
                } else if s[p1] == 0 {
                    Ok((ValueSpec::Bool(false), p1 + 1))
                } else if s[p1] == 1 {
                    Ok((ValueSpec::Bool(true), p1 + 1))
                } else {
                    Err(FormatError::MalformedSection)
                }
            } else if tag == 1 {
                match spec_parse_u32(s, p1) {
                    Err(e) => Err(e),
                    Ok((x, p2)) => Ok((ValueSpec::UInt32(x), p2)),
                }
            } else if tag == 2 {
                match spec_parse_u32(s, p1) {
                    Err(e) => Err(e),
                    Ok((x, p2)) => Ok((ValueSpec::Int32(x as i32), p2)),
                }
            } else if tag == 3 {
                match spec_parse_u64(s, p1) {
                    Err(e) => Err(e),
                    Ok((x, p2)) => Ok((ValueSpec::UInt64(x), p2)),
                }
            } else if tag == 4 {
                match spec_parse_u64(s, p1) {
                    Err(e) => Err(e),
                    Ok((x, p2)) => Ok((ValueSpec::Int64(x as i64), p2)),
                }
            } else if tag == 5 {
                match spec_parse_u32(s, p1) {
                    Err(e) => Err(e),
                    Ok((x, p2)) => Ok((ValueSpec::Float32Bits(x), p2)),
                }
            } else if tag == 6 {
                match spec_parse_u64(s, p1) {
                    Err(e) => Err(e),
                    Ok((x, p2)) => Ok((ValueSpec::Float64Bits(x), p2)),
                }
            } else if tag == 7 {
                match spec_parse_u32(s, p1) {
                    Err(e) => Err(e),
                    Ok((len, p2)) => {
                        if p2 + len > s.len() {
                            Err(FormatError::UnexpectedEof)
                        } else {
                            Ok((ValueSpec::Str(s.subrange(p2, p2 + len)), p2 + len))
                        }
                    },
                }
            } else if tag == 8 {
                match spec_parse_u32(s, p1) {
                    Err(e) => Err(e),
                    Ok((n, p2)) => {
                        match spec_parse_values(s, p2, n as int) {
                            Err(e) => Err(e),
                            Ok((items, p3)) => Ok((ValueSpec::Array(items), p3)),
                        }
                    },
                }
            } else {
                Err(FormatError::MalformedSection)
            }
        },
    }
}

/// Parses a run of `n` metadata values, one after the other. The check that
/// each value moved the position strictly forward and stayed within the
/// stream can never fail — every value is at least four bytes — but makes
/// the recursion's progress structural.
pub open spec fn spec_parse_values(s: Seq<u8>, pos: int, n: int) -> Result<
    (Seq<ValueSpec>, int),
    FormatError,
>
    decreases s.len() - pos, 1int, n,
{
    if n <= 0 {
        Ok((Seq::empty(), pos))
    } else if pos > s.len() {
        Err(FormatError::UnexpectedEof)
    } else {
        match spec_parse_value(s, pos) {
            Err(e) => Err(e),
            Ok((v, p2)) => {
                if !(pos < p2 <= s.len()) {
                    Err(FormatError::MalformedSection)
                } else {
                    match spec_parse_values(s, p2, n - 1) {
                        Err(e) => Err(e),
                        Ok((vs, p3)) => Ok((seq![v] + vs, p3)),
                    }
                }
            },
        }
    }
}

/// Parses one metadata pair at `pos`: a length-prefixed key, then a value.
pub open spec fn spec_parse_pair(s: Seq<u8>, pos: int) -> Result<
    ((Seq<u8>, ValueSpec), int),
    FormatError,
> {
    match spec_parse_u32(s, pos) {
        Err(e) => Err(e),
        Ok((klen, p1)) => {
            if p1 + klen > s.len() {
                Err(FormatError::UnexpectedEof)
            } else {
                let key = s.subrange(p1, p1 + klen);
                match spec_parse_value(s, p1 + klen) {
                    Err(e) => Err(e),
                    Ok((v, p2)) => Ok(((key, v), p2)),
                }
            }
        },
    }
}

/// Parses a run of `n` metadata pairs, with the same structural progress
/// check as `spec_parse_values`.
pub open spec fn spec_parse_pairs(s: Seq<u8>, pos: int, n: int) -> Result<
    (Seq<(Seq<u8>, ValueSpec)>, int),
    FormatError,
>
    decreases n,
{
    if n <= 0 {
        Ok((Seq::empty(), pos))
    } else {
        match spec_parse_pair(s, pos) {
            Err(e) => Err(e),
            Ok((p, p2)) => {
                if !(pos < p2 <= s.len()) {
                    Err(FormatError::MalformedSection)
                } else {
                    match spec_parse_pairs(s, p2, n - 1) {
                        Err(e) => Err(e),
                        Ok((ps, p3)) => Ok((seq![p] + ps, p3)),
                    }
                }
            },
        }
    }
}

/// Parses a run of `n` dimensions, each a little-endian `u32`. A dimension of
/// zero is malformed: shapes hold positive extents only.
pub open spec fn spec_parse_dims(s: Seq<u8>, pos: int, n: int) -> Result<
    (Seq<u32>, int),
    FormatError,
>
    decreases n,
{
    if n <= 0 {
        Ok((Seq::empty(), pos))
    } else {
        match spec_parse_u32(s, pos) {
            Err(e) => Err(e),
            Ok((d, p2)) => {
                if d == 0 {
                    Err(FormatError::MalformedSection)
                } else {
                    match spec_parse_dims(s, p2, n - 1) {
                        Err(e) => Err(e),
                        Ok((ds, p3)) => Ok((seq![d] + ds, p3)),
                    }
                }
            },
        }
    }
}

/// Parses one entry-table record at `pos`: a length-prefixed name, the
/// element type's tag, the dimension count, the dimensions, and the declared
/// byte length, which must equal the element count times the element width.
/// The entry's offset is left at zero; the document parse fills it in from
/// the running layout.
pub open spec fn spec_parse_entry(s: Seq<u8>, pos: int) -> Result<(EntrySpec, int), FormatError> {
    match spec_parse_u32(s, pos) {
        Err(e) => Err(e),
        Ok((nlen, p1)) => {
            if p1 + nlen > s.len() {
                Err(FormatError::UnexpectedEof)
            } else {
                let name = s.subrange(p1, p1 + nlen);
                match spec_parse_u32(s, p1 + nlen) {
                    Err(e) => Err(e),
                    Ok((ttag, p2)) => {
                        match ElementType::spec_from_tag(ttag) {
                            None => Err(FormatError::MalformedSection),
                            Some(ty) => {
                                match spec_parse_u32(s, p2) {
                                    Err(e) => Err(e),
                                    Ok((ndims, p3)) => {
                                        match spec_parse_dims(s, p3, ndims as int) {
                                            Err(e) => Err(e),
                                            Ok((dims, p4)) => {
                                                match spec_parse_u64(s, p4) {
                                                    Err(e) => Err(e),
                                                    Ok((blen, p5)) => {
                                                        if blen != shape_size(dims)
                                                            * ty.spec_size() {
                                                            Err(FormatError::MalformedSection)
                                                        } else {
                                                            Ok(
                                                                (
                                                                    EntrySpec {
                                                                        name,
                                                                        element_type: ty,
                                                                        shape: dims,
                                                                        data_offset: 0,
                                                                        byte_length: blen,
                                                                    },
                                                                    p5,
                                                                ),
                                                            )
                                                        }
                                                    },
                                                }
                                            },
                                        }
                                    },
                                }
                            },
                        }
                    },
                }
            }
        },
    }
}

/// Parses a run of `n` entry-table records, with the same structural progress
/// check as `spec_parse_values`.
pub open spec fn spec_parse_entries(s: Seq<u8>, pos: int, n: int) -> Result<
    (Seq<EntrySpec>, int),
    FormatError,
>
    decreases n,
{
    if n <= 0 {
        Ok((Seq::empty(), pos))
    } else {
        match spec_parse_entry(s, pos) {
            Err(e) => Err(e),
            Ok((en, p2)) => {
                if !(pos < p2 <= s.len()) {
                    Err(FormatError::MalformedSection)
                } else {
                    match spec_parse_entries(s, p2, n - 1) {
                        Err(e) => Err(e),
                        Ok((es, p3)) => Ok((seq![en] + es, p3)),
                    }
                }
            },
        }
    }
}

/// The offset of entry `i` in the data region that begins at `start`: the
/// first entry sits at `start`, and each further entry follows the previous
/// one's data, rounded up to the alignment. Every offset is therefore a
/// multiple of the alignment whenever `start` is.
pub open spec fn spec_entry_offset(
    entries: Seq<EntrySpec>,
    i: int,
    start: int,
    align: int,
) -> int
    decreases i,
{
    if i <= 0 {
        start
    } else {
        let end = spec_entry_offset(entries, i - 1, start, align) + entries[i - 1].byte_length;
        end + pad_len(end, align)
    }
}

/// Where the document's data ends: the last entry's offset plus its length,
/// or the data region's start if there are no entries.
pub open spec fn spec_doc_end(entries: Seq<EntrySpec>, start: int, align: int) -> int {
    if entries.len() == 0 {
        start
    } else {
        spec_entry_offset(entries, entries.len() - 1, start, align) + entries[
            entries.len() - 1
        ].byte_length
    }
}

/// The parsed entries with their computed offsets filled in.
pub open spec fn spec_place_entries(entries: Seq<EntrySpec>, start: int, align: int) -> Seq<
    EntrySpec,
> {
    Seq::new(
        entries.len(),
        |i: int|
            if 0 <= i < entries.len() {
                EntrySpec {
                    data_offset: spec_entry_offset(entries, i, start, align) as u64,
                    ..entries[i]
                }
            } else {
                entries[i]
            },
    )
}

/// Parses a whole document from `s` starting at `pos`: magic, version,
/// alignment, the metadata block, the entry table, and the padding up to the
/// data region; computes every entry's offset from the running layout; and
/// validates the computed end of the data against the stream's length,
/// failing with `TruncatedFile` if the data cannot all be present. On success
/// yields the document and the data region's start position; entry payloads
/// themselves are not parsed.
pub open spec fn spec_parse_document(s: Seq<u8>, pos: int) -> Result<(DocSpec, int), FormatError> {
    if pos + 4 > s.len() {
        Err(FormatError::UnexpectedEof)
    } else if s.subrange(pos, pos + 4) != spec_magic() {
        Err(FormatError::BadMagic)
    } else {
        match spec_parse_u32(s, pos + 4) {
            Err(e) => Err(e),
            Ok((version, p1)) => {
                if version != SUPPORTED_VERSION {
                    Err(FormatError::UnsupportedVersion)
                } else {
                    match spec_parse_u32(s, p1) {
                        Err(e) => Err(e),
                        Ok((align, p2)) => {
                            if !is_power_of_two(align as int) {
                                Err(FormatError::MalformedSection)
                            } else {
                                match spec_parse_u32(s, p2) {
                                    Err(e) => Err(e),
                                    Ok((mcount, p3)) => {
                                        match spec_parse_pairs(s, p3, mcount as int) {
                                            Err(e) => Err(e),
                                            Ok((pairs, p4)) => {
                                                if !unique_keys(pairs) {
                                                    Err(FormatError::MalformedSection)
                                                } else {
                                                    match spec_parse_u32(s, p4) {
                                                        Err(e) => Err(e),
                                                        Ok((ecount, p5)) => {
                                                            match spec_parse_entries(
                                                                s,
                                                                p5,
                                                                ecount as int,
                                                            ) {
                                                                Err(e) => Err(e),
                                                                Ok((ents, p6)) => {
                                                                    if !unique_names(ents) {
                                                                        Err(
                                                                            FormatError::MalformedSection,
                                                                        )
                                                                    } else {
                                                                        let pad = pad_len(
                                                                            p6,
                                                                            align as int,
                                                                        );
                                                                        if p6 + pad > s.len() {
                                                                            Err(
                                                                                FormatError::UnexpectedEof,
                                                                            )
                                                                        } else {
                                                                            let start = p6 + pad;
                                                                            if spec_doc_end(
                                                                                ents,
                                                                                start,
                                                                                align as int,
                                                                            ) > s.len() {
                                                                                Err(
                                                                                    FormatError::TruncatedFile,
                                                                                )
                                                                            } else {
                                                                                Ok(
                                                                                    (
                                                                                        DocSpec {
                                                                                            version,
                                                                                            alignment:
                                                                                                align,
                                                                                            metadata:
                                                                                                pairs,
                                                                                            entries:
                                                                                                spec_place_entries(
                                                                                                ents,
                                                                                                start,
                                                                                                align as int,
                                                                                            ),
                                                                                        },
                                                                                        start,
                                                                                    ),
                                                                                )
                                                                            }
                                                                        }
                                                                    }
                                                                },
                                                            }
                                                        },
                                                    }
                                                }
                                            },
                                        }
                                    },
                                }
                            }
                        },
                    }
                }
            },
        }
    }
}

/// A successfully parsed value sits strictly after its start and within the
/// stream.
pub proof fn lemma_parse_value_progress(s: Seq<u8>, pos: int)
    requires
        0 <= pos,
        spec_parse_value(s, pos) is Ok,
    ensures
        pos + 4 < spec_parse_value(s, pos)->Ok_0.1 <= s.len(),
    decreases s.len() - pos, 0int, 0int,
{
    let (tag, p1) = spec_parse_u32(s, pos)->Ok_0;
    if tag == 8 {
        let (n, p2) = spec_parse_u32(s, p1)->Ok_0;
        lemma_parse_values_progress(s, p2, n as int);
    }
}

/// A successfully parsed run of values never moves the position backwards and
/// stays within the stream.
pub proof fn lemma_parse_values_progress(s: Seq<u8>, pos: int, n: int)
    requires
        0 <= pos <= s.len(),
        spec_parse_values(s, pos, n) is Ok,
    ensures
        pos <= spec_parse_values(s, pos, n)->Ok_0.1 <= s.len(),
    decreases s.len() - pos, 1int, n,
{
    if n <= 0 {
    } else {
        let (v, p2) = spec_parse_value(s, pos)->Ok_0;
        lemma_parse_value_progress(s, pos);
        lemma_parse_values_progress(s, p2, n - 1);
    }
}

/// A successfully parsed pair sits strictly after its start and within the
/// stream.
pub proof fn lemma_parse_pair_progress(s: Seq<u8>, pos: int)
    requires
        0 <= pos,
        spec_parse_pair(s, pos) is Ok,
    ensures
        pos < spec_parse_pair(s, pos)->Ok_0.1 <= s.len(),
{
    let (klen, p1) = spec_parse_u32(s, pos)->Ok_0;
    lemma_parse_value_progress(s, p1 + klen);
}

/// A successfully parsed run of dimensions never moves the position backwards
/// and stays within the stream.
pub proof fn lemma_parse_dims_progress(s: Seq<u8>, pos: int, n: int)
    requires
        0 <= pos <= s.len(),
        spec_parse_dims(s, pos, n) is Ok,
    ensures
        pos <= spec_parse_dims(s, pos, n)->Ok_0.1 <= s.len(),
    decreases n,
{
    if n <= 0 {
    } else {
        let (d, p2) = spec_parse_u32(s, pos)->Ok_0;
        lemma_parse_dims_progress(s, p2, n - 1);
    }
}

/// A successfully parsed run of pairs ends at or after its start, within
/// the stream.
pub proof fn lemma_parse_pairs_end(s: Seq<u8>, pos: int, n: int)
    requires
        0 <= pos <= s.len(),
        spec_parse_pairs(s, pos, n) is Ok,
    ensures
        pos <= spec_parse_pairs(s, pos, n)->Ok_0.1 <= s.len(),
    decreases n,
{
    if n > 0 {
        let (pr, p2) = spec_parse_pair(s, pos)->Ok_0;
        lemma_parse_pairs_end(s, p2, n - 1);
    }
}

/// A successfully parsed run of entry records ends at or after its start,
/// within the stream.
pub proof fn lemma_parse_entries_end(s: Seq<u8>, pos: int, n: int)
    requires
        0 <= pos <= s.len(),
        spec_parse_entries(s, pos, n) is Ok,
    ensures
        pos <= spec_parse_entries(s, pos, n)->Ok_0.1 <= s.len(),
    decreases n,
{
    if n > 0 {
        let (e, p2) = spec_parse_entry(s, pos)->Ok_0;
        lemma_parse_entries_end(s, p2, n - 1);
    }
}

/// Every successfully parsed dimension is positive.
pub proof fn lemma_parse_dims_positive(s: Seq<u8>, pos: int, n: int)
    requires
        spec_parse_dims(s, pos, n) is Ok,
    ensures
        forall|i: int|
            0 <= i < spec_parse_dims(s, pos, n)->Ok_0.0.len() ==> #[trigger] spec_parse_dims(
                s,
                pos,
                n,
            )->Ok_0.0[i] >= 1,
    decreases n,
{
    if n > 0 {
        let (d, p2) = spec_parse_u32(s, pos)->Ok_0;
        lemma_parse_dims_positive(s, p2, n - 1);
    }
}

/// A successfully parsed entry record sits strictly after its start and
/// within the stream.
pub proof fn lemma_parse_entry_progress(s: Seq<u8>, pos: int)
    requires
        0 <= pos,
        spec_parse_entry(s, pos) is Ok,
    ensures
        pos < spec_parse_entry(s, pos)->Ok_0.1 <= s.len(),
{
    let (nlen, p1) = spec_parse_u32(s, pos)->Ok_0;
    let (ttag, p2) = spec_parse_u32(s, p1 + nlen)->Ok_0;
    let (ndims, p3) = spec_parse_u32(s, p2)->Ok_0;
    lemma_parse_dims_progress(s, p3, ndims as int);
}

/// Every entry's offset lies at or after the data region's start.
pub proof fn lemma_entry_offset_ge_start(entries: Seq<EntrySpec>, i: int, start: int, align: int)
    requires
        start >= 0,
        align >= 1,
    ensures
        spec_entry_offset(entries, i, start, align) >= start,
    decreases i,
{
    if i > 0 {
        lemma_entry_offset_ge_start(entries, i - 1, start, align);
        let end = spec_entry_offset(entries, i - 1, start, align) + entries[i - 1].byte_length;
        crate::section::lemma_pad_len_bounds(end, align);
    }
}

/// Entry offsets grow with the entry index: each entry's data begins no
/// earlier than the previous entry's end.
pub proof fn lemma_entry_offset_monotone(
    entries: Seq<EntrySpec>,
    i: int,
    j: int,
    start: int,
    align: int,
)
    requires
        start >= 0,
        align >= 1,
        0 <= i <= j,
    ensures
        spec_entry_offset(entries, i, start, align) <= spec_entry_offset(entries, j, start, align),
    decreases j - i,
{
    if i < j {
        lemma_entry_offset_monotone(entries, i, j - 1, start, align);
        lemma_entry_offset_ge_start(entries, j - 1, start, align);
        let end = spec_entry_offset(entries, j - 1, start, align) + entries[j - 1].byte_length;
        crate::section::lemma_pad_len_bounds(end, align);
    }
}

/// Every entry's data, padding included, lies before the computed end of the
/// document's data.
pub proof fn lemma_doc_end_bounds(entries: Seq<EntrySpec>, i: int, start: int, align: int)
    requires
        start >= 0,
        align >= 1,
        0 <= i < entries.len(),
    ensures
        spec_entry_offset(entries, i, start, align) + entries[i].byte_length <= spec_doc_end(
            entries,
            start,
            align,
        ),
        spec_entry_offset(entries, i, start, align) >= start,
    decreases entries.len() - i,
{
    lemma_entry_offset_ge_start(entries, i, start, align);
    if i == entries.len() - 1 {
    } else {
        lemma_doc_end_bounds(entries, i + 1, start, align);
        let end = spec_entry_offset(entries, i, start, align) + entries[i].byte_length;
        crate::section::lemma_pad_len_bounds(end, align);
        assert(spec_entry_offset(entries, i + 1, start, align) == end + crate::section::pad_len(
            end,
            align,
        ));
    }
}

} // verus!
