use vstd::prelude::*;
use crate::error::FormatError;
use crate::section::is_power_of_two;

verus! {

/// The one format version this core reads and writes.
pub const SUPPORTED_VERSION: u32 = 1;

/// The default alignment of data regions, in bytes.
pub const DEFAULT_ALIGNMENT: u32 = 32;

/// The four magic bytes that open every document: `b"GGMF"`.
pub open spec fn spec_magic() -> Seq<u8> {
    seq![0x47u8, 0x47u8, 0x4du8, 0x46u8]
}

/// The magic bytes as a vector, for writing and comparing.
pub fn magic_bytes() -> (r: Vec<u8>)
    ensures
        r@ == spec_magic(),
{
    let mut v: Vec<u8> = Vec::new();
    v.push(0x47u8);
    v.push(0x47u8);
    v.push(0x4du8);
    v.push(0x46u8);
    proof {
        assert(v@ =~= spec_magic());
    }
    v
}

/// The element type of an entry's data, a tag with a fixed element width.
#[derive(Clone, Copy, Debug, PartialEq, Eq, Structural)]
pub enum ElementType {
    /// 32-bit floating point elements, four bytes each.
    Float32,
    /// 16-bit floating point elements, two bytes each.
    Float16,
    /// Signed 8-bit elements, one byte each.
    Int8,
    /// Signed 32-bit elements, four bytes each.
    Int32,
}

impl ElementType {
    /// The width of one element in bytes.
    pub open spec fn spec_size(self) -> int {
        match self {
            ElementType::Float32 => 4,
            ElementType::Float16 => 2,
            ElementType::Int8 => 1,
            ElementType::Int32 => 4,
        }
    }

    /// The tag under which the type is stored on disk.
    pub open spec fn spec_tag(self) -> u32 {
        match self {
            ElementType::Float32 => 0,
            ElementType::Float16 => 1,
            ElementType::Int8 => 2,
            ElementType::Int32 => 3,
        }
    }

    /// The width of one element in bytes.
    pub fn size(self) -> (r: u32)
        ensures
            r == self.spec_size(),
    {
        match self {
            ElementType::Float32 => 4,
            ElementType::Float16 => 2,
            ElementType::Int8 => 1,
            ElementType::Int32 => 4,
        }
    }

    /// The tag under which the type is stored on disk.
    pub fn tag(self) -> (r: u32)
        ensures
            r == self.spec_tag(),
    {
        match self {
            ElementType::Float32 => 0,
            ElementType::Float16 => 1,
            ElementType::Int8 => 2,
            ElementType::Int32 => 3,
        }
    }

    /// The element type stored under `tag`, if the tag is known.
    pub open spec fn spec_from_tag(tag: u32) -> Option<ElementType> {
        if tag == 0 {
            Some(ElementType::Float32)
        } else if tag == 1 {
            Some(ElementType::Float16)
        } else if tag == 2 {
            Some(ElementType::Int8)
        } else if tag == 3 {
            Some(ElementType::Int32)
        } else {
            None
        }
    }

    /// The element type stored under `tag`, if the tag is known.
    pub fn from_tag(tag: u32) -> (r: Option<ElementType>)
        ensures
            r == ElementType::spec_from_tag(tag),
            r matches Some(t) ==> t.spec_tag() == tag,
    {
        if tag == 0 {
            Some(ElementType::Float32)
        } else if tag == 1 {
            Some(ElementType::Float16)
        } else if tag == 2 {
            Some(ElementType::Int8)
        } else if tag == 3 {
            Some(ElementType::Int32)
        } else {
            None
        }
    }
}

/// A free-form metadata value: a tagged union over booleans, integers of
/// several widths, raw 32- and 64-bit floating-point bit patterns, byte
/// strings, and arrays of metadata values. Floating-point values are carried
/// as their IEEE 754 bit patterns, which is what the format stores.
#[derive(Debug, PartialEq, Eq)]
pub enum MetadataValue {
    Bool(bool),
    UInt32(u32),
    Int32(i32),
    UInt64(u64),
    Int64(i64),
    Float32Bits(u32),
    Float64Bits(u64),
    Str(Vec<u8>),
    Array(Vec<MetadataValue>),
}

/// The mathematical shape of a metadata value.
pub enum ValueSpec {
    Bool(bool),
    UInt32(u32),
    Int32(i32),
    UInt64(u64),
    Int64(i64),
    Float32Bits(u32),
    Float64Bits(u64),
    Str(Seq<u8>),
    Array(Seq<ValueSpec>),
}

/// The mathematical value a `MetadataValue` holds.
pub open spec fn value_view(v: MetadataValue) -> ValueSpec
    decreases v,
{
    match v {
        MetadataValue::Bool(b) => ValueSpec::Bool(b),
        MetadataValue::UInt32(x) => ValueSpec::UInt32(x),
        MetadataValue::Int32(x) => ValueSpec::Int32(x),
        MetadataValue::UInt64(x) => ValueSpec::UInt64(x),
        MetadataValue::Int64(x) => ValueSpec::Int64(x),
        MetadataValue::Float32Bits(x) => ValueSpec::Float32Bits(x),
        MetadataValue::Float64Bits(x) => ValueSpec::Float64Bits(x),
        MetadataValue::Str(s) => ValueSpec::Str(s@),
        MetadataValue::Array(items) => ValueSpec::Array(
            Seq::new(
                items@.len(),
                |i: int|
                    if 0 <= i < items@.len() {
                        value_view(items@[i])
                    } else {
                        ValueSpec::Bool(false)
                    },
            ),
        ),
    }
}

/// The mathematical view of a run of metadata values, in order.
pub open spec fn values_view(s: Seq<MetadataValue>) -> Seq<ValueSpec> {
    Seq::new(
        s.len(),
        |i: int|
            if 0 <= i < s.len() {
                value_view(s[i])
            } else {
                ValueSpec::Bool(false)
            },
    )
}

impl View for MetadataValue {
    type V = ValueSpec;

    open spec fn view(&self) -> ValueSpec {
        value_view(*self)
    }
}

/// A metadata value is well formed when every byte string and every array in
/// it is short enough for its length to be declared in a 32-bit field.
pub open spec fn wf_value(v: ValueSpec) -> bool
    decreases v,
{
    match v {
        ValueSpec::Str(s) => s.len() <= u32::MAX,
        ValueSpec::Array(items) => items.len() <= u32::MAX && (forall|i: int|
            0 <= i < items.len() ==> wf_value(#[trigger] items[i])),
        _ => true,
    }
}

/// One named data item: its element type, its shape, and where its bytes lie
/// in the document's data region.
#[derive(Debug, Clone, PartialEq, Eq)]
pub struct Entry {
    /// The entry's name, unique within a document.
    pub name: Vec<u8>,
    /// The type of the entry's elements.
    pub element_type: ElementType,
    /// The extent of each dimension; every dimension is positive.
    pub shape: Vec<u32>,
    /// The byte offset of the entry's data from the start of the document.
    pub data_offset: u64,
    /// The length of the entry's data in bytes: the product of the shape
    /// times the element width.
    pub byte_length: u64,
}

/// The mathematical shape of an entry.
pub struct EntrySpec {
    pub name: Seq<u8>,
    pub element_type: ElementType,
    pub shape: Seq<u32>,
    pub data_offset: u64,
    pub byte_length: u64,
}

impl View for Entry {
    type V = EntrySpec;

    open spec fn view(&self) -> EntrySpec {
        EntrySpec {
            name: self.name@,
            element_type: self.element_type,
            shape: self.shape@,
            data_offset: self.data_offset,
            byte_length: self.byte_length,
        }
    }
}

/// The number of elements a shape describes: the product of its dimensions.
pub open spec fn shape_size(shape: Seq<u32>) -> nat
    decreases shape.len(),
{
    if shape.len() == 0 {
        1
    } else {
        (shape[0] * shape_size(shape.drop_first())) as nat
    }
}

/// A shape of positive dimensions describes at least one element.
pub proof fn lemma_shape_size_positive(shape: Seq<u32>)
    requires
        forall|i: int| 0 <= i < shape.len() ==> #[trigger] shape[i] >= 1,
    ensures
        shape_size(shape) >= 1,
    decreases shape.len(),
{
    if shape.len() > 0 {
        assert(shape[0] >= 1);
        lemma_shape_size_positive(shape.drop_first());
        vstd::arithmetic::mul::lemma_mul_ordering(shape[0] as int, shape_size(
            shape.drop_first(),
        ) as int);
    }
}

/// An entry is well formed when its name and shape fit 32-bit length fields,
/// every dimension is positive, and its declared byte length is exactly the
/// element count times the element width.
pub open spec fn wf_entry(e: EntrySpec) -> bool {
    &&& e.name.len() <= u32::MAX
    &&& e.shape.len() <= u32::MAX
    &&& forall|i: int| 0 <= i < e.shape.len() ==> #[trigger] e.shape[i] >= 1
    &&& e.byte_length == shape_size(e.shape) * e.element_type.spec_size()
}

/// No two entries share a name.
pub open spec fn unique_names(entries: Seq<EntrySpec>) -> bool {
    forall|i: int, j: int|
        0 <= i < j < entries.len() ==> (#[trigger] entries[i].name) != (#[trigger] entries[j].name)
}

/// No two metadata pairs share a key.
pub open spec fn unique_keys(pairs: Seq<(Seq<u8>, ValueSpec)>) -> bool {
    forall|i: int, j: int|
        0 <= i < j < pairs.len() ==> (#[trigger] pairs[i].0) != (#[trigger] pairs[j].0)
}

/// A complete in-memory document: format version, alignment, free-form
/// metadata in declaration order, and entries in file order. A document is
/// constructed fresh for writing or materialised whole by one read; the
/// reader never returns a partial document.
#[derive(Debug, PartialEq, Eq)]
pub struct Document {
    /// The format version the document carries.
    pub format_version: u32,
    /// The power-of-two byte boundary data offsets are rounded up to.
    pub alignment: u32,
    /// Key-value metadata, keys unique, in declaration order.
    pub metadata: Vec<(Vec<u8>, MetadataValue)>,
    /// The named entries, in file order.
    pub entries: Vec<Entry>,
}

/// The mathematical shape of a document.
pub struct DocSpec {
    pub version: u32,
    pub alignment: u32,
    pub metadata: Seq<(Seq<u8>, ValueSpec)>,
    pub entries: Seq<EntrySpec>,
}

/// The mathematical view of a metadata vector: each key as a byte sequence,
/// each value as its mathematical shape, in order.
pub open spec fn pairs_view(m: Seq<(Vec<u8>, MetadataValue)>) -> Seq<(Seq<u8>, ValueSpec)> {
    Seq::new(
        m.len(),
        |i: int|
            if 0 <= i < m.len() {
                (m[i].0@, value_view(m[i].1))
            } else {
                (Seq::empty(), ValueSpec::Bool(false))
            },
    )
}

/// The mathematical view of a vector of byte runs, in order.
pub open spec fn bytes_views(s: Seq<Vec<u8>>) -> Seq<Seq<u8>> {
    Seq::new(
        s.len(),
        |i: int|
            if 0 <= i < s.len() {
                s[i]@
            } else {
                Seq::empty()
            },
    )
}

/// The mathematical view of an entry vector, in order.
pub open spec fn entries_view(e: Seq<Entry>) -> Seq<EntrySpec> {
    Seq::new(
        e.len(),
        |i: int|
            if 0 <= i < e.len() {
                e[i]@
            } else {
                EntrySpec {
                    name: Seq::empty(),
                    element_type: ElementType::Int8,
                    shape: Seq::empty(),
                    data_offset: 0,
                    byte_length: 0,
                }
            },
    )
}

impl View for Document {
    type V = DocSpec;

    open spec fn view(&self) -> DocSpec {
        DocSpec {
            version: self.format_version,
            alignment: self.alignment,
            metadata: pairs_view(self.metadata@),
            entries: entries_view(self.entries@),
        }
    }
}

/// A document is well formed when its version is the supported one, its
/// alignment is a positive power of two, its counts and lengths fit the
/// 32-bit fields that declare them, its metadata keys and entry names are
/// unique, and every value and entry is well formed. Entry data offsets are
/// not constrained here: the writer recomputes them from the running layout.
pub open spec fn wf_document(d: DocSpec) -> bool {
    &&& d.version == SUPPORTED_VERSION
    &&& is_power_of_two(d.alignment as int)
    &&& d.metadata.len() <= u32::MAX
    &&& unique_keys(d.metadata)
    &&& forall|i: int|
        0 <= i < d.metadata.len() ==> (#[trigger] d.metadata[i]).0.len() <= u32::MAX && wf_value(
            d.metadata[i].1,
        )
    &&& d.entries.len() <= u32::MAX
    &&& unique_names(d.entries)
    &&& forall|i: int| 0 <= i < d.entries.len() ==> wf_entry(#[trigger] d.entries[i])
}

/// Whether two byte runs hold the same bytes.
pub fn bytes_eq(a: &[u8], b: &[u8]) -> (r: bool)
    ensures
        r <==> a@ == b@,
{
    if a.len() != b.len() {
        proof {
            assert(a@.len() != b@.len());
        }
        return false;
    }
    let mut i: usize = 0;
    while i < a.len()
        invariant
            0 <= i <= a@.len(),
            a@.len() == b@.len(),
            forall|j: int| 0 <= j < i ==> a@[j] == b@[j],
        decreases a@.len() - i,
    {
        if a[i] != b[i] {
            return false;
        }
        i = i + 1;
    }
    proof {
        assert(a@ =~= b@);
    }
    true
}

impl Document {
    /// A fresh, empty document at the supported version and the default
    /// alignment, ready to be filled for writing.
    pub fn new() -> (r: Document)
        ensures
            r@.version == SUPPORTED_VERSION,
            r@.alignment == DEFAULT_ALIGNMENT,
            r@.metadata == Seq::<(Seq<u8>, ValueSpec)>::empty(),
            r@.entries == Seq::<EntrySpec>::empty(),
            wf_document(r@),
    {
        let d = Document {
            format_version: SUPPORTED_VERSION,
            alignment: DEFAULT_ALIGNMENT,
            metadata: Vec::new(),
            entries: Vec::new(),
        };
        proof {
            assert(d@.metadata =~= Seq::<(Seq<u8>, ValueSpec)>::empty());
            assert(d@.entries =~= Seq::<EntrySpec>::empty());
            reveal_with_fuel(is_power_of_two, 7);
            assert(is_power_of_two(DEFAULT_ALIGNMENT as int));
        }
        d
    }

    /// Looks an entry up by name, failing with `NotFound` if no entry bears
    /// it. Returns the first entry of that name in file order.
    pub fn get_entry(&self, name: &[u8]) -> (r: Result<&Entry, FormatError>)
        ensures
            match r {
                Ok(e) => exists|i: int|
                    {
                        &&& 0 <= i < self@.entries.len()
                        &&& (#[trigger] self@.entries[i]).name == name@
                        &&& e@ == self@.entries[i]
                        &&& forall|j: int| 0 <= j < i ==> (#[trigger] self@.entries[j]).name != name@
                    },
                Err(e) => {
                    &&& e == FormatError::NotFound
                    &&& forall|i: int|
                        0 <= i < self@.entries.len() ==> (#[trigger] self@.entries[i]).name != name@
                },
            },
    {
        let mut i: usize = 0;
        while i < self.entries.len()
            invariant
                0 <= i <= self.entries@.len(),
                self@.entries.len() == self.entries@.len(),
                forall|j: int| 0 <= j < i ==> (#[trigger] self@.entries[j]).name != name@,
            decreases self.entries@.len() - i,
        {
            if bytes_eq(self.entries[i].name.as_slice(), name) {
                proof {
                    assert(self@.entries[i as int].name == name@);
                }
                return Ok(&self.entries[i]);
            }
            i = i + 1;
        }
        Err(FormatError::NotFound)
    }

    /// The number of entries, in file order.
    pub fn entry_count(&self) -> (r: usize)
        ensures
            r == self@.entries.len(),
    {
        self.entries.len()
    }
}

} // verus!
