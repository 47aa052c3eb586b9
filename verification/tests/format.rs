use ggml_format::assemble::{read_document, write_document};
use ggml_format::codec::{
    has_data_left, read_bytes, read_bytes_with_len, read_i32, read_u32, read_u64, write_bytes,
    write_i32, write_u32, write_u64,
};
use ggml_format::error::FormatError;
use ggml_format::model::{Document, ElementType, Entry, MetadataValue};
use ggml_format::section::{check_power_of_two, padding_for, read_section, write_section};
use ggml_format::stream::{ByteReader, ByteWriter};
use ggml_format::tee::{rw, rw_bytes_with_len, rw_i32, rw_u32};

fn le32(x: u32) -> Vec<u8> {
    x.to_le_bytes().to_vec()
}

fn le64(x: u64) -> Vec<u8> {
    x.to_le_bytes().to_vec()
}

fn pad_to(buf: &mut Vec<u8>, align: usize) {
    while buf.len() % align != 0 {
        buf.push(0);
    }
}

#[test]
fn read_u32_little_endian() {
    let mut r = ByteReader::new(vec![0x78, 0x56, 0x34, 0x12]);
    assert_eq!(read_u32(&mut r).unwrap(), 0x1234_5678);
    assert_eq!(r.pos(), 4);
}

#[test]
fn read_i32_negative() {
    let mut r = ByteReader::new(vec![0xFF, 0xFF, 0xFF, 0xFF]);
    assert_eq!(read_i32(&mut r).unwrap(), -1);
}

#[test]
fn read_u64_little_endian() {
    let mut r = ByteReader::new(vec![1, 0, 0, 0, 0, 0, 0, 0]);
    assert_eq!(read_u64(&mut r).unwrap(), 1);
}

#[test]
fn read_u32_short_input_is_eof() {
    let mut r = ByteReader::new(vec![1, 2, 3]);
    assert_eq!(read_u32(&mut r), Err(FormatError::UnexpectedEof));
    assert_eq!(r.pos(), 0);
}

#[test]
fn read_bytes_fixed_run() {
    let mut r = ByteReader::new(vec![9, 8, 7, 6, 5]);
    let b = read_bytes::<3>(&mut r).unwrap();
    assert_eq!(b, vec![9, 8, 7]);
    assert_eq!(r.remaining(), 2);
}

#[test]
fn read_bytes_with_len_exact_or_eof() {
    let mut r = ByteReader::new(vec![1, 2, 3, 4]);
    assert_eq!(read_bytes_with_len(&mut r, 4).unwrap(), vec![1, 2, 3, 4]);
    let mut r2 = ByteReader::new(vec![1, 2]);
    assert_eq!(read_bytes_with_len(&mut r2, 3), Err(FormatError::UnexpectedEof));
}

#[test]
fn write_then_read_round_trip_primitives() {
    let mut w = ByteWriter::new();
    write_u32(&mut w, 0xDEAD_BEEF).unwrap();
    write_i32(&mut w, -42).unwrap();
    write_u64(&mut w, 1 << 40).unwrap();
    write_bytes(&mut w, &[7, 7]).unwrap();
    let mut r = ByteReader::new(w.into_bytes());
    assert_eq!(read_u32(&mut r).unwrap(), 0xDEAD_BEEF);
    assert_eq!(read_i32(&mut r).unwrap(), -42);
    assert_eq!(read_u64(&mut r).unwrap(), 1 << 40);
    assert_eq!(read_bytes_with_len(&mut r, 2).unwrap(), vec![7, 7]);
    assert!(!has_data_left(&r));
}

#[test]
fn write_over_capacity_is_rejected_whole() {
    let mut w = ByteWriter::with_capacity(3);
    assert_eq!(write_u32(&mut w, 5), Err(FormatError::WriteFailure));
    assert_eq!(w.len(), 0);
    write_bytes(&mut w, &[1, 2, 3]).unwrap();
    assert_eq!(w.len(), 3);
}

#[test]
fn has_data_left_tracks_position() {
    let mut r = ByteReader::new(vec![1]);
    assert!(has_data_left(&r));
    read_bytes_with_len(&mut r, 1).unwrap();
    assert!(!has_data_left(&r));
}

#[test]
fn tee_mirrors_zero_bytes() {
    let mut r = ByteReader::new(vec![]);
    let mut w = ByteWriter::new();
    let got = rw_bytes_with_len(&mut r, &mut w, 0).unwrap();
    assert_eq!(got, Vec::<u8>::new());
    assert_eq!(w.into_bytes(), Vec::<u8>::new());
}

#[test]
fn tee_mirrors_one_byte() {
    let mut r = ByteReader::new(vec![0xAB]);
    let mut w = ByteWriter::new();
    let got = rw_bytes_with_len(&mut r, &mut w, 1).unwrap();
    assert_eq!(got, vec![0xAB]);
    assert_eq!(w.into_bytes(), vec![0xAB]);
}

#[test]
fn tee_mirrors_four_bytes() {
    let mut r = ByteReader::new(vec![1, 2, 3, 4]);
    let mut w = ByteWriter::new();
    let got = rw_bytes_with_len(&mut r, &mut w, 4).unwrap();
    assert_eq!(got, vec![1, 2, 3, 4]);
    assert_eq!(w.into_bytes(), vec![1, 2, 3, 4]);
}

#[test]
fn tee_mirrors_4096_bytes() {
    let data: Vec<u8> = (0..4096u32).map(|i| (i % 251) as u8).collect();
    let mut r = ByteReader::new(data.clone());
    let mut w = ByteWriter::new();
    let got = rw_bytes_with_len(&mut r, &mut w, 4096).unwrap();
    assert_eq!(got, data);
    assert_eq!(w.into_bytes(), data);
}

#[test]
fn tee_fixed_run_mirrors_and_returns() {
    let mut r = ByteReader::new(vec![10, 20, 30, 40, 50]);
    let mut w = ByteWriter::new();
    let got = rw::<5>(&mut r, &mut w).unwrap();
    assert_eq!(got, vec![10, 20, 30, 40, 50]);
    assert_eq!(w.into_bytes(), vec![10, 20, 30, 40, 50]);
    let mut r2 = ByteReader::new(vec![1]);
    let mut w2 = ByteWriter::new();
    assert_eq!(rw::<2>(&mut r2, &mut w2), Err(FormatError::UnexpectedEof));
    assert_eq!(r2.pos(), 0);
    assert_eq!(w2.len(), 0);
}

#[test]
fn tee_u32_and_i32_decode_and_mirror() {
    let bytes = vec![0x78, 0x56, 0x34, 0x12, 0xFE, 0xFF, 0xFF, 0xFF];
    let mut r = ByteReader::new(bytes.clone());
    let mut w = ByteWriter::new();
    assert_eq!(rw_u32(&mut r, &mut w).unwrap(), 0x1234_5678);
    assert_eq!(rw_i32(&mut r, &mut w).unwrap(), -2);
    assert_eq!(w.into_bytes(), bytes);
}

#[test]
fn tee_write_failure_keeps_consumed_bytes() {
    let mut r = ByteReader::new(vec![1, 2, 3, 4]);
    let mut w = ByteWriter::with_capacity(2);
    assert_eq!(rw_u32(&mut r, &mut w), Err(FormatError::WriteFailure));
    assert_eq!(r.pos(), 4);
    assert_eq!(w.len(), 0);
}

#[test]
fn padding_formula_matches_modulus() {
    for &a in &[1u32, 2, 4, 8, 32, 64] {
        for pos in 0..130usize {
            let pad = padding_for(pos, a);
            assert_eq!(pad, (a as usize - pos % a as usize) % a as usize);
            assert!(pad < a as usize);
            assert_eq!((pos + pad) % a as usize, 0);
        }
    }
}

#[test]
fn power_of_two_check() {
    assert!(check_power_of_two(1));
    assert!(check_power_of_two(32));
    assert!(!check_power_of_two(0));
    assert!(!check_power_of_two(3));
    assert!(!check_power_of_two(48));
}

#[test]
fn section_round_trip_with_padding() {
    let mut w = ByteWriter::new();
    let pad = write_section(&mut w, 8, 0x1234, &[1, 2, 3]).unwrap();
    assert_eq!(pad, (8 - (8 + 3) % 8) % 8);
    let bytes = w.into_bytes();
    assert_eq!(bytes.len() % 8, 0);
    let bound = bytes.len();
    let mut r = ByteReader::new(bytes);
    let (tag, payload) = read_section(&mut r, 8, bound).unwrap();
    assert_eq!(tag, 0x1234);
    assert_eq!(payload, vec![1, 2, 3]);
    assert_eq!(r.remaining(), 0);
}

#[test]
fn section_empty_payload_still_pads() {
    let mut w = ByteWriter::new();
    let pad = write_section(&mut w, 16, 7, &[]).unwrap();
    assert_eq!(pad, 8);
    assert_eq!(w.len(), 16);
}

#[test]
fn section_length_past_bound_is_malformed() {
    let mut bytes = le32(1);
    bytes.extend(le32(100));
    bytes.extend(vec![0u8; 100]);
    let mut r = ByteReader::new(bytes);
    assert_eq!(read_section(&mut r, 4, 50), Err(FormatError::MalformedSection));
}

#[test]
fn empty_document_bytes_parse_to_empty_document() {
    // Header b"GGMF" + version 1 + alignment 32 + zero metadata + zero
    // entries, padded up to the alignment.
    let mut bytes = b"GGMF".to_vec();
    bytes.extend(le32(1));
    bytes.extend(le32(32));
    bytes.extend(le32(0));
    bytes.extend(le32(0));
    pad_to(&mut bytes, 32);
    let mut r = ByteReader::new(bytes);
    let d = read_document(&mut r).unwrap();
    assert_eq!(d.entries.len(), 0);
    assert_eq!(d.metadata.len(), 0);
    assert_eq!(d.format_version, 1);
    assert_eq!(d.alignment, 32);
}

fn one_entry_doc() -> Document {
    Document {
        format_version: 1,
        alignment: 32,
        metadata: Vec::new(),
        entries: vec![Entry {
            name: b"w".to_vec(),
            element_type: ElementType::Float32,
            shape: vec![2, 3],
            data_offset: 0,
            byte_length: 24,
        }],
    }
}

#[test]
fn float32_two_by_three_entry_layout() {
    let doc = one_entry_doc();
    let payloads = vec![vec![0u8; 24]];
    let mut w = ByteWriter::new();
    write_document(&mut w, &doc, &payloads).unwrap();
    let mut r = ByteReader::new(w.into_bytes());
    let d = read_document(&mut r).unwrap();
    let e = d.get_entry(b"w").unwrap();
    assert_eq!(e.byte_length, 24);
    assert_eq!(e.data_offset % 32, 0);
    assert_eq!(e.shape, vec![2, 3]);
    assert_eq!(e.element_type, ElementType::Float32);
}

#[test]
fn declared_length_exceeding_stream_is_truncated_file() {
    // The entry table declares 100 bytes (shape [25], float32) but only 50
    // remain in the data region.
    let doc = Document {
        format_version: 1,
        alignment: 32,
        metadata: Vec::new(),
        entries: vec![Entry {
            name: b"big".to_vec(),
            element_type: ElementType::Float32,
            shape: vec![25],
            data_offset: 0,
            byte_length: 100,
        }],
    };
    let mut w = ByteWriter::new();
    write_document(&mut w, &doc, &vec![vec![0u8; 100]]).unwrap();
    let mut bytes = w.into_bytes();
    bytes.truncate(bytes.len() - 50);
    let mut r = ByteReader::new(bytes);
    assert_eq!(read_document(&mut r), Err(FormatError::TruncatedFile));
    assert_eq!(r.pos(), 0);
}

#[test]
fn truncating_by_one_byte_fails_closed() {
    let doc = one_entry_doc();
    let mut w = ByteWriter::new();
    write_document(&mut w, &doc, &vec![vec![9u8; 24]]).unwrap();
    let mut bytes = w.into_bytes();
    bytes.truncate(bytes.len() - 1);
    let mut r = ByteReader::new(bytes);
    assert_eq!(read_document(&mut r), Err(FormatError::TruncatedFile));

    // An empty document loses a padding or table byte instead.
    let mut w2 = ByteWriter::new();
    write_document(&mut w2, &Document::new(), &Vec::new()).unwrap();
    let mut bytes2 = w2.into_bytes();
    bytes2.truncate(bytes2.len() - 1);
    let mut r2 = ByteReader::new(bytes2);
    assert_eq!(read_document(&mut r2), Err(FormatError::UnexpectedEof));
}

#[test]
fn document_round_trip_with_metadata() {
    let doc = Document {
        format_version: 1,
        alignment: 32,
        metadata: vec![
            (b"flag".to_vec(), MetadataValue::Bool(true)),
            (b"count".to_vec(), MetadataValue::UInt32(7)),
            (b"delta".to_vec(), MetadataValue::Int32(-3)),
            (b"big".to_vec(), MetadataValue::UInt64(1 << 50)),
            (b"low".to_vec(), MetadataValue::Int64(-9)),
            (b"rate".to_vec(), MetadataValue::Float32Bits(0x3F80_0000)),
            (b"scale".to_vec(), MetadataValue::Float64Bits(0x3FF0_0000_0000_0000)),
            (b"name".to_vec(), MetadataValue::Str(b"net".to_vec())),
            (
                b"dims".to_vec(),
                MetadataValue::Array(vec![
                    MetadataValue::UInt32(2),
                    MetadataValue::UInt32(3),
                    MetadataValue::Array(vec![MetadataValue::Bool(false)]),
                ]),
            ),
        ],
        entries: vec![
            Entry {
                name: b"w".to_vec(),
                element_type: ElementType::Float32,
                shape: vec![2, 3],
                data_offset: 0,
                byte_length: 24,
            },
            Entry {
                name: b"b".to_vec(),
                element_type: ElementType::Int8,
                shape: vec![5],
                data_offset: 0,
                byte_length: 5,
            },
        ],
    };
    let payloads = vec![vec![1u8; 24], vec![2u8; 5]];
    let mut w = ByteWriter::new();
    write_document(&mut w, &doc, &payloads).unwrap();
    let bytes = w.into_bytes();
    let mut r = ByteReader::new(bytes.clone());
    let d = read_document(&mut r).unwrap();
    assert_eq!(d.format_version, doc.format_version);
    assert_eq!(d.alignment, doc.alignment);
    assert_eq!(d.metadata, doc.metadata);
    assert_eq!(d.entries.len(), 2);
    for i in 0..2 {
        assert_eq!(d.entries[i].name, doc.entries[i].name);
        assert_eq!(d.entries[i].element_type, doc.entries[i].element_type);
        assert_eq!(d.entries[i].shape, doc.entries[i].shape);
        assert_eq!(d.entries[i].byte_length, doc.entries[i].byte_length);
        assert_eq!(d.entries[i].data_offset % 32, 0);
        assert!(d.entries[i].data_offset + d.entries[i].byte_length <= bytes.len() as u64);
    }
    assert!(d.entries[0].data_offset + d.entries[0].byte_length <= d.entries[1].data_offset);
    // The reader sits at the start of the data region; the first entry's
    // payload can now be read lazily.
    assert_eq!(r.pos() as u64, d.entries[0].data_offset);
}

#[test]
fn bad_magic_is_rejected() {
    let mut bytes = b"GGUF".to_vec();
    bytes.extend(le32(1));
    bytes.extend(le32(32));
    bytes.extend(le32(0));
    bytes.extend(le32(0));
    pad_to(&mut bytes, 32);
    let mut r = ByteReader::new(bytes);
    assert_eq!(read_document(&mut r), Err(FormatError::BadMagic));
    assert_eq!(r.pos(), 0);
}

#[test]
fn unsupported_version_is_rejected() {
    let mut bytes = b"GGMF".to_vec();
    bytes.extend(le32(2));
    bytes.extend(le32(32));
    bytes.extend(le32(0));
    bytes.extend(le32(0));
    pad_to(&mut bytes, 32);
    let mut r = ByteReader::new(bytes);
    assert_eq!(read_document(&mut r), Err(FormatError::UnsupportedVersion));
}

#[test]
fn alignment_not_power_of_two_is_malformed() {
    let mut bytes = b"GGMF".to_vec();
    bytes.extend(le32(1));
    bytes.extend(le32(3));
    bytes.extend(le32(0));
    bytes.extend(le32(0));
    let mut r = ByteReader::new(bytes);
    assert_eq!(read_document(&mut r), Err(FormatError::MalformedSection));
}

#[test]
fn duplicate_metadata_keys_are_malformed() {
    let mut bytes = b"GGMF".to_vec();
    bytes.extend(le32(1));
    bytes.extend(le32(1));
    bytes.extend(le32(2));
    for _ in 0..2 {
        bytes.extend(le32(1));
        bytes.push(b'k');
        bytes.extend(le32(1)); // value tag: u32
        bytes.extend(le32(5));
    }
    bytes.extend(le32(0));
    let mut r = ByteReader::new(bytes);
    assert_eq!(read_document(&mut r), Err(FormatError::MalformedSection));
}

#[test]
fn bad_boolean_byte_is_malformed() {
    let mut bytes = b"GGMF".to_vec();
    bytes.extend(le32(1));
    bytes.extend(le32(1));
    bytes.extend(le32(1));
    bytes.extend(le32(1));
    bytes.push(b'k');
    bytes.extend(le32(0)); // value tag: boolean
    bytes.push(2); // neither 0 nor 1
    bytes.extend(le32(0));
    let mut r = ByteReader::new(bytes);
    assert_eq!(read_document(&mut r), Err(FormatError::MalformedSection));
}

#[test]
fn unknown_value_tag_is_malformed() {
    let mut bytes = b"GGMF".to_vec();
    bytes.extend(le32(1));
    bytes.extend(le32(1));
    bytes.extend(le32(1));
    bytes.extend(le32(1));
    bytes.push(b'k');
    bytes.extend(le32(99)); // no such value tag
    bytes.extend(le32(0));
    let mut r = ByteReader::new(bytes);
    assert_eq!(read_document(&mut r), Err(FormatError::MalformedSection));
}

#[test]
fn unknown_element_type_tag_is_malformed() {
    let mut bytes = b"GGMF".to_vec();
    bytes.extend(le32(1));
    bytes.extend(le32(1));
    bytes.extend(le32(0));
    bytes.extend(le32(1));
    bytes.extend(le32(1));
    bytes.push(b'w');
    bytes.extend(le32(9)); // no such element type
    bytes.extend(le32(0));
    bytes.extend(le64(0));
    let mut r = ByteReader::new(bytes);
    assert_eq!(read_document(&mut r), Err(FormatError::MalformedSection));
}

#[test]
fn zero_dimension_is_malformed() {
    let mut bytes = b"GGMF".to_vec();
    bytes.extend(le32(1));
    bytes.extend(le32(1));
    bytes.extend(le32(0));
    bytes.extend(le32(1)); // one entry
    bytes.extend(le32(1));
    bytes.push(b'w');
    bytes.extend(le32(0)); // float32
    bytes.extend(le32(1)); // one dimension
    bytes.extend(le32(0)); // of extent zero
    bytes.extend(le64(0));
    let mut r = ByteReader::new(bytes);
    assert_eq!(read_document(&mut r), Err(FormatError::MalformedSection));
}

#[test]
fn wrong_declared_byte_length_is_malformed() {
    let mut bytes = b"GGMF".to_vec();
    bytes.extend(le32(1));
    bytes.extend(le32(1));
    bytes.extend(le32(0));
    bytes.extend(le32(1));
    bytes.extend(le32(1));
    bytes.push(b'w');
    bytes.extend(le32(0)); // float32: 4 bytes per element
    bytes.extend(le32(1));
    bytes.extend(le32(2)); // two elements: 8 bytes
    bytes.extend(le64(9)); // declared 9
    let mut r = ByteReader::new(bytes);
    assert_eq!(read_document(&mut r), Err(FormatError::MalformedSection));
}

#[test]
fn payload_of_wrong_length_is_size_mismatch() {
    let doc = one_entry_doc();
    let mut w = ByteWriter::new();
    assert_eq!(
        write_document(&mut w, &doc, &vec![vec![0u8; 23]]),
        Err(FormatError::SizeMismatch)
    );
    assert_eq!(w.len(), 0);
}

#[test]
fn document_write_failure_leaves_sink_unchanged() {
    let doc = one_entry_doc();
    let mut w = ByteWriter::with_capacity(10);
    assert_eq!(
        write_document(&mut w, &doc, &vec![vec![0u8; 24]]),
        Err(FormatError::WriteFailure)
    );
    assert_eq!(w.len(), 0);
}

#[test]
fn get_entry_miss_is_not_found() {
    let doc = one_entry_doc();
    assert!(doc.get_entry(b"w").is_ok());
    assert_eq!(doc.get_entry(b"v").map(|_| ()), Err(FormatError::NotFound));
    assert_eq!(doc.entry_count(), 1);
}

#[test]
fn error_descriptions_name_each_failure() {
    assert_eq!(FormatError::UnexpectedEof.describe(), "unexpected end of stream");
    assert_eq!(FormatError::TruncatedFile.describe(), "truncated file");
    assert_eq!(FormatError::NotFound.describe(), "entry not found");
}
