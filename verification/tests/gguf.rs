use aegis::gguf::bytes::GgufError;
use aegis::gguf::parser::{GgufParser, GgufType, MetadataValue};
use aegis::gguf_parser;

fn put_u32(b: &mut Vec<u8>, x: u32) {
    b.extend_from_slice(&x.to_le_bytes());
}

fn put_u64(b: &mut Vec<u8>, x: u64) {
    b.extend_from_slice(&x.to_le_bytes());
}

fn put_str(b: &mut Vec<u8>, s: &[u8]) {
    put_u64(b, s.len() as u64);
    b.extend_from_slice(s);
}

fn header(b: &mut Vec<u8>, n_tensors: u64, n_kv: u64) {
    b.extend_from_slice(b"GGUF");
    put_u32(b, 3);
    put_u64(b, n_tensors);
    put_u64(b, n_kv);
}

/// A tensor descriptor of the engine's reader: name, dims count, dims, type, offset.
fn tensor(b: &mut Vec<u8>, name: &str, dims: &[u64], ty: u32, off: u64) {
    put_str(b, name.as_bytes());
    put_u32(b, dims.len() as u32);
    for &d in dims {
        put_u64(b, d);
    }
    put_u32(b, ty);
    put_u64(b, off);
}

fn sample_file() -> Vec<u8> {
    let mut b = Vec::new();
    header(&mut b, 1, 6);
    put_str(&mut b, b"llama.block_count");
    put_u32(&mut b, 4);
    put_u32(&mut b, 22);
    put_str(&mut b, b"general.name");
    put_u32(&mut b, 8);
    put_str(&mut b, b"tiny");
    put_str(&mut b, b"tokenizer.ggml.tokens");
    put_u32(&mut b, 9);
    put_u32(&mut b, 8);
    put_u64(&mut b, 2);
    put_str(&mut b, b"a");
    put_str(&mut b, b"bc");
    put_str(&mut b, b"scale");
    put_u32(&mut b, 6);
    put_u32(&mut b, 1.5f32.to_bits());
    put_str(&mut b, b"flag");
    put_u32(&mut b, 7);
    b.push(1);
    put_str(&mut b, b"small");
    put_u32(&mut b, 0);
    b.push(200);
    tensor(&mut b, "w", &[4, 2], 0, 0);
    b
}

#[test]
fn engine_reader_parses_header_metadata_and_tensors() {
    let mut b = sample_file();
    let end = b.len() as u64;
    let start = (end + 31) / 32 * 32;
    while (b.len() as u64) < start {
        b.push(0);
    }
    let data: Vec<u8> = (1..=32).collect();
    b.extend_from_slice(&data);
    let p = GgufParser::open(&b).expect("parses");
    let h = &p.header;
    assert_eq!(h.version, 3);
    assert_eq!(h.tensor_count, 1);
    assert_eq!(h.data_start, start);
    assert!(matches!(h.metadata.get("llama.block_count"), Some(MetadataValue::UInt32(22))));
    match h.metadata.get("general.name") {
        Some(MetadataValue::String(s)) => assert_eq!(s, "tiny"),
        _ => panic!("name"),
    }
    match h.metadata.get("tokenizer.ggml.tokens") {
        Some(MetadataValue::Array(v)) => {
            assert_eq!(v.len(), 2);
            assert!(matches!(&v[1], MetadataValue::String(s) if s == "bc"));
        }
        _ => panic!("tokens"),
    }
    assert!(matches!(h.metadata.get("scale"), Some(MetadataValue::Float32(x)) if *x == 1.5f32.to_bits()));
    assert!(matches!(h.metadata.get("flag"), Some(MetadataValue::Bool(true))));
    assert!(matches!(h.metadata.get("small"), Some(MetadataValue::Other)));
    assert_eq!(h.tensors.len(), 1);
    assert_eq!(h.tensors[0].name, "w");
    assert_eq!(h.tensors[0].n_dims, 2);
    assert_eq!(h.tensors[0].dimensions, vec![4, 2]);
    assert_eq!(h.tensors[0].ggml_type, 0);
    // F32: four bytes per element.
    assert_eq!(p.tensor_byte_size(0), 32);
    let mut dest = vec![0u8; 34];
    assert_eq!(p.read_tensor_into(&b, 0, &mut dest), Ok(32));
    assert_eq!(&dest[..32], &data[..]);
    assert_eq!(&dest[32..], &[0, 0]);
}

#[test]
fn engine_reader_errors() {
    assert_eq!(GgufParser::open(&[]).err(), Some(GgufError::UnexpectedEof));
    let mut bad = b"GGUX".to_vec();
    bad.extend_from_slice(&[0u8; 20]);
    assert_eq!(GgufParser::open(&bad).err(), Some(GgufError::BadMagic(u32::from_le_bytes(*b"GGUX"))));
    let mut b = Vec::new();
    header(&mut b, 0, 1);
    put_str(&mut b, b"k");
    put_u32(&mut b, 13);
    assert_eq!(GgufParser::open(&b).err(), Some(GgufError::UnknownValueType(13)));
    let mut t = Vec::new();
    header(&mut t, 0, 1);
    put_u64(&mut t, 100);
    t.extend_from_slice(b"short");
    assert_eq!(GgufParser::open(&t).err(), Some(GgufError::UnexpectedEof));
}

#[test]
fn engine_reader_decodes_strings_leniently_and_honours_alignment() {
    let mut b = Vec::new();
    header(&mut b, 0, 2);
    put_str(&mut b, b"general.alignment");
    put_u32(&mut b, 4);
    put_u32(&mut b, 64);
    put_str(&mut b, b"odd");
    put_u32(&mut b, 8);
    put_str(&mut b, &[b'x', 0xff]);
    let end = b.len() as u64;
    let p = GgufParser::open(&b).expect("parses");
    assert_eq!(p.header.data_start, (end + 63) / 64 * 64);
    match p.header.metadata.get("odd") {
        Some(MetadataValue::String(s)) => assert_eq!(s, "x\u{FFFD}"),
        _ => panic!("odd"),
    }
}

#[test]
fn engine_reader_tensor_sizes_per_type() {
    let mut b = Vec::new();
    header(&mut b, 5, 0);
    tensor(&mut b, "f16", &[10], 1, 0);
    tensor(&mut b, "q4", &[64], 2, 0);
    tensor(&mut b, "q8", &[32, 3], 8, 0);
    tensor(&mut b, "q4k", &[512], 14, 0);
    tensor(&mut b, "bf16", &[7], 30, 0);
    let p = GgufParser::open(&b).expect("parses");
    assert_eq!(p.tensor_byte_size(0), 20);
    assert_eq!(p.tensor_byte_size(1), 36);
    assert_eq!(p.tensor_byte_size(2), 102);
    assert_eq!(p.tensor_byte_size(3), 288);
    assert_eq!(p.tensor_byte_size(4), 14);
}

#[test]
fn engine_reader_read_errors() {
    let mut b = Vec::new();
    header(&mut b, 1, 0);
    tensor(&mut b, "w", &[16], 0, 0);
    let p = GgufParser::open(&b).expect("parses");
    let mut small = vec![0u8; 4];
    assert_eq!(
        p.read_tensor_into(&b, 0, &mut small),
        Err(GgufError::BufferTooSmall { need: 64, have: 4 })
    );
    let mut dest = vec![0u8; 64];
    assert_eq!(p.read_tensor_into(&b, 0, &mut dest), Err(GgufError::UnexpectedEof));
}

#[test]
fn gguf_type_codes() {
    assert_eq!(GgufType::Uint8.code(), 0);
    assert_eq!(GgufType::String.code(), 8);
    assert_eq!(GgufType::Array.code(), 9);
    assert_eq!(GgufType::Float64.code(), 12);
}

// --- The strict reader ---------------------------------------------------

fn strict_tensor(b: &mut Vec<u8>, name: &str, dims: &[u64], ty: u32, off: u64) {
    tensor(b, name, dims, ty, off);
}

#[test]
fn strict_reader_parses_every_type() {
    let mut b = Vec::new();
    header(&mut b, 1, 5);
    put_str(&mut b, b"u64");
    put_u32(&mut b, 10);
    put_u64(&mut b, 1 << 40);
    put_str(&mut b, b"i16");
    put_u32(&mut b, 3);
    b.extend_from_slice(&(-2i16).to_le_bytes());
    put_str(&mut b, b"f64");
    put_u32(&mut b, 12);
    put_u64(&mut b, 2.5f64.to_bits());
    put_str(&mut b, b"arr");
    put_u32(&mut b, 9);
    put_u32(&mut b, 5);
    put_u64(&mut b, 2);
    put_u32(&mut b, (-7i32) as u32);
    put_u32(&mut b, 9);
    put_str(&mut b, b"general.alignment");
    put_u32(&mut b, 4);
    put_u32(&mut b, 16);
    strict_tensor(&mut b, "q", &[64], 8, 4);
    let end = b.len() as u64;
    let p = gguf_parser::GgufParser::open(&b).expect("parses");
    assert_eq!(p.header.magic, 0x46554747);
    assert_eq!(p.header.kv_count, 5);
    assert_eq!(p.header.alignment, 16);
    assert_eq!(p.tensor_data_offset, (end + 15) / 16 * 16);
    assert!(matches!(p.header.metadata.get("u64"), Some(gguf_parser::MetadataValue::Uint64(x)) if *x == 1 << 40));
    assert!(matches!(p.header.metadata.get("i16"), Some(gguf_parser::MetadataValue::Int16(-2))));
    assert!(matches!(p.header.metadata.get("f64"), Some(gguf_parser::MetadataValue::Float64(x)) if *x == 2.5f64.to_bits()));
    match p.header.metadata.get("arr") {
        Some(gguf_parser::MetadataValue::Array(v)) => {
            assert!(matches!(v[0], gguf_parser::MetadataValue::Int32(-7)));
            assert!(matches!(v[1], gguf_parser::MetadataValue::Int32(9)));
        }
        _ => panic!("arr"),
    }
    assert_eq!(p.header.tensors[0].name, "q");
    assert_eq!(p.header.tensors[0].offset, 4);
    // Two Q8_0 blocks of 34 bytes.
    assert_eq!(p.tensor_byte_size(0), 68);
}

#[test]
fn strict_reader_sizes_and_reads() {
    let mut b = Vec::new();
    header(&mut b, 2, 0);
    strict_tensor(&mut b, "f", &[3], 0, 0);
    strict_tensor(&mut b, "q", &[33], 8, 12);
    let p = gguf_parser::GgufParser::open(&b).expect("parses");
    // F32: four bytes per element; Q8_0: blocks rounded up.
    assert_eq!(p.tensor_byte_size(0), 12);
    assert_eq!(p.tensor_byte_size(1), 68);
    let start = p.tensor_data_offset as usize;
    let mut file = b.clone();
    file.resize(start + 12, 0);
    for i in 0..12 {
        file[start + i] = i as u8 + 1;
    }
    let mut dest = vec![0u8; 12];
    assert_eq!(p.read_tensor_into(&file, 0, &mut dest), Ok(()));
    assert_eq!(dest, (1..=12).collect::<Vec<u8>>());
    let mut dest2 = vec![0u8; 68];
    assert_eq!(p.read_tensor_into(&file, 1, &mut dest2), Err(GgufError::UnexpectedEof));
}

#[test]
fn strict_reader_refuses_invalid_utf8() {
    let mut b = Vec::new();
    header(&mut b, 0, 1);
    put_str(&mut b, b"k");
    put_u32(&mut b, 8);
    put_str(&mut b, &[0xc3, 0x28]);
    assert_eq!(gguf_parser::GgufParser::open(&b).err(), Some(GgufError::InvalidUtf8));
}
