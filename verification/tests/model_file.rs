use annapura::generate::{bos_token, eos_token, Action, Progress, StreamBuffer};
use annapura::gguf::{parse, GgufError, TensorInfo, TensorType, Value, DEFAULT_ALIGNMENT};
use annapura::inspect::dtype_histogram;
use annapura::metadata::Metadata;
use annapura::text::utf8_split;
use annapura::tokenizer::{TokenDecoder, TokenizerError};

/// Builds a model file byte by byte.
struct File {
    bytes: Vec<u8>,
}

impl File {
    fn new(n_tensors: u64, n_metadata: u64) -> File {
        let mut f = File { bytes: Vec::new() };
        f.bytes.extend_from_slice(b"GGUF");
        f.u32(3).u64(n_tensors).u64(n_metadata);
        f
    }
    fn u32(&mut self, v: u32) -> &mut File {
        self.bytes.extend_from_slice(&v.to_le_bytes());
        self
    }
    fn u64(&mut self, v: u64) -> &mut File {
        self.bytes.extend_from_slice(&v.to_le_bytes());
        self
    }
    fn text(&mut self, s: &str) -> &mut File {
        self.u64(s.len() as u64);
        self.bytes.extend_from_slice(s.as_bytes());
        self
    }
    fn meta_u32(&mut self, key: &str, v: u32) -> &mut File {
        self.text(key).u32(4).u32(v)
    }
    #[allow(dead_code)]
    fn meta_f32(&mut self, key: &str, v: f32) -> &mut File {
        self.text(key).u32(6).u32(v.to_bits())
    }
    fn meta_text(&mut self, key: &str, v: &str) -> &mut File {
        self.text(key).u32(8).text(v)
    }
    fn tensor(&mut self, name: &str, shape: &[u64], dtype: u32, offset: u64) -> &mut File {
        self.text(name).u32(shape.len() as u32);
        for d in shape {
            self.u64(*d);
        }
        self.u32(dtype).u64(offset)
    }
    fn align(&mut self, alignment: usize) -> &mut File {
        while self.bytes.len() % alignment != 0 {
            self.bytes.push(0);
        }
        self
    }
}

#[test]
fn empty_model_has_aligned_data_start() {
    let f = File::new(0, 0);
    let m = parse(&f.bytes).unwrap();
    assert_eq!(m.version, 3);
    assert_eq!(m.metadata.len(), 0);
    assert_eq!(m.tensors.len(), 0);
    // 24 bytes of header, rounded up to 32.
    assert_eq!(m.tensor_data_start, 32);
    assert!(m.arch().is_none());
    assert!(m.tensor("x").is_none());
}

#[test]
fn every_value_type_is_read() {
    let mut f = File::new(0, 13);
    f.text("a").u32(0).bytes.push(200);
    f.text("b").u32(1).bytes.push(0xfe);
    f.text("c").u32(2).bytes.extend_from_slice(&513u16.to_le_bytes());
    f.text("d").u32(3).bytes.extend_from_slice(&(-2i16).to_le_bytes());
    f.text("e").u32(4).u32(70000);
    f.text("f").u32(5).bytes.extend_from_slice(&(-70000i32).to_le_bytes());
    f.text("g").u32(6).u32(1.5f32.to_bits());
    f.text("h").u32(7).bytes.push(2);
    f.text("i").u32(8).text("grün");
    f.text("j").u32(9).u32(9).u64(2);
    f.u32(0).u64(2).bytes.extend_from_slice(&[1, 2]);
    f.u32(7).u64(1).bytes.push(0);
    f.text("k").u32(10).u64(1 << 40);
    f.text("l").u32(11).bytes.extend_from_slice(&i64::MIN.to_le_bytes());
    f.text("m").u32(12).u64(2.5f64.to_bits());
    let m = parse(&f.bytes).unwrap();
    assert_eq!(m.metadata.len(), 13);
    let get = |k: &str| m.metadata.get(k).unwrap();
    assert!(matches!(get("a"), Value::U8(200)));
    assert!(matches!(get("b"), Value::I8(-2)));
    assert!(matches!(get("c"), Value::U16(513)));
    assert!(matches!(get("d"), Value::I16(-2)));
    assert!(matches!(get("e"), Value::U32(70000)));
    assert!(matches!(get("f"), Value::I32(-70000)));
    assert!(matches!(get("g"), Value::F32(b) if f32::from_bits(*b) == 1.5));
    assert!(matches!(get("h"), Value::Bool(true)));
    assert_eq!(get("i").as_str(), Some("grün"));
    match get("j") {
        Value::Array(outer) => {
            assert_eq!(outer.len(), 2);
            match (&outer[0], &outer[1]) {
                (Value::Array(x), Value::Array(y)) => {
                    assert!(matches!(x[0], Value::U8(1)) && matches!(x[1], Value::U8(2)));
                    assert!(matches!(y[0], Value::Bool(false)));
                }
                _ => panic!("not arrays"),
            }
        }
        _ => panic!("not an array"),
    }
    assert!(matches!(get("k"), Value::U64(v) if *v == 1 << 40));
    assert!(matches!(get("l"), Value::I64(i64::MIN)));
    assert!(matches!(get("m"), Value::F64(b) if f64::from_bits(*b) == 2.5));
    assert!(m.metadata.get("n").is_none());
}

#[test]
fn numbers_convert_only_where_they_fit() {
    assert_eq!(Value::U32(7).as_u32(), Some(7));
    assert_eq!(Value::U64(7).as_u32(), Some(7));
    assert_eq!(Value::U64(1 << 32).as_u32(), None);
    assert_eq!(Value::I32(7).as_u32(), Some(7));
    assert_eq!(Value::I32(-7).as_u32(), None);
    assert_eq!(Value::U8(7).as_u32(), None);
    assert_eq!(Value::F32(0x3fc0_0000).as_f32(), Some(0x3fc0_0000));
    assert_eq!(Value::U32(7).as_f32(), None);
    assert_eq!(Value::U32(7).as_str(), None);
}

#[test]
fn later_duplicate_key_wins() {
    let mut f = File::new(0, 3);
    f.meta_u32("k", 1).meta_u32("a", 5).meta_u32("k", 2);
    let m = parse(&f.bytes).unwrap();
    assert_eq!(m.metadata.len(), 2);
    assert_eq!(m.metadata.get("k").unwrap().as_u32(), Some(2));
    // Entries come in the order of their keys.
    assert_eq!(m.metadata.entry(0).0, "a");
    assert_eq!(m.metadata.entry(1).0, "k");
}

#[test]
fn tensors_are_found_and_sliced() {
    let mut f = File::new(3, 1);
    f.meta_text("general.architecture", "llama");
    f.tensor("t", &[2, 1], 0, 0);
    f.tensor("u", &[32], 8, 8);
    f.tensor("t", &[9], 0, 100);
    f.align(32);
    let start = f.bytes.len();
    for i in 0..42u8 {
        f.bytes.push(i);
    }
    let m = parse(&f.bytes).unwrap();
    assert_eq!(m.arch(), Some("llama"));
    assert_eq!(m.tensor_data_start as usize, start);
    assert_eq!(m.tensors.len(), 3);
    // The first of two tensors with one name is found.
    let t = m.tensor("t").unwrap();
    assert_eq!((t.n_elements(), t.byte_size(), t.offset), (2, 8, 0));
    assert!(m.holds_tensor(t));
    assert_eq!(m.tensor_bytes(t), &[0, 1, 2, 3, 4, 5, 6, 7]);
    let u = m.tensor("u").unwrap();
    assert_eq!(u.dtype, TensorType::Q8_0);
    assert_eq!((u.n_elements(), u.byte_size()), (32, 34));
    assert!(m.holds_tensor(u));
    assert_eq!(m.tensor_bytes(u).len(), 34);
    assert_eq!(m.tensor_bytes(u)[0], 8);
    // The third one reaches beyond the file.
    assert!(!m.holds_tensor(&m.tensors[2]));
}

#[test]
fn alignment_comes_from_the_metadata() {
    let mut f = File::new(0, 1);
    f.meta_u32("general.alignment", 100);
    let m = parse(&f.bytes).unwrap();
    assert_eq!(m.tensor_data_start, 100);
    let mut g = File::new(0, 1);
    g.meta_u32("general.alignment", 1);
    let m = parse(&g.bytes).unwrap();
    assert_eq!(m.tensor_data_start as usize, g.bytes.len());
    // A value that is no number is passed over.
    let mut h = File::new(0, 1);
    h.meta_text("general.alignment", "64");
    let m = parse(&h.bytes).unwrap();
    assert_eq!(m.tensor_data_start % DEFAULT_ALIGNMENT, 0);
}

fn error_of(bytes: &[u8]) -> GgufError {
    match parse(bytes) {
        Ok(_) => panic!("parsed"),
        Err(e) => e,
    }
}

#[test]
fn each_error_is_reported() {
    assert_eq!(error_of(b"GGU"), GgufError::Truncated { need: 4, at: 0, len: 3 });
    assert_eq!(error_of(b"GGUX"), GgufError::BadMagic(b'G', b'G', b'U', b'X'));
    assert_eq!(error_of(b"GGUF\x03\0"), GgufError::Truncated { need: 4, at: 4, len: 6 });
    assert_eq!(error_of(b"GGUF\x02\0\0\0"), GgufError::UnsupportedVersion(2));
    let mut f = File::new(0, 1);
    f.text("k").u32(13);
    assert_eq!(error_of(&f.bytes), GgufError::UnknownValueType(13));
    let mut f = File::new(1, 0);
    f.tensor("t", &[1], 4, 0);
    assert_eq!(error_of(&f.bytes), GgufError::UnknownDtype(4));
    let mut f = File::new(0, 1);
    f.u64(3).bytes.extend_from_slice(&[b'a', 0xff, b'b']);
    assert_eq!(error_of(&f.bytes), GgufError::BadUtf8 { valid_up_to: 1 });
    let mut f = File::new(0, 1);
    f.meta_u32("general.alignment", 0);
    assert_eq!(error_of(&f.bytes), GgufError::ZeroAlignment);
    // A length that no address can reach is a truncation too.
    let mut f = File::new(0, 1);
    f.u64(u64::MAX);
    assert!(matches!(error_of(&f.bytes), GgufError::Truncated { at: 32, len: 32, .. }));
    // A count of entries that are not there.
    let f = File::new(u64::MAX, 0);
    assert_eq!(error_of(&f.bytes), GgufError::Truncated { need: 8, at: 24, len: 24 });
}

#[test]
fn blocks_have_their_sizes() {
    let sizes = [
        (TensorType::F32, 1, 4),
        (TensorType::F16, 1, 2),
        (TensorType::Q4_0, 32, 18),
        (TensorType::Q4_1, 32, 20),
        (TensorType::Q5_0, 32, 22),
        (TensorType::Q5_1, 32, 24),
        (TensorType::Q8_0, 32, 34),
        (TensorType::Q8_1, 32, 36),
        (TensorType::Q2K, 256, 84),
        (TensorType::Q3K, 256, 110),
        (TensorType::Q4K, 256, 144),
        (TensorType::Q5K, 256, 176),
        (TensorType::Q6K, 256, 210),
        (TensorType::Q8K, 256, 292),
    ];
    for (t, elements, bytes) in sizes {
        assert_eq!((t.block_elements(), t.block_bytes()), (elements, bytes));
    }
    let scalar = TensorInfo { name: String::new(), shape: vec![], dtype: TensorType::F32, offset: 0 };
    assert_eq!((scalar.n_elements(), scalar.byte_size()), (1, 4));
    let part = TensorInfo { name: String::new(), shape: vec![33], dtype: TensorType::Q8_0, offset: 0 };
    assert_eq!(part.byte_size(), 34);
}

#[test]
fn histogram_counts_every_tensor_once() {
    let mut f = File::new(4, 0);
    f.tensor("a", &[1], 8, 0).tensor("b", &[1], 0, 0).tensor("c", &[1], 8, 0).tensor("d", &[1], 15, 0);
    let m = parse(&f.bytes).unwrap();
    let h = dtype_histogram(&m.tensors);
    assert_eq!(h, vec![(TensorType::F32, 1), (TensorType::Q8_0, 2), (TensorType::Q8K, 1)]);
    assert_eq!(h.iter().map(|e| e.1).sum::<usize>(), m.tensors.len());
    assert!(dtype_histogram(&Vec::new()).is_empty());
}

fn decoder(tokens: &[&str]) -> Vec<u8> {
    let mut f = File::new(0, 1);
    f.text("tokenizer.ggml.tokens").u32(9).u32(8).u64(tokens.len() as u64);
    for t in tokens {
        f.text(t);
    }
    f.bytes
}

#[test]
fn tokens_decode_to_bytes_and_text() {
    let bytes = decoder(&["<unk>", "▁Once", "<0x0A>", "<0xF0>", "a▁b▁", "<0x+5>", "<0xZZ>", "<0x41", "é"]);
    let d = TokenDecoder::from_model(&parse(&bytes).unwrap()).unwrap();
    assert_eq!(d.vocab_size(), 9);
    assert_eq!(d.decode_one_bytes(0), b"<unk>");
    assert_eq!(d.decode_one_bytes(1), b" Once");
    assert_eq!(d.decode_one_bytes(2), vec![0x0a]);
    assert_eq!(d.decode_one_bytes(3), vec![0xf0]);
    assert_eq!(d.decode_one_bytes(4), b"a b ");
    assert_eq!(d.decode_one_bytes(5), vec![5]);
    assert_eq!(d.decode_one_bytes(6), b"<0xZZ>");
    assert_eq!(d.decode_one_bytes(7), b"<0x41");
    assert_eq!(d.decode_one_bytes(8), "é".as_bytes());
    assert!(d.decode_one_bytes(9).is_empty());
    assert_eq!(d.decode_one_lossy(1), " Once");
    assert_eq!(d.decode_one_lossy(3), "\u{fffd}");
    assert_eq!(d.decode_one_lossy(100), "");
}

#[test]
fn vocabulary_errors_are_reported() {
    let f = File::new(0, 0);
    let err = |b: &[u8]| match TokenDecoder::from_model(&parse(b).unwrap()) {
        Ok(_) => panic!("decoder"),
        Err(e) => e,
    };
    assert_eq!(err(&f.bytes), TokenizerError::MissingTokens);
    let mut f = File::new(0, 1);
    f.meta_u32("tokenizer.ggml.tokens", 1);
    assert_eq!(err(&f.bytes), TokenizerError::NotAnArray);
    let mut f = File::new(0, 1);
    f.text("tokenizer.ggml.tokens").u32(9).u32(4).u64(2).u32(1).u32(2);
    assert_eq!(err(&f.bytes), TokenizerError::EntryNotString { index: 0 });
    // An array of mixed texts and numbers cannot be written, but nested arrays can.
    let mut f = File::new(0, 1);
    f.text("tokenizer.ggml.tokens").u32(9).u32(9).u64(1).u32(8).u64(0);
    assert_eq!(err(&f.bytes), TokenizerError::EntryNotString { index: 0 });
}

#[test]
fn utf8_is_split_behind_the_last_whole_character() {
    assert_eq!(utf8_split(b"abc"), (&b"abc"[..], 0));
    assert_eq!(utf8_split(b""), (&b""[..], 0));
    assert_eq!(utf8_split(b"a\xf0\x9f\x98"), (&b"a"[..], 3));
    assert_eq!(utf8_split("😀".as_bytes()), ("😀".as_bytes(), 0));
    assert_eq!(utf8_split(b"ab\xffcd"), (&b"ab"[..], 3));
}

#[test]
fn metadata_keeps_the_last_value_of_a_key() {
    let mut m = Metadata::new();
    m.insert("b".to_string(), Value::U8(1));
    m.insert("a".to_string(), Value::U8(2));
    m.insert("b".to_string(), Value::U8(3));
    m.insert("".to_string(), Value::U8(4));
    assert_eq!(m.len(), 3);
    assert!(matches!(m.get("b"), Some(Value::U8(3))));
    assert!(matches!(m.get("a"), Some(Value::U8(2))));
    assert!(m.get("c").is_none());
    let keys: Vec<&str> = (0..3).map(|i| m.entry(i).0).collect();
    assert_eq!(keys, vec!["", "a", "b"]);
}

#[test]
fn stream_emits_whole_characters_and_loses_no_byte() {
    let mut b = StreamBuffer::new();
    assert_eq!(b.push(b"hi "), "hi ");
    assert_eq!(b.push(&[0xf0]), "");
    assert_eq!(b.push(&[0x9f]), "");
    assert_eq!(b.push(&[0x98]), "");
    assert_eq!(b.bytes, vec![0xf0, 0x9f, 0x98]);
    assert_eq!(b.push(&[0x80, b'!', 0xc3]), "😀!");
    assert_eq!(b.bytes, vec![0xc3]);
    assert_eq!(b.finish(), "\u{fffd}");
    assert_eq!(StreamBuffer::new().finish(), "");
}

#[test]
fn generation_stops_where_it_should() {
    let mut p = Progress::start(3, 2);
    assert_eq!(p.next(7, 2, 10), Action::Emit { token: 7, pos: 3 });
    assert_eq!(p, Progress { remaining: 1, pos: 4, produced: 1 });
    assert_eq!(p.next(2, 2, 10), Action::Eos);
    assert_eq!(p.next(7, 2, 4), Action::ContextFull { pos: 4 });
    assert_eq!(p, Progress { remaining: 1, pos: 4, produced: 1 });
    assert_eq!(p.next(8, 2, 5), Action::Emit { token: 8, pos: 4 });
    assert_eq!(p.next(2, 2, 5), Action::LimitReached);
    assert_eq!(p.produced + p.remaining, 2);
}

#[test]
fn end_of_text_comes_from_the_metadata() {
    let f = File::new(0, 0);
    assert_eq!(eos_token(&parse(&f.bytes).unwrap()), 2);
    let mut f = File::new(0, 1);
    f.meta_u32("tokenizer.ggml.eos_token_id", 17);
    assert_eq!(eos_token(&parse(&f.bytes).unwrap()), 17);
}

#[test]
fn begin_of_text_comes_from_the_metadata() {
    let f = File::new(0, 0);
    assert_eq!(bos_token(&parse(&f.bytes).unwrap()), 1);
    let mut f = File::new(0, 1);
    f.meta_u32("tokenizer.ggml.bos_token_id", 19);
    assert_eq!(bos_token(&parse(&f.bytes).unwrap()), 19);
    let mut f = File::new(0, 1);
    f.meta_text("tokenizer.ggml.bos_token_id", "19");
    assert_eq!(bos_token(&parse(&f.bytes).unwrap()), 1);
}

#[test]
fn a_model_ends_with_its_tensor_table() {
    let mut f = File::new(2, 2);
    f.meta_text("general.architecture", "llama");
    f.text("list").u32(9).u32(4).u64(2).u32(1).u32(2);
    f.tensor("a", &[2, 3], 0, 0).tensor("b", &[32], 8, 24);
    let end = f.bytes.len();
    for q in 0..end {
        assert!(parse(&f.bytes[..q]).is_err(), "cut at {}", q);
    }
    let mut g = f.bytes.clone();
    g.extend_from_slice(&[0xff; 77]);
    let (m, n) = (parse(&f.bytes).unwrap(), parse(&g).unwrap());
    assert_eq!(m.version, n.version);
    assert_eq!(m.arch(), n.arch());
    assert_eq!(m.metadata.len(), n.metadata.len());
    assert_eq!(m.tensor_data_start, n.tensor_data_start);
    assert_eq!(m.tensors.len(), n.tensors.len());
    for (s, t) in m.tensors.iter().zip(&n.tensors) {
        assert_eq!((&s.name, &s.shape, s.dtype, s.offset), (&t.name, &t.shape, t.dtype, t.offset));
    }
}

#[test]
fn every_tensor_type_has_one_number() {
    let mut seen: Vec<TensorType> = Vec::new();
    for v in 0..40u32 {
        let mut f = File::new(1, 0);
        f.tensor("t", &[1], v, 0);
        match parse(&f.bytes) {
            Ok(m) => {
                assert!(v <= 3 || (6..=15).contains(&v));
                assert!(!seen.contains(&m.tensors[0].dtype));
                seen.push(m.tensors[0].dtype);
            }
            Err(e) => assert_eq!(e, GgufError::UnknownDtype(v)),
        }
    }
    assert_eq!(seen.len(), 14);
    assert_eq!(TensorType::from_u32(8), Ok(TensorType::Q8_0));
    assert_eq!(TensorType::from_u32(4), Err(GgufError::UnknownDtype(4)));
    assert_eq!(seen[6], TensorType::Q8_0);
}
