use sigdig::codecs::huffman::{HuffmanBuilder, HuffmanDecoder, HuffmanEncoder};

fn encode_all(chunks: &[&[u8]], threshold: u64) -> Vec<u8> {
    let mut enc = HuffmanEncoder::new(threshold);
    let mut out: Vec<u8> = Vec::new();
    for chunk in chunks {
        out.extend(enc.process(chunk.to_vec()));
    }
    out.extend(enc.flush());
    out
}

fn decode_all(chunks: &[&[u8]]) -> Vec<u8> {
    let mut dec = HuffmanDecoder::new();
    let mut out: Vec<u8> = Vec::new();
    for chunk in chunks {
        out.extend(dec.process(chunk.to_vec()));
    }
    out
}

/// A small deterministic byte generator for round-trip inputs.
fn pseudo_random_bytes(n: usize) -> Vec<u8> {
    let mut state: u32 = 0x1234_5678;
    let mut v = Vec::with_capacity(n);
    for _ in 0..n {
        state = state.wrapping_mul(1664525).wrapping_add(1013904223);
        v.push((state >> 24) as u8);
    }
    v
}

#[test]
fn empty_input_emits_bare_header() {
    let mut enc = HuffmanEncoder::new(1024);
    let out = enc.flush();
    assert_eq!(out.len(), 2048);
    assert!(out.iter().all(|b| *b == 0));
    assert_eq!(decode_all(&[&out]), Vec::<u8>::new());
}

#[test]
fn four_a_bytes_round_trip() {
    let input = b"AAAA";
    let out = encode_all(&[input], 4);
    assert!(out.len() >= 2048);
    // header: count[0x41] == 4 as a big-endian 64-bit counter, all others 0
    for i in 0..256 {
        for j in 0..8 {
            let expected = if i == 0x41 && j == 7 { 4 } else { 0 };
            assert_eq!(out[i * 8 + j], expected, "header byte {} {}", i, j);
        }
    }
    assert_eq!(decode_all(&[&out]), input.to_vec());
}

#[test]
fn round_trip_empty_uniform_random() {
    for input in [
        Vec::new(),
        vec![7u8; 500],
        pseudo_random_bytes(3000),
        (0u8..=255).collect::<Vec<u8>>(),
    ] {
        let out = encode_all(&[input.as_slice()], 1 << 20);
        assert_eq!(decode_all(&[&out]), input, "round trip failed");
    }
}

#[test]
fn round_trip_with_early_freeze() {
    // the table freezes after the first chunk crosses the threshold; later
    // bytes are coded with the frozen table and still decode exactly
    let input = pseudo_random_bytes(2000);
    let mut enc = HuffmanEncoder::new(100);
    let mut out: Vec<u8> = Vec::new();
    out.extend(enc.process(input[..1500].to_vec()));
    out.extend(enc.process(input[1500..].to_vec()));
    out.extend(enc.flush());
    assert_eq!(decode_all(&[&out]), input);
}

#[test]
fn chunk_split_stability() {
    let input = pseudo_random_bytes(600);
    let whole = encode_all(&[&input], 1 << 20);
    let split = encode_all(
        &[&input[..1], &input[1..7], &input[7..300], &input[300..]],
        1 << 20,
    );
    assert_eq!(whole, split);
    let finer: Vec<&[u8]> = input.chunks(1).collect();
    assert_eq!(encode_all(&finer, 1 << 20), whole);
}

#[test]
fn decoder_resumption_across_splits() {
    let input = pseudo_random_bytes(800);
    let out = encode_all(&[&input], 1 << 20);
    let at_once = decode_all(&[&out]);
    let by_bytes: Vec<&[u8]> = out.chunks(1).collect();
    assert_eq!(decode_all(&by_bytes), at_once);
    let odd: Vec<&[u8]> = out.chunks(13).collect();
    assert_eq!(decode_all(&odd), at_once);
    assert_eq!(at_once, input);
}

#[test]
fn header_round_trip() {
    let mut counts: Vec<u64> = Vec::with_capacity(256);
    for i in 0..256u64 {
        counts.push(i.wrapping_mul(0x9E37_79B9_7F4A_7C15).rotate_left(7));
    }
    let builder = HuffmanBuilder::deserialize(counts.clone());
    assert_eq!(builder.serialize(), counts);
}

#[test]
fn tree_has_all_256_distinct_leaves() {
    let mut builder = HuffmanBuilder::new();
    for _ in 0..10 {
        builder.push(0x41);
    }
    builder.push(0x42);
    let tree = builder.build();
    let values = tree.root.values();
    assert_eq!(values.len(), 256);
    let mut seen = [false; 256];
    for v in values {
        assert!(!seen[v as usize], "duplicate leaf {}", v);
        seen[v as usize] = true;
    }
    assert!(seen.iter().all(|s| *s));
}

#[test]
fn code_length_ordering() {
    let mut builder = HuffmanBuilder::new();
    for _ in 0..1000 {
        builder.push(b'a');
    }
    for _ in 0..100 {
        builder.push(b'b');
    }
    for _ in 0..3 {
        builder.push(b'c');
    }
    let tree = builder.build();
    let la = tree.encode(b'a').unwrap().len();
    let lb = tree.encode(b'b').unwrap().len();
    let lc = tree.encode(b'c').unwrap().len();
    let lz = tree.encode(0).unwrap().len();
    assert!(la <= lb);
    assert!(lb <= lc);
    assert!(lc <= lz);
}

#[test]
fn collecting_encoder_stays_silent_under_threshold() {
    let mut enc = HuffmanEncoder::new(1024);
    assert_eq!(enc.process(vec![1, 2, 3]), Vec::<u8>::new());
    assert_eq!(enc.process(vec![4; 100]), Vec::<u8>::new());
    let out = enc.flush();
    assert!(out.len() >= 2048);
}

#[test]
fn decoder_waits_for_full_header() {
    let mut dec = HuffmanDecoder::new();
    assert_eq!(dec.process(vec![0; 2047]), Vec::<u8>::new());
    let mut enc = HuffmanEncoder::new(16);
    let mut stream = enc.process(b"xyzzy".to_vec());
    stream.extend(enc.flush());
    let mut dec2 = HuffmanDecoder::new();
    let mut got = dec2.process(stream[..1000].to_vec());
    got.extend(dec2.process(stream[1000..].to_vec()));
    assert_eq!(got, b"xyzzy".to_vec());
}
