use huffman::compress;
use huffman::decompress;
use huffman::codec::{serialize_tree, deserialize_tree};
use huffman::codes::{make_code_table, encode_data, encode_text, CodeTable};
use huffman::decode::{decode_data, decode_text};
use huffman::freq::calculate_frequencies;
use huffman::bits::get_encoded_bit_length;
use huffman::tree::{HuffmanNode, build_huffman_tree};

fn leaf(symbol: u8) -> HuffmanNode {
    HuffmanNode::Leaf { symbol }
}

fn internal(left: HuffmanNode, right: HuffmanNode) -> HuffmanNode {
    HuffmanNode::Internal { left: Box::new(left), right: Box::new(right) }
}

fn round_trip(data: &[u8]) {
    let input: Vec<u8> = data.to_vec();
    let artifact = compress(&input);
    let restored = decompress(&artifact, input.len()).expect("round trip must succeed");
    assert_eq!(restored, input);
}

#[test]
fn round_trip_simple_text() {
    round_trip(b"hello world");
}

#[test]
fn round_trip_all_byte_values() {
    let mut data: Vec<u8> = Vec::new();
    for b in 0..=255u8 {
        data.push(b);
        data.push(b.wrapping_mul(37));
    }
    round_trip(&data);
}

#[test]
fn round_trip_single_byte() {
    round_trip(&[9]);
}

#[test]
fn round_trip_two_distinct_bytes() {
    round_trip(&[1, 2]);
}

#[test]
fn round_trip_skewed_frequencies() {
    let mut data: Vec<u8> = Vec::new();
    for i in 0..200 {
        data.push(b'a');
        if i % 7 == 0 {
            data.push(b'b');
        }
        if i % 31 == 0 {
            data.push(b'c');
        }
    }
    round_trip(&data);
}

#[test]
fn frequencies_are_exact_and_sorted() {
    let data = b"abca".to_vec();
    let table = calculate_frequencies(&data);
    assert_eq!(table, vec![(b'a', 2), (b'b', 1), (b'c', 1)]);
}

#[test]
fn frequencies_of_empty_input_are_empty() {
    let table = calculate_frequencies(&Vec::new());
    assert!(table.is_empty());
}

#[test]
fn empty_input_compresses_to_empty_artifact() {
    let empty: Vec<u8> = Vec::new();
    assert_eq!(compress(&empty), Vec::<u8>::new());
    assert!(build_huffman_tree(&Vec::new()).is_none());
    assert_eq!(decompress(&Vec::new(), 0).unwrap(), Vec::<u8>::new());
}

#[test]
fn single_symbol_alphabet() {
    let data = vec![0x41, 0x41, 0x41];
    let table = calculate_frequencies(&data);
    let tree = build_huffman_tree(&table).expect("one entry yields a tree");
    assert_eq!(tree, leaf(0x41));
    let artifact = compress(&data);
    // Pre-order leaf encoding, then three zero bits packed into one byte.
    assert_eq!(artifact, vec![1, 0x41, 0]);
    assert_eq!(decompress(&artifact, 3).unwrap(), data);
}

#[test]
fn two_symbol_alphabet_known_shape() {
    // frequencies a:5, b:3 — the two leaves merge directly under the root,
    // with the lighter 'b' picked first and so placed on the left.
    let table = vec![(b'a', 5usize), (b'b', 3usize)];
    let tree = build_huffman_tree(&table).expect("two entries yield a tree");
    assert_eq!(tree, internal(leaf(b'b'), leaf(b'a')));
    let codes = make_code_table(&tree);
    let code_a = codes.get_code(b'a').expect("a has a code").clone();
    let code_b = codes.get_code(b'b').expect("b has a code").clone();
    assert_eq!(code_a.len(), 1);
    assert_eq!(code_b.len(), 1);
    assert_ne!(code_a, code_b);
    // Eight one-bit codes pack into exactly one byte, with no padding.
    let data = b"aaaaabbb".to_vec();
    let payload = encode_data(&data, &codes);
    assert_eq!(payload.len(), 1);
    assert_eq!(payload, vec![0b1111_1000]);
}

#[test]
fn malformed_tree_stream_is_a_format_error() {
    // A lone internal tag with no children following.
    let stream = vec![0u8];
    assert!(deserialize_tree(&stream, 0).is_err());
    assert!(decompress(&stream, 1).is_err());
}

#[test]
fn unknown_tag_is_a_format_error() {
    let stream = vec![7u8, 1, 65];
    assert!(deserialize_tree(&stream, 0).is_err());
}

#[test]
fn truncated_leaf_is_a_format_error() {
    // Leaf tag with its symbol byte missing.
    let stream = vec![0u8, 1, 65, 1];
    assert!(deserialize_tree(&stream, 0).is_err());
}

#[test]
fn empty_stream_is_a_format_error() {
    assert!(deserialize_tree(&Vec::new(), 0).is_err());
    assert!(decompress(&Vec::new(), 1).is_err());
}

#[test]
fn payload_too_short_is_a_format_error() {
    // A valid one-leaf tree but no payload byte to take three symbols from.
    let artifact = vec![1u8, 65];
    assert!(decompress(&artifact, 3).is_err());
}

#[test]
fn tree_round_trip_through_bytes() {
    let table = vec![(b'a', 5usize), (b'b', 3usize)];
    let tree = build_huffman_tree(&table).unwrap();
    let mut stream: Vec<u8> = Vec::new();
    serialize_tree(&tree, &mut stream);
    assert_eq!(stream, vec![0, 1, b'b', 1, b'a']);
    let (rebuilt, used) = deserialize_tree(&stream, 0).unwrap();
    assert_eq!(used, stream.len());
    assert_eq!(rebuilt, tree);
}

#[test]
fn tree_round_trip_larger_alphabet() {
    let data = b"abracadabra, a rare brew".to_vec();
    let table = calculate_frequencies(&data);
    let tree = build_huffman_tree(&table).unwrap();
    let mut stream: Vec<u8> = Vec::new();
    serialize_tree(&tree, &mut stream);
    let (rebuilt, used) = deserialize_tree(&stream, 0).unwrap();
    assert_eq!(used, stream.len());
    assert_eq!(rebuilt, tree);
}

#[test]
fn deserialization_consumes_exactly_the_tree() {
    let stream = vec![0, 1, b'b', 1, b'a', 99, 100];
    let (rebuilt, used) = deserialize_tree(&stream, 0).unwrap();
    assert_eq!(used, 5);
    assert_eq!(rebuilt, internal(leaf(b'b'), leaf(b'a')));
}

fn all_codes(codes: &CodeTable) -> Vec<(u8, Vec<bool>)> {
    let mut out = Vec::new();
    for s in 0..=255u8 {
        if let Some(code) = codes.get_code(s) {
            out.push((s, code.clone()));
        }
    }
    out
}

fn is_prefix(a: &[bool], b: &[bool]) -> bool {
    a.len() <= b.len() && a.iter().zip(b.iter()).all(|(x, y)| x == y)
}

#[test]
fn generated_codes_are_prefix_free() {
    let data = b"the quick brown fox jumps over the lazy dog".to_vec();
    let table = calculate_frequencies(&data);
    let tree = build_huffman_tree(&table).unwrap();
    let codes = all_codes(&make_code_table(&tree));
    assert!(!codes.is_empty());
    for (sa, ca) in &codes {
        assert!(!ca.is_empty());
        for (sb, cb) in &codes {
            if sa != sb {
                assert!(!is_prefix(ca, cb), "code of {} is a prefix of code of {}", sa, sb);
            }
        }
    }
}

#[test]
fn building_twice_is_deterministic() {
    let data = b"mississippi riverbanks".to_vec();
    let table = calculate_frequencies(&data);
    let tree1 = build_huffman_tree(&table).unwrap();
    let tree2 = build_huffman_tree(&table).unwrap();
    assert_eq!(tree1, tree2);
    let codes1 = all_codes(&make_code_table(&tree1));
    let codes2 = all_codes(&make_code_table(&tree2));
    assert_eq!(codes1, codes2);
    assert_eq!(compress(&data), compress(&data));
}

#[test]
fn encoded_bit_length_of_empty_payload() {
    assert_eq!(get_encoded_bit_length(&Vec::new()), 0);
}

#[test]
fn encoded_bit_length_counts_up_to_last_one_bit() {
    // 1010_0000: five trailing zero bits, so three significant bits.
    assert_eq!(get_encoded_bit_length(&vec![0b1010_0000]), 3);
    // 1111_1111 then 1000_0000: eight bits plus one.
    assert_eq!(get_encoded_bit_length(&vec![0xFF, 0x80]), 9);
    // An all-zero last byte contributes no bits.
    assert_eq!(get_encoded_bit_length(&vec![0xFF, 0x00]), 8);
}

#[test]
fn encode_text_skips_uncovered_symbols() {
    let table = vec![(b'a', 5usize), (b'b', 3usize)];
    let tree = build_huffman_tree(&table).unwrap();
    let codes = make_code_table(&tree);
    // 'z' has no code: only the four 'a' bits (1111) are packed.
    let with_stranger = encode_text(&b"aazaaz".to_vec(), &codes);
    let without = encode_text(&b"aaaa".to_vec(), &codes);
    assert_eq!(with_stranger, vec![0b1111_0000]);
    assert_eq!(without, vec![0b1111_0000]);
}

#[test]
fn decode_text_matches_codes_greedily() {
    let table = vec![(b'a', 5usize), (b'b', 3usize)];
    let tree = build_huffman_tree(&table).unwrap();
    let codes = make_code_table(&tree);
    let data = b"aaaaabbb".to_vec();
    let payload = encode_text(&data, &codes);
    assert_eq!(decode_text(&payload, &codes, 8), data);
    // Truncating to five bits keeps only the five leading 'a's.
    assert_eq!(decode_text(&payload, &codes, 5), b"aaaaa".to_vec());
    // Asking beyond the payload reads every packed bit and no more.
    assert_eq!(decode_text(&payload, &codes, 100), data);
}

#[test]
fn decode_data_walks_the_tree() {
    let table = vec![(b'a', 5usize), (b'b', 3usize)];
    let tree = build_huffman_tree(&table).unwrap();
    let codes = make_code_table(&tree);
    let data = b"abba".to_vec();
    let payload = encode_data(&data, &codes);
    assert_eq!(decode_data(&payload, &tree, 4).unwrap(), data);
    // Reading fewer symbols stops early; reading too many fails.
    assert_eq!(decode_data(&payload, &tree, 2).unwrap(), b"ab".to_vec());
    assert!(decode_data(&payload, &tree, 100).is_none());
}

#[test]
fn huffman_node_new_builds_a_leaf() {
    assert_eq!(HuffmanNode::new(7), leaf(7));
}
