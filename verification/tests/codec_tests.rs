use huffman::codec::{decode, encode, encode_symbols, Encoded};
use huffman::compress::Compress;
use huffman::tree::{Node, Subtree, Symbol};
use huffman::CodecError;

fn chars_of(s: &str) -> Vec<char> {
    s.chars().collect()
}

fn encode_str(s: &str) -> Encoded {
    encode(&chars_of(s)).expect("non-empty input must encode")
}

#[test]
fn empty_input_fails() {
    let symbols: Vec<char> = Vec::new();
    let r = encode(&symbols);
    assert!(matches!(r, Err(CodecError::EmptyInput)));
}

#[test]
fn round_trip_abracadabra() {
    let input = chars_of("abracadabra");
    let enc = encode(&input).unwrap();
    assert_eq!(enc.symbol_count, 11);
    // skewed weights beat the naive fixed width of 8 bits per symbol
    assert!(enc.bits.len() < 11 * 8);
    let decoded = decode(&enc.tree, &enc.bits, enc.symbol_count).unwrap();
    assert_eq!(decoded, input);
}

#[test]
fn frequency_table_abracadabra() {
    let compress = Compress::new("abracadabra");
    let leaves = compress.freq_counter();
    // one leaf per distinct symbol, in order of first appearance
    let got: Vec<(char, u64)> = leaves.iter().map(|n| (n.value.value, n.value.count)).collect();
    assert_eq!(got, vec![('a', 5), ('b', 2), ('r', 2), ('c', 1), ('d', 1)]);
    for leaf in &leaves {
        assert!(leaf.left.0.is_none() && leaf.right.0.is_none());
        assert_eq!(leaf.value.label, -1);
    }
}

#[test]
fn frequency_table_empty() {
    let compress = Compress::new("");
    assert!(compress.freq_counter().is_empty());
}

#[test]
fn degenerate_single_symbol() {
    let input = chars_of("aaaa");
    let enc = encode(&input).unwrap();
    // one-entry table with the non-empty code "0"
    assert_eq!(enc.table.len(), 1);
    assert_eq!(enc.table[0].0, 'a');
    assert_eq!(enc.table[0].1, vec![false]);
    assert_eq!(enc.bits, vec![false, false, false, false]);
    let decoded = decode(&enc.tree, &enc.bits, enc.symbol_count).unwrap();
    assert_eq!(decoded, input);
}

#[test]
fn encoding_is_deterministic() {
    let input = chars_of("abracadabra");
    let first = encode(&input).unwrap();
    let second = encode(&input).unwrap();
    assert_eq!(first.tree, second.tree);
    assert_eq!(first.table, second.table);
    assert_eq!(first.bits, second.bits);
}

fn is_prefix(a: &[bool], b: &[bool]) -> bool {
    a.len() <= b.len() && a.iter().zip(b.iter()).all(|(x, y)| x == y)
}

#[test]
fn codes_are_prefix_free() {
    let enc = encode_str("abracadabra");
    for (i, (c1, code1)) in enc.table.iter().enumerate() {
        for (j, (c2, code2)) in enc.table.iter().enumerate() {
            if i != j {
                assert_ne!(c1, c2, "one code per symbol");
                assert!(!is_prefix(code1, code2));
            }
        }
    }
}

#[test]
fn truncated_stream_is_corrupt() {
    let enc = encode_str("abracadabra");
    let mut truncated = enc.bits.clone();
    truncated.pop();
    let r = decode(&enc.tree, &truncated, enc.symbol_count);
    assert!(matches!(r, Err(CodecError::CorruptStream)));
}

#[test]
fn truncated_degenerate_stream_is_corrupt() {
    let enc = encode_str("aaaa");
    let mut truncated = enc.bits.clone();
    truncated.pop();
    let r = decode(&enc.tree, &truncated, enc.symbol_count);
    assert!(matches!(r, Err(CodecError::CorruptStream)));
}

#[test]
fn leftover_bits_are_corrupt() {
    let enc = encode_str("abracadabra");
    let mut padded = enc.bits.clone();
    padded.push(true);
    let r = decode(&enc.tree, &padded, enc.symbol_count);
    assert!(matches!(r, Err(CodecError::CorruptStream)));
}

#[test]
fn malformed_tree_is_corrupt() {
    // an internal node with only one child is structurally invalid
    let leaf = Node {
        value: Symbol { value: 'a', count: 1, label: -1 },
        left: Subtree(None),
        right: Subtree(None),
    };
    let bad = Node {
        value: Symbol { value: 'a', count: 1, label: -1 },
        left: Subtree(Some(Box::new(leaf))),
        right: Subtree(None),
    };
    let bits = vec![false];
    let r = decode(&bad, &bits, 1);
    assert!(matches!(r, Err(CodecError::CorruptStream)));
}

#[test]
fn unknown_symbol_is_reported() {
    let enc = encode_str("aaab");
    let foreign = chars_of("az");
    let r = encode_symbols(&foreign, &enc.table);
    assert!(matches!(r, Err(CodecError::UnknownSymbol)));
}

#[test]
fn encode_symbols_concatenates_codes() {
    let enc = encode_str("aaab");
    let bits = encode_symbols(&chars_of("ba"), &enc.table).unwrap();
    let code_a = &enc.table.iter().find(|e| e.0 == 'a').unwrap().1;
    let code_b = &enc.table.iter().find(|e| e.0 == 'b').unwrap().1;
    let mut expected = code_b.clone();
    expected.extend(code_a.iter().copied());
    assert_eq!(bits, expected);
}

#[test]
fn compress_writes_bits_as_characters() {
    let compress = Compress::new("abracadabra");
    let text = compress.compress().unwrap();
    let enc = encode_str("abracadabra");
    let expected: String = enc.bits.iter().map(|b| if *b { '1' } else { '0' }).collect();
    assert_eq!(text, expected);
    assert!(text.len() < 11 * 8);
    assert!(text.chars().all(|c| c == '0' || c == '1'));
}

#[test]
fn compress_empty_input_fails() {
    let compress = Compress::new("");
    assert!(matches!(compress.compress(), Err(CodecError::EmptyInput)));
}

#[test]
fn compress_single_symbol() {
    let compress = Compress::new("aaaa");
    assert_eq!(compress.compress().unwrap(), "0000");
}

#[test]
fn generate_codes_on_bare_leaf_emits_one_bit() {
    let leaf = Node::new(Symbol { value: 'a', count: 4, label: -1 });
    let mut codes: Vec<(char, Vec<bool>)> = Vec::new();
    leaf.generate_codes(Vec::new(), &mut codes);
    assert_eq!(codes.len(), 1);
    assert_eq!(codes[0].0, 'a');
    assert_eq!(codes[0].1, vec![false]);
}

#[test]
fn round_trip_varied_inputs() {
    for input in ["x", "xy", "to be or not to be", "mississippi", "abcdefg", "aabbccdd"] {
        let symbols = chars_of(input);
        let enc = encode(&symbols).unwrap();
        let decoded = decode(&enc.tree, &enc.bits, enc.symbol_count).unwrap();
        assert_eq!(decoded, symbols, "round trip failed for {input:?}");
    }
}

#[test]
fn produce_tree_empty_pool() {
    let mut heap: Vec<Node> = Vec::new();
    assert!(Compress::produce_tree(&mut heap).is_none());
}

#[test]
fn produce_tree_merges_by_weight_then_symbol() {
    // equal weights: the tie breaks on the smaller symbol, which is drawn
    // first and becomes the left child
    let mut heap = vec![
        Node::new(Symbol { value: 'b', count: 1, label: -1 }),
        Node::new(Symbol { value: 'a', count: 1, label: -1 }),
    ];
    let root = Compress::produce_tree(&mut heap).unwrap();
    assert_eq!(root.value.count, 2);
    assert_eq!(root.value.value, 'a');
    let left = root.left.0.as_ref().unwrap();
    let right = root.right.0.as_ref().unwrap();
    assert_eq!(left.value.value, 'a');
    assert_eq!(left.value.label, 0);
    assert_eq!(right.value.value, 'b');
    assert_eq!(right.value.label, 1);
}

#[test]
fn generate_codes_reads_labels() {
    let enc = encode_str("aaab");
    // 'a' is the heavier symbol; both codes are one bit long here
    let code_a = &enc.table.iter().find(|e| e.0 == 'a').unwrap().1;
    let code_b = &enc.table.iter().find(|e| e.0 == 'b').unwrap().1;
    assert_eq!(code_a.len(), 1);
    assert_eq!(code_b.len(), 1);
    assert_ne!(code_a, code_b);
}

#[test]
fn wrong_symbol_count_is_corrupt() {
    let enc = encode_str("abracadabra");
    // too few symbols leaves bits over; too many runs out of bits
    let short = decode(&enc.tree, &enc.bits, enc.symbol_count - 1);
    assert!(matches!(short, Err(CodecError::CorruptStream)));
    let long = decode(&enc.tree, &enc.bits, enc.symbol_count + 1);
    assert!(matches!(long, Err(CodecError::CorruptStream)));
}
