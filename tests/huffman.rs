use huffman::tree::{HuffmanTree, Node};
use huffman::HuffmanError;

fn book(entries: &[(char, &str)]) -> Vec<(char, String)> {
    entries.iter().map(|(c, w)| (*c, w.to_string())).collect()
}

fn code_of(tree: &HuffmanTree, c: char) -> String {
    tree.codes().iter().find(|e| e.0 == c).map(|e| e.1.clone()).unwrap()
}

#[test]
fn build_encode_decode_abacabad() {
    let tree = HuffmanTree::generate("abacabad").unwrap();
    let bits = tree.encode("abacabad").unwrap();
    let expected_len = 4 * code_of(&tree, 'a').len()
        + 2 * code_of(&tree, 'b').len()
        + code_of(&tree, 'c').len()
        + code_of(&tree, 'd').len();
    assert_eq!(bits.len(), expected_len);
    assert_eq!(expected_len, 14);
    let back = HuffmanTree::decode(tree.codes(), &bits).unwrap();
    assert_eq!(back, "abacabad");
}

#[test]
fn codewords_follow_tie_break() {
    let tree = HuffmanTree::generate("abacabad").unwrap();
    assert_eq!(tree.codes(), &book(&[('a', "1"), ('b', "01"), ('c', "001"), ('d', "000")]));
    assert_eq!(tree.encode("abacabad").unwrap(), "10110011011000");
}

#[test]
fn decode_explicit_codebook() {
    let codes = book(&[('a', "0"), ('b', "10"), ('c', "110"), ('d', "111")]);
    let out = HuffmanTree::decode(&codes, "01001100100111").unwrap();
    assert_eq!(out, "abacabad");
}

#[test]
fn encode_missing_symbol_fails() {
    let codes = book(&[('a', "0")]);
    assert_eq!(HuffmanTree::encode_with(&codes, "ab"), Err(HuffmanError::LookupError('b')));
}

#[test]
fn decode_unmatched_input_fails() {
    let codes = book(&[('a', "0"), ('b', "1")]);
    assert_eq!(HuffmanTree::decode(&codes, "2"), Err(HuffmanError::DecodeError));
}

#[test]
fn decode_incomplete_codeword_fails() {
    let codes = book(&[('a', "0"), ('b', "10")]);
    assert_eq!(HuffmanTree::decode(&codes, "01"), Err(HuffmanError::DecodeError));
}

#[test]
fn single_symbol_gets_one_bit() {
    let tree = HuffmanTree::generate("aaaa").unwrap();
    assert_eq!(tree.codes().len(), 1);
    assert_eq!(tree.codes()[0].0, 'a');
    assert_eq!(tree.codes()[0].1, "0");
    assert_eq!(tree.encode("aaaa").unwrap(), "0000");
    assert_eq!(HuffmanTree::decode(tree.codes(), "0000").unwrap(), "aaaa");
    let root = tree.root();
    assert_eq!(root.freq, 4);
    assert!(root.ch.is_none() && root.left.is_none());
    assert_eq!(root.right.as_ref().unwrap().ch, Some('a'));
}

#[test]
fn empty_input_is_rejected() {
    assert!(matches!(HuffmanTree::generate(""), Err(HuffmanError::PreconditionError)));
}

#[test]
fn generated_codes_are_prefix_free() {
    let tree = HuffmanTree::generate("this is an example of a huffman tree").unwrap();
    let codes = tree.codes();
    for (i, (_, a)) in codes.iter().enumerate() {
        assert!(!a.is_empty());
        assert!(a.chars().all(|c| c == '0' || c == '1'));
        for (j, (_, b)) in codes.iter().enumerate() {
            if i != j {
                assert!(!b.starts_with(a.as_str()));
            }
        }
    }
}

#[test]
fn round_trip_various_inputs() {
    for s in ["a", "ab", "abacabad", "mississippi", "zzzzyx", "héllo wörld"] {
        let tree = HuffmanTree::generate(s).unwrap();
        let bits = tree.encode(s).unwrap();
        assert_eq!(HuffmanTree::decode(tree.codes(), &bits).unwrap(), s);
    }
}

#[test]
fn weighted_length_is_minimal_for_small_example() {
    // Counts 5, 2, 1, 1: an optimal prefix code costs 5*1 + 2*2 + 1*3 + 1*3.
    let tree = HuffmanTree::generate("aaaaabbcd").unwrap();
    assert_eq!(tree.encode("aaaaabbcd").unwrap().len(), 15);
}

#[test]
fn frequency_counts_in_first_occurrence_order() {
    assert_eq!(HuffmanTree::frequency("abacabad"), vec![('a', 4), ('b', 2), ('c', 1), ('d', 1)]);
    assert_eq!(HuffmanTree::frequency(""), vec![]);
}

#[test]
fn root_count_is_input_length() {
    let tree = HuffmanTree::generate("abacabad").unwrap();
    let root = tree.root();
    assert_eq!(root.freq, 8);
    assert_eq!(root.left.as_ref().unwrap().ch, Some('a'));
    assert_eq!(root.right.as_ref().unwrap().freq, 4);
}

#[test]
fn empty_sequences_encode_and_decode_empty() {
    let codes = book(&[('a', "0")]);
    assert_eq!(HuffmanTree::encode_with(&codes, "").unwrap(), "");
    assert_eq!(HuffmanTree::decode(&codes, "").unwrap(), "");
}

#[test]
fn new_node_has_no_children() {
    let n = Node::new(3, Some('x'));
    assert_eq!(n.freq, 3);
    assert_eq!(n.ch, Some('x'));
    assert!(n.left.is_none() && n.right.is_none());
}

#[test]
fn assign_codes_replaces_existing_codeword() {
    let mut codes = vec![('x', "1".to_string()), ('y', "11".to_string())];
    let leaf = Node::new(1, Some('x'));
    HuffmanTree::assign_codes(&leaf, &mut codes, "0".to_string());
    assert_eq!(codes, vec![('x', "0".to_string()), ('y', "11".to_string())]);

    let mut fresh = vec![('y', "11".to_string())];
    let mut root = Node::new(2, None);
    root.left = Some(Box::new(Node::new(1, Some('a'))));
    root.right = Some(Box::new(Node::new(1, Some('y'))));
    HuffmanTree::assign_codes(&root, &mut fresh, String::new());
    assert_eq!(fresh, vec![('y', "0".to_string()), ('a', "1".to_string())]);
}
