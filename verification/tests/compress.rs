use lztrie::bits::log2;
use lztrie::builder::{create_dict, create_multiple_dicts};
use lztrie::encoder::encode;
use lztrie::mode::{parse_i8, resolve_mode, Mode, RunConfig};
use lztrie::trie::Tree;

#[test]
fn test_adding_node() {
    let mut test_tree = Tree::new();
    test_tree.add_node(1, 0);
    assert_eq!(2, test_tree.nodes.len());
    assert_eq!(1, test_tree.nodes.first().unwrap().children.len());
}

#[test]
fn test_log2() {
    assert_eq!(5, log2(23));
    assert_eq!(2, log2(2));
    assert_eq!(3, log2(5));
    assert_eq!(5, log2(16));
}

#[test]
fn bit_width_formula_examples() {
    assert_eq!(1, log2(1));
    assert_eq!(2, log2(2));
    assert_eq!(3, log2(5));
    assert_eq!(5, log2(16));
    assert_eq!(5, log2(23));
    assert_eq!(0, log2(0));
}

#[test]
fn fresh_tree_is_root_only() {
    let tree = Tree::new();
    assert_eq!(1, tree.nodes.len());
    let root = tree.nodes.first().unwrap();
    assert_eq!(0, root.value);
    assert_eq!(0, root.index);
    assert_eq!(0, root.parent_node);
    assert_eq!(0, root.children.len());
}

#[test]
fn indices_grow_with_creation_order() {
    let mut tree = Tree::new();
    let a = tree.add_node(10, 0);
    assert_eq!(1, a);
    let b = tree.add_node(11, 0);
    assert_eq!(2, b);
    let c = tree.add_node(12, b);
    assert_eq!(3, c);
    for (i, node) in tree.nodes.iter().enumerate() {
        assert_eq!(i, node.index);
        assert!(node.parent_node < node.index || i == 0);
    }
}

#[test]
fn first_writer_keeps_the_transition() {
    let mut tree = Tree::new();
    let first = tree.add_node(7, 0);
    let second = tree.add_node(7, 0);
    assert_eq!(1, first);
    assert_eq!(2, second);
    // the arena grew, but the root still maps byte 7 to the first node
    assert_eq!(3, tree.nodes.len());
    assert_eq!(1, tree.nodes.first().unwrap().children.len());
    assert_eq!(Some(&first), tree.nodes.first().unwrap().children.get(&7));
}

#[test]
fn empty_input_yields_header_and_pad_only() {
    let input: Vec<u8> = Vec::new();
    let dict = create_dict(&input, Mode::Unlimited);
    assert_eq!(1, dict.nodes.len());
    let out = encode(&vec![dict], 0);
    assert_eq!(vec![0x00u8, 0x00u8], out);
}

#[test]
fn repeated_byte_run_unlimited() {
    let input: Vec<u8> = vec![65, 65, 65, 65];
    let dict = create_dict(&input, Mode::Unlimited);
    // phrase nodes: byte 65 under the root, then byte 65 under node 1; the
    // open phrase at end of stream appends one more node that repeats the
    // cursor's value under the cursor's parent
    assert_eq!(4, dict.nodes.len());
    assert_eq!((65, 0), (dict.nodes[1].value, dict.nodes[1].parent_node));
    assert_eq!((65, 1), (dict.nodes[2].value, dict.nodes[2].parent_node));
    assert_eq!((65, 0), (dict.nodes[3].value, dict.nodes[3].parent_node));
    let out = encode(&vec![dict], 0);
    // header, literal 65, then (1-bit parent 1, byte 65), (2-bit parent 0,
    // byte 65), and five zero pad bits
    assert_eq!(vec![0x00u8, 0x41, 0xA0, 0x88, 0x20], out);
    // 8 header bits + 8 + (1 + 8) + (2 + 8) content bits, padded to the next
    // byte boundary, make 40 bits
    assert_eq!(5, out.len());
}

#[test]
fn size_limit_segments_the_dictionary() {
    let config = resolve_mode(Some(-1));
    assert_eq!(Mode::LimitSize(2), config.mode);
    assert_eq!(1, config.header);
    let limit = match config.mode {
        Mode::LimitSize(l) => l,
        _ => unreachable!(),
    };
    let input: Vec<u8> = vec![65, 66, 67, 68];
    let dicts = create_multiple_dicts(&input, limit);
    assert_eq!(3, dicts.len());
    // each completed segment holds the root plus two phrase nodes; the
    // trailing trie is root-only
    assert_eq!(3, dicts[0].nodes.len());
    assert_eq!(3, dicts[1].nodes.len());
    assert_eq!(1, dicts[2].nodes.len());
    let out = encode(&dicts, config.header);
    assert_eq!(vec![0x01u8, 0x41, 0x21, 0x21, 0x91, 0x00], out);
}

#[test]
fn depth_limit_forces_phrase_closure() {
    let config = resolve_mode(Some(1));
    assert_eq!(Mode::LimitDepth(2), config.mode);
    assert_eq!(0, config.header);
    let input: Vec<u8> = vec![65, 65, 65, 65, 65, 65];
    let limited = create_dict(&input, config.mode);
    // the phrase that would have grown to three bytes is cut at two: the
    // forced closure adds a duplicate child under the pre-descent cursor
    let pairs: Vec<(u8, usize)> = limited
        .nodes
        .iter()
        .map(|n| (n.value, n.parent_node))
        .collect();
    assert_eq!(vec![(0, 0), (65, 0), (65, 1), (65, 1), (65, 0)], pairs);
    // without the limit the same input chains a three-byte phrase
    let free = create_dict(&input, Mode::Unlimited);
    let free_pairs: Vec<(u8, usize)> = free
        .nodes
        .iter()
        .map(|n| (n.value, n.parent_node))
        .collect();
    assert_eq!(vec![(0, 0), (65, 0), (65, 1), (65, 2)], free_pairs);
}

#[test]
fn parameter_parsing_matches_signed_decimal() {
    assert_eq!(Some(-1), parse_i8(&b"-1".to_vec()));
    assert_eq!(Some(127), parse_i8(&b"127".to_vec()));
    assert_eq!(Some(-128), parse_i8(&b"-128".to_vec()));
    assert_eq!(Some(7), parse_i8(&b"007".to_vec()));
    assert_eq!(Some(3), parse_i8(&b"+3".to_vec()));
    assert_eq!(Some(0), parse_i8(&b"-0".to_vec()));
    assert_eq!(None, parse_i8(&b"128".to_vec()));
    assert_eq!(None, parse_i8(&b"-129".to_vec()));
    assert_eq!(None, parse_i8(&b"99999999999".to_vec()));
    assert_eq!(None, parse_i8(&b"7x".to_vec()));
    assert_eq!(None, parse_i8(&b"".to_vec()));
    assert_eq!(None, parse_i8(&b"+".to_vec()));
    assert_eq!(None, parse_i8(&b"-".to_vec()));
    assert_eq!(None, parse_i8(&b" 1".to_vec()));
}

#[test]
fn malformed_parameter_falls_back_to_unlimited() {
    let parsed = parse_i8(&b"fast".to_vec());
    assert_eq!(None, parsed);
    let config = resolve_mode(parsed);
    assert_eq!(RunConfig { mode: Mode::Unlimited, header: 0 }, config);
    assert_eq!(config, resolve_mode(None));
    let input: Vec<u8> = Vec::new();
    let out = encode(&vec![create_dict(&input, config.mode)], config.header);
    assert_eq!(vec![0x00u8, 0x00u8], out);
}

#[test]
fn mode_resolution_covers_both_signs() {
    assert_eq!(RunConfig { mode: Mode::LimitDepth(8), header: 0 }, resolve_mode(Some(3)));
    assert_eq!(RunConfig { mode: Mode::LimitSize(8), header: 3 }, resolve_mode(Some(-3)));
    assert_eq!(RunConfig { mode: Mode::LimitSize(1), header: 0 }, resolve_mode(Some(0)));
}

#[test]
fn mixed_input_round_of_phrases() {
    // "ABAB": A and B go under the root, then the open phrase "AB"... the
    // third byte descends to node 1, the fourth closes phrase "AB" as node 3
    let input: Vec<u8> = vec![65, 66, 65, 66];
    let dict = create_dict(&input, Mode::Unlimited);
    let pairs: Vec<(u8, usize)> = dict
        .nodes
        .iter()
        .map(|n| (n.value, n.parent_node))
        .collect();
    assert_eq!(vec![(0, 0), (65, 0), (66, 0), (66, 1)], pairs);
}
