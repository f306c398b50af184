use std::collections::HashMap;

use jpeg_encoder::bit_stream::BitStream;
use jpeg_encoder::huffman::{encode, increment_or_append, parse_u8_stream, HuffmanNode};

#[test]
fn test_parse_empty_stream() {
    let expected_tree = HuffmanNode {
        chance: 0,
        content: None,
        right: None,
        left: None,
    };
    let mut stream = BitStream::open();

    let actual_tree = parse_u8_stream(&mut stream).unwrap();
    assert_eq!(expected_tree, actual_tree)
}

#[test]
fn test_parse_stream_with_one_byte() {
    let mut stream = BitStream::open();
    stream.append_byte(1);
    let tree = parse_u8_stream(&mut stream).unwrap();
    assert_eq!(
        HuffmanNode {
            chance: 0,
            content: None,
            right: Some(Box::from(HuffmanNode {
                chance: 0,
                content: None,
                left: Some(Box::from(HuffmanNode {
                    chance: u64::MAX - 1,
                    content: Some(1),
                    ..Default::default()
                })),
                ..Default::default()
            })),
            ..Default::default()
        },
        tree
    );
}

#[test]
fn test_encode_example() {
    /*
    test with the following likelihoods:
    - 1: 4
    - 2: 4
    - 3: 6
    - 4: 6
    - 5: 7
    - 6: 9
    */
    let mut stream = BitStream::open();
    stream.append_byte(1);
    stream.append_byte(1);
    stream.append_byte(2);
    stream.append_byte(2);
    stream.append_byte(3);
    stream.append_byte(3);
    stream.append_byte(4);
    stream.append_byte(4);
    stream.append_byte(5);
    stream.append_byte(5);
    stream.append_byte(6);
    stream.append_byte(6);

    for _ in 0..7 {
        stream.append_byte(6);
    }
    for _ in 0..4 {
        stream.append_byte(3);
        stream.append_byte(4);
    }
    for _ in 0..2 {
        stream.append_byte(1);
        stream.append_byte(2);
    }
    for _ in 0..5 {
        stream.append_byte(5);
    }

    let (code, map) = encode(&mut stream).unwrap();

    // code lengths should be 3 for 1, 3 for 2, 3 for 3, 3 for 4, 3 for 5, 2 for 6
    let mut correct_code_len = 3 * 4 + // 4 1s with code length 3
        4 * 4 + // 4 2s with code length 3, longer than optimal because of remove_only_ones_code()
        3 * 6 + // 6 3s with code length 3
        3 * 6 + // 6 4s with code length 4
        2 * 7 + // 7 5s with code length 2
        2 * 9; // 9 6s with code length 2
    correct_code_len = (correct_code_len as f32 / 8 as f32).ceil() as usize;
    assert_eq!(correct_code_len, code.data().len());

    let shortest_code_len = map
        .clone()
        .into_iter()
        .min_by_key(|(_, value)| value.0)
        .unwrap()
        .1
         .0;
    assert_eq!(shortest_code_len, map.get(&6u8).unwrap().0)
}

#[test]
fn test_append_to_map() {
    let mut map = HashMap::new();
    let node = HuffmanNode {
        chance: 1,
        content: Some(1),
        left: None,
        right: None,
    };
    node.append_to_map(&mut map, 2, 3);

    assert_eq!(map.get(&1), Some(&(3, 2)));
}

#[test]
fn test_code_map() {
    let node = HuffmanNode {
        chance: 1,
        content: Some(1),
        left: None,
        right: None,
    };
    let map = node.code_map();

    assert_eq!(map.get(&1), Some(&(0, 0)));
}

#[test]
fn test_increment_or_append() {
    let mut nodes = vec![
        HuffmanNode {
            chance: 1,
            content: Some(1),
            left: None,
            right: None,
        },
        HuffmanNode {
            chance: 2,
            content: Some(2),
            left: None,
            right: None,
        },
    ];
    increment_or_append(&mut nodes, 1);
    increment_or_append(&mut nodes, 3);

    assert_eq!(nodes[0].chance, 2);
    assert_eq!(nodes[1].chance, 2);
    assert_eq!(nodes[2].chance, 1);
    assert_eq!(nodes[2].content, Some(3));
}

fn leaf(value: u8) -> HuffmanNode<u8> {
    HuffmanNode { chance: 0, content: Some(value), left: None, right: None }
}

fn inner(left: HuffmanNode<u8>, right: HuffmanNode<u8>) -> HuffmanNode<u8> {
    HuffmanNode { chance: 0, content: None, left: Some(Box::new(left)), right: Some(Box::new(right)) }
}

#[test]
fn an_only_left_child_moves_right() {
    let mut tree = HuffmanNode { chance: 0, content: None, left: Some(Box::new(leaf(1))), right: None };
    tree.ensure_tree_grows_right();
    assert_eq!(tree, HuffmanNode { chance: 0, content: None, left: None, right: Some(Box::new(leaf(1))) });
}

#[test]
fn a_deeper_left_child_is_swapped_to_the_right() {
    let mut tree = inner(inner(leaf(1), leaf(2)), leaf(3));
    tree.ensure_tree_grows_right();
    assert_eq!(tree, inner(leaf(3), inner(leaf(1), leaf(2))));
}

#[test]
fn inner_nodes_are_exchanged() {
    let mut tree = inner(inner(leaf(1), leaf(2)), inner(leaf(3), leaf(4)));
    tree.swap_inner_nodes();
    assert_eq!(tree, inner(inner(leaf(1), leaf(3)), inner(leaf(2), leaf(4))));
}
