use jpeg_encoder::bit_stream::BitStream;
use jpeg_encoder::huffman::HuffmanNode;
use jpeg_encoder::package_merge::package_merge;

#[test]
fn test_package_merge_empty_stream() {
    let mut stream = BitStream::open();
    let tree = package_merge(&mut stream, 16).unwrap();
    assert_eq!(HuffmanNode::default(), tree)
}

#[test]
fn test_package_merge_single_symbol() {
    let mut stream = BitStream::open();
    stream.append_byte(1);
    stream.append_byte(1);
    stream.append_byte(1);
    let tree = package_merge(&mut stream, 16).unwrap();
    assert_eq!(
        HuffmanNode {
            left: None,
            content: None,
            right: Some(Box::from(HuffmanNode {
                content: Some(1),
                chance: u64::MAX - 1,
                ..Default::default()
            })),
            ..Default::default()
        },
        tree
    )
}

#[test]
fn test_package_merge_bigger_stream() {
    let mut stream = BitStream::open();
    for _ in 0..2 {
        stream.append_byte(1);
        stream.append_byte(2);
    }
    for _ in 0..3 {
        stream.append_byte(3);
        stream.append_byte(4);
    }
    for _ in 0..4 {
        stream.append_byte(5);
    }
    for _ in 0..5 {
        stream.append_byte(6);
    }

    for _ in 0..6 {
        stream.append_byte(7);
    }

    for _ in 0..7 {
        stream.append_byte(8);
    }
    for _ in 0..7 {
        stream.append_byte(9);
    }
    for _ in 0..7 {
        stream.append_byte(10);
    }
    for _ in 0..7 {
        stream.append_byte(11);
    }
    for _ in 0..7 {
        stream.append_byte(12);
    }
    for _ in 0..7 {
        stream.append_byte(13);
    }

    for _ in 0..7 {
        stream.append_byte(14);
    }
    for _ in 0..17 {
        stream.append_byte(15);
    }
    for _ in 0..71 {
        stream.append_byte(16);
    }
    for _ in 0..74 {
        stream.append_byte(17);
    }
    for _ in 0..17 {
        stream.append_byte(18);
    }
    for _ in 0..71 {
        stream.append_byte(19);
    }
    for _ in 0..74 {
        stream.append_byte(20);
    }
    for _ in 0..7 {
        stream.append_byte(21);
    }
    for _ in 0..7 {
        stream.append_byte(22);
    }
    for _ in 0..7 {
        stream.append_byte(23);
    }

    for _ in 0..7 {
        stream.append_byte(24);
    }
    for _ in 0..17 {
        stream.append_byte(25);
    }
    for _ in 0..71 {
        stream.append_byte(26);
    }
    for _ in 0..74 {
        stream.append_byte(27);
    }

    let tree = package_merge(&mut stream, 5).unwrap();
    assert_eq!(5, tree.max_depth() - 1);
    assert_eq!(4, tree.min_depth() - 1);
    let map = tree.code_map();
    let shortest_code_len = map
        .clone()
        .into_iter()
        .min_by_key(|(_, value)| value.0)
        .unwrap()
        .1
        .0;
    // 27 is the most likely symbol so it should have the shortest code
    assert_eq!(shortest_code_len, map.get(&27u8).unwrap().0)
}

#[test]
fn package_merge_with_too_many_symbols_for_the_height_gives_no_tree() {
    let mut stream = BitStream::open();
    for b in 1..=9u8 {
        stream.append_byte(b);
    }
    assert!(package_merge(&mut stream, 3).is_none());
    let mut stream = BitStream::open();
    for b in 1..=8u8 {
        stream.append_byte(b);
    }
    assert!(package_merge(&mut stream, 3).is_some());
}

#[test]
fn package_merge_finds_a_tree_when_the_symbols_just_fit() {
    for height in 1u16..=4 {
        let count = 1u32 << height;
        let mut stream = BitStream::open();
        for symbol in 0..count {
            for _ in 0..=symbol {
                stream.append_byte(symbol as u8);
            }
        }
        let tree = package_merge(&mut stream, height).unwrap();
        let codes = tree.code_map();
        assert_eq!(codes.len(), count as usize);
        for (_, (len, _)) in &codes {
            assert!(*len >= 1 && *len as u16 <= height);
        }
    }
}
