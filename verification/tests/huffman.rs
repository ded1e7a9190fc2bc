use deflate::deflate::huffman::{
    is_tree_shaped, make_table, make_tree, Table, TableEntry, Tree,
};
use deflate::{BitReader, InflateError};

fn symbol_at(contents: &[TableEntry], index: usize) -> Option<(u16, u8)> {
    match contents[index] {
        TableEntry::Symbol(symbol, length) => Some((symbol, length)),
        _ => None,
    }
}

fn table_at(contents: &[TableEntry], index: usize) -> &[TableEntry] {
    match &contents[index] {
        TableEntry::Table(sub) => &sub[..],
        other => panic!("no table at {}: {:?}", index, other),
    }
}

#[test]
fn test_make_table() {
    let table = make_table(2, &vec![2, 1, 3, 3][..]);
    println!("table: {:?}", table);
    assert_eq!(table.bits, 2);
    assert_eq!(table.contents.len(), 4);
    assert_eq!(symbol_at(&table.contents, 0b00), Some((1, 1)));
    assert_eq!(symbol_at(&table.contents, 0b01), Some((1, 1)));
    assert_eq!(symbol_at(&table.contents, 0b10), Some((0, 2)));
    let sub = table_at(&table.contents, 0b11);
    assert_eq!(sub.len(), 4);
    assert_eq!(symbol_at(sub, 0b00), Some((2, 1)));
    assert_eq!(symbol_at(sub, 0b01), Some((2, 1)));
    assert_eq!(symbol_at(sub, 0b10), Some((3, 1)));
    assert_eq!(symbol_at(sub, 0b11), Some((3, 1)));
}

#[test]
fn test_make_tree() {
    let tree = make_tree(&vec![2, 1, 3, 3][..]);
    assert_eq!(
        tree,
        Tree::Tree(
            Box::new(Tree::Node(1)),
            Box::new(Tree::Tree(
                Box::new(Tree::Node(0)),
                Box::new(Tree::Tree(
                    Box::new(Tree::Node(2)),
                    Box::new(Tree::Node(3)),
                ))
            ))
        )
    );
}

#[test]
fn make_tree_of_two_symbols() {
    assert_eq!(
        make_tree(&[1, 1][..]),
        Tree::Tree(Box::new(Tree::Node(0)), Box::new(Tree::Node(1)))
    );
}

#[test]
fn make_tree_skips_symbols_without_code() {
    let tree = make_tree(&[0, 2, 0, 2, 1, 0][..]);
    assert_eq!(
        tree,
        Tree::Tree(
            Box::new(Tree::Node(4)),
            Box::new(Tree::Tree(Box::new(Tree::Node(1)), Box::new(Tree::Node(3)))),
        )
    );
}

#[test]
fn tree_duplicate_is_equal() {
    let tree = make_tree(&[3, 3, 3, 3, 3, 2, 4, 4][..]);
    assert_eq!(tree.duplicate(), tree);
}

#[test]
fn make_table_leaves_symbols_without_code_out() {
    let table = make_table(1, &[0, 1, 0][..]);
    assert_eq!(symbol_at(&table.contents, 0), Some((1, 1)));
    assert!(matches!(table.contents[1], TableEntry::Empty));
}

#[test]
fn make_table_of_no_code_is_empty() {
    let table = make_table(3, &[0, 0, 0, 0][..]);
    assert_eq!(table.contents.len(), 8);
    assert!(table.contents.iter().all(|entry| matches!(entry, TableEntry::Empty)));
    let none = make_table(4, &[][..]);
    assert_eq!(none.contents.len(), 16);
    assert!(none.contents.iter().all(|entry| matches!(entry, TableEntry::Empty)));
}

#[test]
fn make_table_drops_codes_that_do_not_fit() {
    // three codes of one bit: 0, 1, and a third that has no room
    let table = make_table(2, &[1, 1, 1][..]);
    assert_eq!(symbol_at(&table.contents, 0b00), Some((0, 1)));
    assert_eq!(symbol_at(&table.contents, 0b01), Some((0, 1)));
    assert_eq!(symbol_at(&table.contents, 0b10), Some((1, 1)));
    assert_eq!(symbol_at(&table.contents, 0b11), Some((1, 1)));
    // every length oversubscribed: nothing must go wrong
    let lengths = vec![15u8; 40000];
    let table = make_table(7, &lengths[..]);
    assert_eq!(table.contents.len(), 128);
    let lengths = vec![1u8; 65536];
    let table = make_table(15, &lengths[..]);
    assert_eq!(table.contents.len(), 32768);
}

#[test]
fn make_table_with_codes_of_all_lengths() {
    let lengths = [1u8, 2, 3, 4, 5, 6, 7, 8, 9, 10, 11, 12, 13, 14, 15, 15];
    let table = make_table(7, &lengths[..]);
    assert_eq!(table.contents.len(), 128);
    // the code of symbol 0 is the bit 0: the lower half of the first level
    for index in 0..64 {
        assert_eq!(symbol_at(&table.contents, index), Some((0, 1)));
    }
    assert_eq!(symbol_at(&table.contents, 0b1000000), Some((1, 2)));
    assert_eq!(symbol_at(&table.contents, 0b1111110), Some((6, 7)));
    let second = table_at(&table.contents, 0b1111111);
    assert_eq!(symbol_at(second, 0), Some((7, 1)));
    assert_eq!(symbol_at(second, 0b1111110), Some((13, 7)));
    let third = table_at(second, 0b1111111);
    assert_eq!(symbol_at(third, 0b0000000), Some((14, 1)));
    assert_eq!(symbol_at(third, 0b0111111), Some((14, 1)));
    assert_eq!(symbol_at(third, 0b1000000), Some((15, 1)));
    assert_eq!(symbol_at(third, 0b1111111), Some((15, 1)));
}

/// The canonical codes of `lengths`: in order of length, then of symbol.
fn codes(lengths: &[u8]) -> Vec<Option<(u32, u8)>> {
    let mut count = [0u32; 16];
    for &length in lengths {
        if length != 0 {
            count[length as usize] += 1;
        }
    }
    let mut next = [0u32; 16];
    let mut code = 0;
    for bits in 1..16 {
        code = (code + if bits > 1 { count[bits - 1] } else { 0 }) << 1;
        next[bits] = code;
    }
    lengths
        .iter()
        .map(|&length| {
            if length == 0 {
                None
            } else {
                let code = next[length as usize];
                next[length as usize] += 1;
                Some((code, length))
            }
        })
        .collect()
}

/// The codes of `symbols` one behind the other, and `padding` zero bytes.
fn encode(lengths: &[u8], symbols: &[u16], padding: usize) -> Vec<u8> {
    let codes = codes(lengths);
    let mut bits = Vec::new();
    for &symbol in symbols {
        let (code, length) = codes[symbol as usize].unwrap();
        for i in (0..length).rev() {
            bits.push((code >> i) & 1);
        }
    }
    let mut bytes = vec![0u8; (bits.len() + 7) / 8 + padding];
    for (i, bit) in bits.iter().enumerate() {
        bytes[i / 8] |= (*bit as u8) << (i % 8);
    }
    bytes
}

fn decode(table: &Table, data: &[u8], count: usize) -> Result<Vec<u16>, InflateError> {
    let mut reader = BitReader::new(data);
    let mut symbols = Vec::new();
    for _ in 0..count {
        symbols.push(reader.read_table(table)?);
    }
    Ok(symbols)
}

/// For complete codes, whatever the table's width, the codes of a sequence
/// of symbols decode to that sequence.
#[test]
fn decoding_inverts_encoding() {
    let codes: Vec<Vec<u8>> = vec![
        vec![2, 1, 3, 3],
        vec![1, 1],
        vec![3, 3, 3, 3, 3, 2, 4, 4],
        vec![1, 2, 3, 4, 5, 6, 7, 8, 9, 10, 11, 12, 13, 14, 15, 15],
        vec![4, 0, 0, 6, 3, 4, 2, 4, 2, 5, 4, 5, 5, 0, 7, 0, 7],
        vec![8; 256],
    ];
    for lengths in &codes {
        let coded: Vec<u16> =
            (0..lengths.len() as u16).filter(|&s| lengths[s as usize] != 0).collect();
        let mut symbols = Vec::new();
        for round in 0..5 {
            for (i, &symbol) in coded.iter().enumerate() {
                if (i + round) % (round + 1) == 0 {
                    symbols.push(symbol);
                }
            }
        }
        let data = encode(lengths, &symbols, 4);
        for bits in 1..=15 {
            let table = make_table(bits, &lengths[..]);
            assert_eq!(decode(&table, &data, symbols.len()).unwrap(), symbols);
        }
    }
}

#[test]
fn decoding_long_codes_through_three_levels() {
    let lengths = [1u8, 2, 3, 4, 5, 6, 7, 8, 9, 10, 11, 12, 13, 14, 15, 15];
    let data = [
        0xff, 0x7f, 0xff, 0xbf, 0xbf, 0x7f, 0xfd, 0x7f, 0xff, 0x7f, 0x00, 0x00, 0x00, 0x00,
    ];
    let table = make_table(7, &lengths[..]);
    assert_eq!(decode(&table, &data, 8).unwrap(), vec![15, 0, 14, 7, 8, 1, 13, 15]);
}

#[test]
fn incomplete_code_fails_on_unused_bits() {
    let table = make_table(4, &[2, 2, 2, 0][..]);
    assert_eq!(decode(&table, &[0b0000_0011, 0], 1), Err(InflateError::InvalidCode));
    assert_eq!(decode(&table, &[0b0000_0010, 0], 1).unwrap(), vec![1]);
}

#[test]
fn tree_shaped_lengths() {
    assert!(is_tree_shaped(&[2, 1, 3, 3][..]));
    assert!(is_tree_shaped(&[1, 1][..]));
    assert!(is_tree_shaped(&[0, 2, 0, 2, 1, 0][..]));
    assert!(is_tree_shaped(&[3, 3, 3, 3, 3, 2, 4, 4][..]));
    assert!(is_tree_shaped(&[1, 2, 3, 4, 5, 6, 7, 8, 9, 10, 11, 12, 13, 14, 15, 15][..]));
    assert!(is_tree_shaped(&[4, 0, 0, 6, 3, 4, 2, 4, 2, 5, 4, 5, 5, 0, 7, 0, 7][..]));
    // lengths above 15 count for nothing
    assert!(is_tree_shaped(&[1, 16, 1, 200][..]));
}

#[test]
fn lengths_of_no_tree() {
    assert!(!is_tree_shaped(&[][..]));
    assert!(!is_tree_shaped(&[0, 0][..]));
    // one code alone is no tree
    assert!(!is_tree_shaped(&[1][..]));
    // too few codes, too many codes
    assert!(!is_tree_shaped(&[2, 2, 2][..]));
    assert!(!is_tree_shaped(&[1, 1, 1][..]));
    assert!(!is_tree_shaped(&[1, 2, 2, 2][..]));
    assert!(!is_tree_shaped(&[2, 1, 3][..]));
    assert!(!is_tree_shaped(&[15; 32767][..]));
    assert!(is_tree_shaped(&[15; 32768][..]));
}

/// The codes lead through the tree to their symbols.
#[test]
fn tree_follows_the_codes() {
    let lengths = [4u8, 0, 0, 6, 3, 4, 2, 4, 2, 5, 4, 5, 5, 0, 7, 0, 7];
    let tree = make_tree(&lengths[..]);
    for (symbol, code) in codes(&lengths[..]).iter().enumerate() {
        if let Some((code, length)) = code {
            let mut node = &tree;
            for i in (0..*length).rev() {
                node = match node {
                    Tree::Tree(zero, one) => {
                        if (code >> i) & 1 == 0 {
                            zero
                        } else {
                            one
                        }
                    }
                    Tree::Node(_) => panic!("leaf above the end of a code"),
                };
            }
            assert_eq!(*node, Tree::Node(symbol as u16));
        }
    }
}

#[test]
fn clones_decode_alike() {
    let lengths = [1u8, 2, 3, 4, 5, 6, 7, 8, 9, 10, 11, 12, 13, 14, 15, 15];
    let symbols = [15u16, 0, 14, 7, 8, 1, 13, 15, 3, 2];
    let data = encode(&lengths[..], &symbols[..], 4);
    let table = make_table(4, &lengths[..]);
    let copy = table.clone();
    assert_eq!(copy.bits, 4);
    assert_eq!(format!("{:?}", copy), format!("{:?}", table));
    assert_eq!(decode(&copy, &data, symbols.len()).unwrap(), symbols.to_vec());
    let entry = copy.contents[15].clone();
    assert!(matches!(entry, TableEntry::Table(_)));
    let tree = make_tree(&lengths[..]);
    assert_eq!(tree.clone(), tree);
}
