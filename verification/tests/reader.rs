use deflate::deflate::huffman::make_table;
use deflate::{BitReader, InflateError};

#[test]
fn test_read_u8() {
    let data = &[0b1001_0110, 0b0101_1010][..];
    let mut reader = BitReader::new(data);
    assert_eq!(reader.read_u8(3).unwrap(), 0b110);
    assert_eq!(reader.read_u8(3).unwrap(), 0b010);
}

#[test]
fn read_u16_crosses_bytes() {
    let data = &[0b1001_0110, 0b0101_1010, 0xff][..];
    let mut reader = BitReader::new(data);
    assert_eq!(reader.read_u16(4).unwrap(), 0b0110);
    assert_eq!(reader.read_u16(16).unwrap(), 0b1111_0101_1010_1001);
    assert_eq!(reader.read_u16(4).unwrap(), 0b1111);
    assert_eq!(reader.bit_position(), 24);
}

#[test]
fn read_of_no_bits_is_zero() {
    let data = &[0xff][..];
    let mut reader = BitReader::new(data);
    assert_eq!(reader.read_u16(0).unwrap(), 0);
    assert_eq!(reader.bit_position(), 0);
    assert_eq!(reader.read_u8(8).unwrap(), 0xff);
    assert_eq!(reader.read_u16(0).unwrap(), 0);
}

#[test]
fn read_u8_keeps_low_byte() {
    let data = &[0x34, 0x12][..];
    let mut reader = BitReader::new(data);
    assert_eq!(reader.read_u8(16).unwrap(), 0x34);
    assert_eq!(reader.bit_position(), 16);
}

#[test]
fn peek_does_not_move() {
    let data = &[0b1001_0110, 0b0101_1010][..];
    let mut reader = BitReader::new(data);
    assert_eq!(reader.peek_u16(5).unwrap(), 0b10110);
    assert_eq!(reader.peek_u16(5).unwrap(), 0b10110);
    assert_eq!(reader.bit_position(), 0);
    assert_eq!(reader.read_u16(5).unwrap(), 0b10110);
    assert_eq!(reader.bit_position(), 5);
    assert_eq!(reader.peek_u16(11).unwrap(), 0b0101_1010_100);
}

#[test]
fn read_past_the_end_fails_and_stays() {
    let data = &[0xa5][..];
    let mut reader = BitReader::new(data);
    assert_eq!(reader.read_u8(3).unwrap(), 0b101);
    assert_eq!(reader.read_u16(6), Err(InflateError::UnexpectedEnd));
    assert_eq!(reader.peek_u16(6), Err(InflateError::UnexpectedEnd));
    assert_eq!(reader.bit_position(), 3);
    assert_eq!(reader.read_u16(5).unwrap(), 0b10100);
    assert_eq!(reader.read_u8(1), Err(InflateError::UnexpectedEnd));
    assert_eq!(reader.bit_position(), 8);
}

#[test]
fn empty_input_has_no_bits() {
    let data: &[u8] = &[];
    let mut reader = BitReader::new(data);
    assert_eq!(reader.bit_position(), 0);
    assert_eq!(reader.read_u8(1), Err(InflateError::UnexpectedEnd));
    assert_eq!(reader.read_u16(0).unwrap(), 0);
}

#[test]
fn jump_goes_to_the_next_byte() {
    let data = &[0xff, 0x12, 0x34, 0x56][..];
    let mut reader = BitReader::new(data);
    reader.jump_to_byte_boundary();
    assert_eq!(reader.bit_position(), 0);
    assert_eq!(reader.read_u8(1).unwrap(), 1);
    reader.jump_to_byte_boundary();
    assert_eq!(reader.bit_position(), 8);
    reader.jump_to_byte_boundary();
    assert_eq!(reader.bit_position(), 8);
    assert_eq!(reader.read_u16(16).unwrap(), 0x3412);
    assert_eq!(reader.read_u8(7).unwrap(), 0x56);
    reader.jump_to_byte_boundary();
    assert_eq!(reader.bit_position(), 32);
}

#[test]
fn jump_after_a_wide_peek() {
    let data = &[0x01, 0x03, 0x00, 0xfc, 0xff][..];
    let mut reader = BitReader::new(data);
    assert_eq!(reader.read_u8(3).unwrap(), 1);
    assert_eq!(reader.peek_u16(16).unwrap(), 0x0060);
    reader.jump_to_byte_boundary();
    assert_eq!(reader.bit_position(), 8);
    assert_eq!(reader.read_u16(16).unwrap(), 3);
    assert_eq!(reader.read_u16(16).unwrap(), 0xfffc);
}

/// Reading a field at once and peeling it off bit by bit give the same bits.
#[test]
fn wide_reads_equal_single_bits() {
    let data: Vec<u8> = (0..64u32).map(|i| (i * 37 + 11) as u8).collect();
    for n in 1..=16usize {
        let mut wide = BitReader::new(&data[..]);
        let mut narrow = BitReader::new(&data[..]);
        while wide.bit_position() + n <= data.len() * 8 {
            let value = wide.read_u16(n).unwrap();
            let mut peeled: u16 = 0;
            for i in 0..n {
                peeled |= narrow.read_u16(1).unwrap() << i;
            }
            assert_eq!(value, peeled);
            assert_eq!(wide.bit_position(), narrow.bit_position());
        }
    }
}

/// A read of `a + b` bits is a read of `a` bits and then one of `b` bits.
#[test]
fn wide_reads_split() {
    let data: Vec<u8> = (0..32u32).map(|i| (i * 101 + 7) as u8).collect();
    for a in 0..=8usize {
        for b in 0..=8usize {
            let mut whole = BitReader::new(&data[..]);
            let mut parts = BitReader::new(&data[..]);
            for _ in 0..10 {
                let value = whole.read_u16(a + b).unwrap() as u32;
                let low = parts.read_u16(a).unwrap() as u32;
                let high = parts.read_u16(b).unwrap() as u32;
                assert_eq!(value, low | (high << a));
            }
        }
    }
}

#[test]
fn read_table_reads_codes_most_significant_bit_first() {
    // lengths 2, 1, 3, 3 give the codes 10, 0, 110, 111
    let table = make_table(2, &[2, 1, 3, 3][..]);
    // 10, 0, 110, 111, 111, 0, 10, 110 packed first bit lowest
    let data = &[0xd9, 0xaf, 0x01, 0x00, 0x00][..];
    let mut reader = BitReader::new(data);
    let mut symbols = Vec::new();
    for _ in 0..8 {
        symbols.push(reader.read_table(&table).unwrap());
    }
    assert_eq!(symbols, vec![0, 1, 2, 3, 3, 1, 0, 2]);
    assert_eq!(reader.bit_position(), 2 + 1 + 3 + 3 + 3 + 1 + 2 + 3);
}

#[test]
fn read_table_fails_on_an_empty_slot_and_stays() {
    // one code only: 0 for symbol 0
    let table = make_table(3, &[1, 0, 0][..]);
    let data = &[0b0000_0010, 0x00][..];
    let mut reader = BitReader::new(data);
    assert_eq!(reader.read_table(&table).unwrap(), 0);
    assert_eq!(reader.read_table(&table), Err(InflateError::InvalidCode));
    assert_eq!(reader.bit_position(), 1);
}

#[test]
fn read_table_needs_a_whole_level_of_bits() {
    let table = make_table(7, &[1, 1][..]);
    let data = &[0x00][..];
    let mut reader = BitReader::new(data);
    assert_eq!(reader.read_table(&table).unwrap(), 0);
    assert_eq!(reader.read_table(&table).unwrap(), 0);
    // six bits are left, the table looks at seven
    assert_eq!(reader.read_table(&table), Err(InflateError::UnexpectedEnd));
    assert_eq!(reader.bit_position(), 2);
}
