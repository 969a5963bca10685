use crc15::crc::CRC;

fn bitwise(bytes: &[usize]) -> u16 {
    CRC::calculate_old(bytes) as u16
}

#[test]
fn empty_input_identity() {
    let engine = CRC::new();
    assert_eq!(engine.calculate(&[]), 0);
    assert_eq!(CRC::calculate_old(&[]), 0);
}

#[test]
fn determinism_across_calls() {
    let engine = CRC::new();
    let input = [0x87u8, 0x01, 0xFF, 0x00, 0x5A];
    let first = engine.calculate(&input);
    let second = engine.calculate(&input);
    assert_eq!(first, second);

    let fresh = CRC::new();
    assert_eq!(fresh.calculate(&input), first);

    let input_wide = [0x87usize, 0x01, 0xFF, 0x00, 0x5A];
    assert_eq!(CRC::calculate_old(&input_wide), CRC::calculate_old(&input_wide));
}

#[test]
fn order_sensitivity_counterexample() {
    let engine = CRC::new();
    assert_ne!(engine.calculate(&[0x01, 0x02]), engine.calculate(&[0x02, 0x01]));
    assert_ne!(CRC::calculate_old(&[0x01, 0x02]), CRC::calculate_old(&[0x02, 0x01]));
}

#[test]
fn table_shape() {
    let table = CRC::generate_table(15, 0x4599);
    assert_eq!(table.len(), 256);
    assert_eq!(table[0], 0);
}

#[test]
fn single_byte_scenario() {
    // The canonical regression vector: bit string "10000111", one byte 0x87.
    let engine = CRC::new();
    let expected = bitwise(&[0x87]);
    assert_eq!(expected, 0x71EE);
    assert_eq!(engine.calculate(&[0x87]), expected);
}

#[test]
fn multi_byte_scenario() {
    // Bit string "1000011100000001": bytes 0x87, 0x01. Exercises the
    // register-carry term that folds a second byte.
    let engine = CRC::new();
    let expected = bitwise(&[0x87, 0x01]);
    assert_eq!(expected, 0x2A53);
    assert_eq!(engine.calculate(&[0x87, 0x01]), expected);
}

#[test]
fn table_matches_bitwise_for_lengths_up_to_32() {
    let engine = CRC::new();
    for len in 0..=32usize {
        let mut narrow: Vec<u8> = Vec::new();
        let mut wide: Vec<usize> = Vec::new();
        for i in 0..len {
            let byte = (i * 37 + len * 101 + 11) % 256;
            narrow.push(byte as u8);
            wide.push(byte);
        }
        assert_eq!(engine.calculate(&narrow), bitwise(&wide));
    }
}

#[test]
fn result_fits_fifteen_bits() {
    let engine = CRC::new();
    let all_ones = [0xFFu8; 32];
    assert!(engine.calculate(&all_ones) <= 0x7FFF);
    assert!(engine.calculate(&[0x80, 0x00, 0x00]) <= 0x7FFF);
    for len in 0..=32usize {
        let bytes: Vec<u8> = (0..len).map(|i| (i * 73 + 5) as u8).collect();
        assert!(engine.calculate(&bytes) <= 0x7FFF);
    }
}
