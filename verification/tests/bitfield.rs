use ltorrent::net::bitfield::BitField;

#[test]
fn test_contains_piece() {
    let bitfield = BitField::from_payload(vec![0b10101010, 0b01010101]);
    assert!(bitfield.contains_piece(0));
    assert!(!bitfield.contains_piece(1));
    assert!(!bitfield.contains_piece(7));
    assert!(!bitfield.contains_piece(8));
    assert!(bitfield.contains_piece(15));
}

#[test]
fn test_bitfield_iterator() {
    let bitfield = BitField::from_payload(vec![0b10101010, 0b01010101]);
    let mut iter = bitfield.into_iter();
    assert_eq!(iter.next(), Some(0));
    assert_eq!(iter.next(), Some(2));
    assert_eq!(iter.next(), Some(4));
    assert_eq!(iter.next(), Some(6));
    assert_eq!(iter.next(), Some(9));
    assert_eq!(iter.next(), Some(11));
    assert_eq!(iter.next(), Some(13));
    assert_eq!(iter.next(), Some(15));
    assert_eq!(iter.next(), None);
}

#[test]
fn bitfield_test_contains_piece() {
    let bitfield = BitField::from_payload(vec![0b10101010, 0b01010101]);
    assert!(bitfield.contains_piece(0));
    assert!(!bitfield.contains_piece(1));
    assert!(!bitfield.contains_piece(7));
    assert!(!bitfield.contains_piece(8));
    assert!(bitfield.contains_piece(15));
}

#[test]
fn contains_piece_is_msb_first_for_every_index() {
    let bitfield = BitField::from_payload(vec![0b10101010, 0b01010101]);
    let present = [0usize, 2, 4, 6, 9, 11, 13, 15];
    for index in 0..16usize {
        assert_eq!(bitfield.contains_piece(index), present.contains(&index), "index {}", index);
    }
}

#[test]
fn contains_piece_is_false_beyond_the_payload() {
    let bitfield = BitField::from_payload(vec![0xff]);
    assert!(bitfield.contains_piece(7));
    assert!(!bitfield.contains_piece(8));
    assert!(!bitfield.contains_piece(1_000_000));
    assert!(!bitfield.contains_piece(usize::MAX));
    let empty = BitField::from_payload(Vec::new());
    assert!(!empty.contains_piece(0));
}

#[test]
fn from_payload_keeps_the_bytes() {
    let bitfield = BitField::from_payload(vec![1, 2, 3]);
    assert_eq!(bitfield.payload, vec![1, 2, 3]);
}

#[test]
fn iterator_starts_over_with_each_walk() {
    let bitfield = BitField::from_payload(vec![0b00000001, 0b10000000]);
    let mut first = bitfield.into_iter();
    assert_eq!(first.next(), Some(7));
    let mut second = bitfield.into_iter();
    assert_eq!(second.next(), Some(7));
    assert_eq!(second.next(), Some(8));
    assert_eq!(second.next(), None);
    assert_eq!(second.next(), None);
    assert_eq!(first.next(), Some(8));
    assert_eq!(first.next(), None);
}

#[test]
fn iterator_over_nothing_yields_nothing() {
    let empty = BitField::from_payload(Vec::new());
    assert_eq!(empty.into_iter().next(), None);
    let zeros = BitField::from_payload(vec![0, 0, 0]);
    assert_eq!(zeros.into_iter().next(), None);
}

#[test]
fn iterator_agrees_with_contains_piece() {
    let bitfield = BitField::from_payload(vec![0x81, 0x00, 0x7e, 0xff]);
    let mut seen = Vec::new();
    let mut iter = bitfield.into_iter();
    while let Some(index) = iter.next() {
        seen.push(index);
    }
    let mut expected = Vec::new();
    for index in 0..32usize {
        if bitfield.contains_piece(index) {
            expected.push(index);
        }
    }
    assert_eq!(seen, expected);
    assert_eq!(seen.len(), 2 + 6 + 8);
}

#[test]
fn add_piece_sets_one_bit() {
    let mut bitfield = BitField::from_payload(vec![0b10000000, 0]);
    bitfield.add_piece(9);
    assert_eq!(bitfield.payload, vec![0b10000000, 0b01000000]);
    bitfield.add_piece(0);
    assert_eq!(bitfield.payload, vec![0b10000000, 0b01000000]);
    bitfield.add_piece(7);
    assert_eq!(bitfield.payload, vec![0b10000001, 0b01000000]);
}

#[test]
fn add_piece_grows_the_payload() {
    let mut bitfield = BitField::from_payload(Vec::new());
    bitfield.add_piece(17);
    assert_eq!(bitfield.payload, vec![0, 0, 0b01000000]);
    assert!(bitfield.contains_piece(17));
    assert!(!bitfield.contains_piece(16));
    assert!(!bitfield.contains_piece(18));
}
