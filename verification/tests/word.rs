use rc5_cypher::word::{
    GetP, GetQ, PresudoRandomKeySequenceIterator, RotateWordLeft, RotateWordRight, Word,
};

#[test]
fn test_sequence_for_rounds() {
    for rounds_count in 0..u8::MAX {
        assert_eq!(
            PresudoRandomKeySequenceIterator::<u16>::collect_for_rounds_count(rounds_count).len(),
            (2 * (rounds_count as usize + 1))
        );
    }
}

#[test]
fn test_start_of_sequence() {
    let mut sequence = PresudoRandomKeySequenceIterator::<u64>::default();
    let mut actual = Vec::new();
    for _ in 0..4 {
        actual.push(sequence.next().unwrap());
    }
    assert_eq!(
        actual.as_slice(),
        [
            u64::P,
            u64::P.wrapping_add(u64::Q),
            u64::P.wrapping_add(u64::Q).wrapping_add(u64::Q),
            u64::P
                .wrapping_add(u64::Q)
                .wrapping_add(u64::Q)
                .wrapping_add(u64::Q),
        ]
        .as_slice(),
    );
}

#[test]
fn test_first_values() {
    let actual = PresudoRandomKeySequenceIterator::<u64>::collect_for_rounds_count(255);
    assert_eq!(actual.len(), 2 * (255 + 1));
    for (i, term) in actual.iter().enumerate() {
        let expected =
            (0xb7e151628aed2a6bu128 + (i as u128) * 0x9e3779b97f4a7c15u128) % (1u128 << 64);
        assert_eq!(*term as u128, expected);
    }
    assert_eq!(actual[0], 0xb7e151628aed2a6b);
    assert_eq!(actual[1], 0x5618cb1c0a37a680);
    assert_eq!(actual[2], 0xf45044d589822295);
}

#[test]
fn test_rotate_left() {
    assert_eq!(1u64.rotate_word_left(1u64), 2u64);
    assert_eq!(2u64.rotate_word_left(1u64), 4u64);
    assert_eq!(1u64.rotate_word_left(u64::MAX), 2u64.pow(63));
}

#[test]
fn test_rotate_right() {
    assert_eq!(2u64.rotate_word_right(1u64), 1u64);
    assert_eq!(2u64.rotate_word_right(1u64), 1u64);
    assert_eq!(u64::MAX.rotate_word_right(1), u64::MAX);
}

#[test]
fn test_magic_constants() {
    assert_eq!(<u8 as GetP>::P, 0xb7);
    assert_eq!(<u8 as GetQ>::Q, 0x9f);
    assert_eq!(<u16 as GetP>::P, 0xb7e1);
    assert_eq!(<u16 as GetQ>::Q, 0x9e37);
    assert_eq!(<u32 as GetP>::P, 0xb7e15163);
    assert_eq!(<u32 as GetQ>::Q, 0x9e3779b9);
    assert_eq!(<u64 as GetP>::P, 0xb7e151628aed2a6b);
    assert_eq!(<u64 as GetQ>::Q, 0x9e3779b97f4a7c15);
    assert_eq!(<u128 as GetP>::P, 0xb7e151628aed2a6abf7158809cf4f3c7);
    assert_eq!(<u128 as GetQ>::Q, 0x9e3779b97f4a7c15f39cc0605cedc835);
}

#[test]
fn test_widths() {
    assert_eq!((<u8 as Word>::BITS, <u8 as Word>::BYTES), (8, 1));
    assert_eq!((<u16 as Word>::BITS, <u16 as Word>::BYTES), (16, 2));
    assert_eq!((<u32 as Word>::BITS, <u32 as Word>::BYTES), (32, 4));
    assert_eq!((<u64 as Word>::BITS, <u64 as Word>::BYTES), (64, 8));
    assert_eq!((<u128 as Word>::BITS, <u128 as Word>::BYTES), (128, 16));
}

#[test]
fn test_wrapping_add_and_sub() {
    assert_eq!(Word::wrapping_add(250u8, 10u8), 4);
    assert_eq!(Word::wrapping_sub(4u8, 10u8), 250);
    assert_eq!(Word::wrapping_add(0xffffu16, 1u16), 0);
    assert_eq!(Word::wrapping_sub(0u16, 1u16), 0xffff);
    assert_eq!(Word::wrapping_add(0xffff_fff0u32, 0x20u32), 0x10);
    assert_eq!(Word::wrapping_sub(0x10u32, 0x20u32), 0xffff_fff0);
    assert_eq!(Word::wrapping_add(u64::MAX, u64::MAX), u64::MAX - 1);
    assert_eq!(Word::wrapping_sub(0u64, u64::MAX), 1);
    assert_eq!(Word::wrapping_add(u128::MAX, 2u128), 1);
    assert_eq!(Word::wrapping_sub(1u128, 2u128), u128::MAX);
    assert_eq!(Word::wrapping_add(3u32, 4u32), 7);
    assert_eq!(Word::wrapping_sub(7u32, 4u32), 3);
}

#[test]
fn test_bitxor_rem_and_conversions() {
    assert_eq!(Word::bitxor(0b1100u8, 0b1010u8), 0b0110);
    assert_eq!(Word::bitxor(u128::MAX, 1u128), u128::MAX - 1);
    assert_eq!(Word::rem(100u8, 8u8), 4);
    assert_eq!(Word::rem(u64::MAX, 64u64), 63);
    assert_eq!(Word::rem(u128::MAX, 128u128), 127);
    assert_eq!(<u8 as Word>::zero(), 0);
    assert_eq!(<u128 as Word>::zero(), 0);
    assert_eq!(<u8 as Word>::from_u8(200), 200);
    assert_eq!(<u16 as Word>::from_u8(200), 200);
    assert_eq!(<u32 as Word>::from_u8(200), 200);
    assert_eq!(<u64 as Word>::from_u8(200), 200);
    assert_eq!(<u128 as Word>::from_u8(200), 200);
    assert_eq!(Word::to_u32(200u8), Some(200));
    assert_eq!(Word::to_u32(0xffffu16), Some(0xffff));
    assert_eq!(Word::to_u32(0xffff_ffffu32), Some(0xffff_ffff));
    assert_eq!(Word::to_u32(0xffff_ffffu64), Some(0xffff_ffff));
    assert_eq!(Word::to_u32(0x1_0000_0000u64), None);
    assert_eq!(Word::to_u32(0xffff_ffffu128), Some(0xffff_ffff));
    assert_eq!(Word::to_u32(u128::MAX), None);
}

#[test]
fn test_rotate_by_bits() {
    assert_eq!(Word::rotate_left(0b1000_0001u8, 1), 0b0000_0011);
    assert_eq!(Word::rotate_right(0b1000_0001u8, 1), 0b1100_0000);
    assert_eq!(Word::rotate_left(0x8001u16, 4), 0x0018);
    assert_eq!(Word::rotate_right(0x8001u16, 4), 0x1800);
    assert_eq!(Word::rotate_left(0x8000_0001u32, 31), 0xc000_0000);
    assert_eq!(Word::rotate_right(0x8000_0001u32, 31), 0x0000_0003);
    assert_eq!(Word::rotate_left(0x0123456789abcdefu64, 12), 0x3456789abcdef012);
    assert_eq!(Word::rotate_right(0x0123456789abcdefu64, 12), 0xdef0123456789abc);
    assert_eq!(
        Word::rotate_left(0x0123456789abcdef_fedcba9876543210u128, 64),
        0xfedcba9876543210_0123456789abcdef
    );
    assert_eq!(
        Word::rotate_right(0x0123456789abcdef_fedcba9876543210u128, 4),
        0x00123456789abcde_ffedcba987654321
    );
    assert_eq!(Word::rotate_left(0xabu8, 0), 0xab);
    assert_eq!(Word::rotate_right(0xabcdu16, 0), 0xabcd);
}

#[test]
fn test_rotate_by_word_takes_amount_modulo_width() {
    assert_eq!(0b1000_0001u8.rotate_word_left(9), 0b0000_0011);
    assert_eq!(0b1000_0001u8.rotate_word_left(8), 0b1000_0001);
    assert_eq!(0b1000_0001u8.rotate_word_right(255), 0b0000_0011);
    assert_eq!(0x8001u16.rotate_word_left(16 * 5 + 3), 0x000c);
    assert_eq!(0x8001u16.rotate_word_left(3), 0x000c);
    assert_eq!(0x8001u16.rotate_word_right(16 * 5 + 3), 0x3000);
    assert_eq!(1u32.rotate_word_left(u32::MAX), 0x8000_0000);
    assert_eq!(1u32.rotate_word_right(33), 0x8000_0000);
    assert_eq!(1u64.rotate_word_left(64), 1);
    assert_eq!(1u128.rotate_word_left(u128::MAX), 1u128 << 127);
    assert_eq!(1u128.rotate_word_right(129), 1u128 << 127);
    assert_eq!(1u128.rotate_word_left(1u128 << 100), 1);
}

#[test]
fn test_rotations_undo_each_other() {
    for n in 0..=255u8 {
        assert_eq!(0xa5u8.rotate_word_left(n).rotate_word_right(n), 0xa5);
        assert_eq!(
            0xdead_beefu32
                .rotate_word_right(n as u32)
                .rotate_word_left(n as u32),
            0xdead_beef
        );
        assert_eq!(
            0x0123_4567_89ab_cdef_0011_2233_4455_6677u128
                .rotate_word_left(n as u128)
                .rotate_word_right(n as u128),
            0x0123_4567_89ab_cdef_0011_2233_4455_6677
        );
    }
}

#[test]
fn test_from_le_bytes() {
    assert_eq!(<u8 as Word>::from_le_bytes(&[0xab]), 0xab);
    assert_eq!(<u16 as Word>::from_le_bytes(&[0x01, 0x02]), 0x0201);
    assert_eq!(<u32 as Word>::from_le_bytes(&[0x01, 0x02, 0x03, 0x04]), 0x04030201);
    assert_eq!(
        <u64 as Word>::from_le_bytes(&[1, 2, 3, 4, 5, 6, 7, 8]),
        0x0807060504030201
    );
    assert_eq!(
        <u128 as Word>::from_le_bytes(&[1, 2, 3, 4, 5, 6, 7, 8, 9, 10, 11, 12, 13, 14, 15, 16]),
        0x100f0e0d0c0b0a090807060504030201
    );
}

#[test]
fn test_into_le_bytes() {
    assert_eq!(Word::into_le_bytes(0xabu8), [0xab]);
    assert_eq!(Word::into_le_bytes(0x0201u16), [0x01, 0x02]);
    assert_eq!(Word::into_le_bytes(0x04030201u32), [0x01, 0x02, 0x03, 0x04]);
    assert_eq!(
        Word::into_le_bytes(0x0807060504030201u64),
        [1, 2, 3, 4, 5, 6, 7, 8]
    );
    assert_eq!(
        Word::into_le_bytes(0x100f0e0d0c0b0a090807060504030201u128),
        [1, 2, 3, 4, 5, 6, 7, 8, 9, 10, 11, 12, 13, 14, 15, 16]
    );
    assert_eq!(Word::into_le_bytes(1u32), [1, 0, 0, 0]);
}

#[test]
fn test_sequence_goes_up_by_q() {
    let terms = PresudoRandomKeySequenceIterator::<u8>::collect_for_rounds_count(1);
    assert_eq!(terms, [0xb7, 0x56, 0xf5, 0x94]);
    let terms = PresudoRandomKeySequenceIterator::<u32>::collect_for_rounds_count(0);
    assert_eq!(terms, [0xb7e15163, 0x5618cb1c]);
    let terms = PresudoRandomKeySequenceIterator::<u128>::collect_for_rounds_count(0);
    assert_eq!(
        terms,
        [
            0xb7e151628aed2a6abf7158809cf4f3c7,
            0x5618cb1c0a37a680b30e18e0f9e2bbfc
        ]
    );
}
