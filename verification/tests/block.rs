use rc5_cypher::block::{
    process_blocks, rc5_decode, rc5_encode, DecodeAsBlocks, EncodeAsBlocks, Error,
};

#[test]
fn test_encode() {
    assert_eq!(
        rc5_encode((10u16, 10u16), &[0x00, 0x01, 0x02, 0x03], 1),
        (2050, 8231)
    );
}

#[test]
fn test_decode() {
    assert_eq!(
        rc5_decode((2050u16, 8231), &[0x00, 0x01, 0x02, 0x03], 1),
        (10, 10)
    );
}

#[test]
fn test_process_blocks() {
    assert_eq!(
        process_blocks(
            &[0xff, 0xf0, 0xff, 0xf0],
            |(w1, w2): (u8, u8)| -> (u8, u8) { (w2, w1) }
        )
        .unwrap(),
        [0xf0, 0xff, 0xf0, 0xff]
    );
}

#[test]
fn test_encode_without_rounds_adds_first_subkeys() {
    assert_eq!(rc5_encode((10u16, 20u16), &[1, 2], 0), (11, 22));
    assert_eq!(rc5_encode((0xffffu16, 0u16), &[1, 0xffff], 0), (0, 0xffff));
    assert_eq!(rc5_decode((11u16, 22u16), &[1, 2], 0), (10, 20));
    assert_eq!(rc5_decode((0u16, 0xffffu16), &[1, 0xffff], 0), (0xffff, 0));
}

#[test]
fn test_decode_undoes_encode_on_blocks() {
    let table: [u32; 8] = [
        0x9e3779b9, 0x01234567, 0xdeadbeef, 0x0badcafe, 0xffffffff, 0, 0x80000000, 0x7fffffff,
    ];
    for rounds in 0..=3u8 {
        for block in [(0u32, 0u32), (1, 0xffffffff), (0x12345678, 0x9abcdef0)] {
            let encoded = rc5_encode(block, &table, rounds);
            assert_eq!(rc5_decode(encoded, &table, rounds), block);
            let decoded = rc5_decode(block, &table, rounds);
            assert_eq!(rc5_encode(decoded, &table, rounds), block);
        }
    }
}

#[test]
fn test_process_blocks_splits_words_lowest_byte_first() {
    let output = process_blocks(
        &[0x01, 0x02, 0x03, 0x04, 0x05, 0x06, 0x07, 0x08],
        |(w1, w2): (u16, u16)| -> (u16, u16) {
            assert!((w1, w2) == (0x0201, 0x0403) || (w1, w2) == (0x0605, 0x0807));
            (w1.wrapping_add(1), w2.wrapping_add(0x100))
        },
    )
    .unwrap();
    assert_eq!(output, [0x02, 0x02, 0x03, 0x05, 0x06, 0x06, 0x07, 0x09]);
}

#[test]
fn test_process_blocks_is_identity_with_identity() {
    let input: Vec<u8> = (0u8..64).collect();
    let output = process_blocks(&input, |block: (u128, u128)| -> (u128, u128) { block }).unwrap();
    assert_eq!(output, input);
    let output = process_blocks(&input, |block: (u64, u64)| -> (u64, u64) { block }).unwrap();
    assert_eq!(output, input);
    let output = process_blocks(&input, |block: (u32, u32)| -> (u32, u32) { block }).unwrap();
    assert_eq!(output, input);
}

#[test]
fn test_process_blocks_of_nothing() {
    let output = process_blocks(&[], |block: (u32, u32)| -> (u32, u32) { block });
    assert_eq!(output, Ok(Vec::new()));
}

#[test]
fn test_process_blocks_refuses_part_of_a_word() {
    let output = process_blocks(&[1, 2, 3], |block: (u16, u16)| -> (u16, u16) { block });
    assert_eq!(output, Err(Error::WrongInputSize));
    let output = process_blocks(&[1, 2, 3, 4, 5], |block: (u16, u16)| -> (u16, u16) { block });
    assert_eq!(output, Err(Error::WrongInputSize));
}

#[test]
fn test_process_blocks_refuses_odd_number_of_words() {
    let output = process_blocks(&[1], |block: (u8, u8)| -> (u8, u8) { block });
    assert_eq!(output, Err(Error::WrongInputSize));
    let output = process_blocks(&[1, 2, 3, 4, 5, 6], |block: (u16, u16)| -> (u16, u16) { block });
    assert_eq!(output, Err(Error::WrongInputSize));
    let output = process_blocks(&[0; 4], |block: (u32, u32)| -> (u32, u32) { block });
    assert_eq!(output, Err(Error::WrongInputSize));
    let output = process_blocks(&[0; 24], |block: (u64, u64)| -> (u64, u64) { block });
    assert_eq!(output, Err(Error::WrongInputSize));
    let output = process_blocks(&[0; 16], |block: (u128, u128)| -> (u128, u128) { block });
    assert_eq!(output, Err(Error::WrongInputSize));
}

#[test]
fn test_as_blocks_round_trip() {
    let key: [u8; 5] = [1, 2, 3, 4, 5];
    let plain: Vec<u8> = (100u8..132).collect();
    let cipher = plain.encode_as_blocks::<u64, _>(key, 7).unwrap();
    assert_eq!(cipher.len(), plain.len());
    assert_ne!(cipher, plain);
    assert_eq!(cipher.decode_as_blocks::<u64, _>(key, 7).unwrap(), plain);
}

#[test]
fn test_as_blocks_wrong_input_size() {
    let key: [u8; 5] = [1, 2, 3, 4, 5];
    let input: [u8; 12] = [0; 12];
    assert_eq!(
        input.encode_as_blocks::<u64, _>(key, 7),
        Err(Error::WrongInputSize)
    );
    assert_eq!(
        input.decode_as_blocks::<u64, _>(key, 7),
        Err(Error::WrongInputSize)
    );
}
