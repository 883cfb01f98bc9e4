use rc5_cypher::key::{expand_key_to_words, Key, MixinKey};

#[test]
fn test_expand_key_to_u8_words() {
    let key: [u8; 100] = (0..100).collect::<Vec<_>>().try_into().unwrap();
    assert_eq!(expand_key_to_words::<u8, [u8; 100]>(&key), key);
}

#[test]
fn test_expand_key_to_u16_words() {
    let key: [u8; 100] = (0..100).collect::<Vec<_>>().try_into().unwrap();
    assert_eq!(
        expand_key_to_words::<u16, [u8; 100]>(&key),
        [
            256, 770, 1284, 1798, 2312, 2826, 3340, 3854, 4368, 4882, 5396, 5910, 6424, 6938,
            7452, 7966, 8480, 8994, 9508, 10022, 10536, 11050, 11564, 12078, 12592, 13106,
            13620, 14134, 14648, 15162, 15676, 16190, 16704, 17218, 17732, 18246, 18760, 19274,
            19788, 20302, 20816, 21330, 21844, 22358, 22872, 23386, 23900, 24414, 24928, 25442
        ]
    );
}

#[test]
fn test_expand_key_to_u32_words() {
    let key: [u8; 100] = (0..100).collect::<Vec<_>>().try_into().unwrap();
    assert_eq!(
        expand_key_to_words::<u32, [u8; 100]>(&key),
        [
            50462976, 117835012, 185207048, 252579084, 319951120, 387323156, 454695192,
            522067228, 589439264, 656811300, 724183336, 791555372, 858927408, 926299444,
            993671480, 1061043516, 1128415552, 1195787588, 1263159624, 1330531660, 1397903696,
            1465275732, 1532647768, 1600019804, 1667391840
        ]
    );
}

#[test]
fn test_expand_key_to_u64_words() {
    let key: [u8; 128] = (0..128).collect::<Vec<_>>().try_into().unwrap();
    assert_eq!(
        expand_key_to_words::<u64, [u8; 128]>(&key),
        [
            506097522914230528,
            1084818905618843912,
            1663540288323457296,
            2242261671028070680,
            2820983053732684064,
            3399704436437297448,
            3978425819141910832,
            4557147201846524216,
            5135868584551137600,
            5714589967255750984,
            6293311349960364368,
            6872032732664977752,
            7450754115369591136,
            8029475498074204520,
            8608196880778817904,
            9186918263483431288
        ]
    );
}

#[test]
fn test_mixin() {
    let key: [u8; 128] = (0..128).collect::<Vec<_>>().try_into().unwrap();
    assert_eq!(key.mixin::<u8>(1), [168, 6, 50, 92]);
    assert_eq!(key.mixin::<u16>(1), [21542, 9370, 17770, 62430]);
    assert_eq!(
        key.mixin::<u32>(1),
        [2854821115, 2277703324, 1905444131, 1032546232]
    );
    assert_eq!(
        key.mixin::<u64>(1),
        [
            12723797007543140178,
            8506846885001948740,
            92597271829173040,
            9830834989226132594
        ]
    );
    assert_eq!(
        key.mixin::<u128>(1),
        [
            114286276042449365625390575719892940390,
            261757733981050994600817605645092027194,
            331116414727359757038381651340974201142,
            322073851914563924524269393118185725356
        ]
    );
}

#[test]
fn test_array_is_its_own_key() {
    let key: [u8; 3] = [7, 8, 9];
    assert_eq!(<[u8; 3] as Key>::SIZE_HINT, 3);
    assert_eq!(key.secret(), [7, 8, 9]);
    assert_eq!(<[u8; 0] as Key>::SIZE_HINT, 0);
    assert_eq!(<[u8; 255] as Key>::SIZE_HINT, 255);
}

#[test]
fn test_expand_key_without_bytes_is_one_zero_word() {
    let key: [u8; 0] = [];
    assert_eq!(expand_key_to_words::<u8, [u8; 0]>(&key), [0]);
    assert_eq!(expand_key_to_words::<u16, [u8; 0]>(&key), [0]);
    assert_eq!(expand_key_to_words::<u32, [u8; 0]>(&key), [0]);
    assert_eq!(expand_key_to_words::<u64, [u8; 0]>(&key), [0]);
    assert_eq!(expand_key_to_words::<u128, [u8; 0]>(&key), [0]);
}

#[test]
fn test_expand_key_that_ends_inside_a_word() {
    let key: [u8; 5] = [1, 2, 3, 4, 5];
    assert_eq!(expand_key_to_words::<u32, [u8; 5]>(&key), [0x04030201, 0x05]);
    assert_eq!(expand_key_to_words::<u16, [u8; 5]>(&key), [0x0201, 0x0403, 0x05]);
    assert_eq!(expand_key_to_words::<u64, [u8; 5]>(&key), [0x0504030201]);
    assert_eq!(expand_key_to_words::<u128, [u8; 5]>(&key), [0x0504030201]);
    let key: [u8; 3] = [0xff, 0xfe, 0xfd];
    assert_eq!(expand_key_to_words::<u32, [u8; 3]>(&key), [0x00fdfeff]);
    let key: [u8; 1] = [0xab];
    assert_eq!(expand_key_to_words::<u128, [u8; 1]>(&key), [0xab]);
}

#[test]
fn test_expand_key_to_u128_words() {
    let key: [u8; 32] = (1..=32).collect::<Vec<_>>().try_into().unwrap();
    assert_eq!(
        expand_key_to_words::<u128, [u8; 32]>(&key),
        [
            0x100f0e0d0c0b0a090807060504030201,
            0x201f1e1d1c1b1a191817161514131211
        ]
    );
}

#[test]
fn test_expand_longest_key() {
    let key: [u8; 255] = [0xff; 255];
    let words = expand_key_to_words::<u64, [u8; 255]>(&key);
    assert_eq!(words.len(), 32);
    assert_eq!(words[0], u64::MAX);
    assert_eq!(words[30], u64::MAX);
    assert_eq!(words[31], 0x00ff_ffff_ffff_ffff);
}

#[test]
fn test_mixin_gives_two_subkeys_per_round_and_two_more() {
    let key: [u8; 16] = [0; 16];
    for rounds in [0u8, 1, 12, 100, 255] {
        assert_eq!(key.mixin::<u8>(rounds).len(), 2 * (rounds as usize + 1));
        assert_eq!(key.mixin::<u32>(rounds).len(), 2 * (rounds as usize + 1));
        assert_eq!(key.mixin::<u128>(rounds).len(), 2 * (rounds as usize + 1));
    }
    let key: [u8; 0] = [];
    assert_eq!(key.mixin::<u64>(0).len(), 2);
    let key: [u8; 255] = [1; 255];
    assert_eq!(key.mixin::<u8>(0).len(), 2);
}

#[test]
fn test_mixin_is_the_same_on_every_call() {
    let key: [u8; 16] = [3; 16];
    assert_eq!(key.mixin::<u32>(12), key.mixin::<u32>(12));
    assert_eq!(key.mixin::<u64>(20), key.mixin::<u64>(20));
}

#[test]
fn test_mixin_without_key_bytes() {
    // One zero key word, mixed by hand: S = [P, P + Q] and L = [0], six steps.
    let key: [u8; 0] = [];
    let mut s: [u8; 2] = [0xb7, 0xb7u8.wrapping_add(0x9f)];
    let mut l: [u8; 1] = [0];
    let (mut a, mut b) = (0u8, 0u8);
    for step in 0..6 {
        a = s[step % 2].wrapping_add(a).wrapping_add(b).rotate_left(3);
        s[step % 2] = a;
        b = l[0]
            .wrapping_add(a)
            .wrapping_add(b)
            .rotate_left((a.wrapping_add(b) % 8) as u32);
        l[0] = b;
    }
    assert_eq!(key.mixin::<u8>(0), s);
}

#[test]
fn test_borrowed_key_is_the_key() {
    let key: [u8; 5] = [1, 2, 3, 4, 5];
    let borrowed = &key;
    assert_eq!(<&[u8; 5] as Key>::SIZE_HINT, 5);
    assert_eq!(Key::secret(&borrowed), [1, 2, 3, 4, 5]);
    assert_eq!(borrowed.mixin::<u32>(3), key.mixin::<u32>(3));
    assert_eq!(
        expand_key_to_words::<u16, &[u8; 5]>(&borrowed),
        expand_key_to_words::<u16, [u8; 5]>(&key)
    );
}
