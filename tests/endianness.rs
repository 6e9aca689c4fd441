use heterob::endianness::{
    be_bytes_fields, le_bytes_fields, try_be_bytes_fields, try_le_bytes_fields, Be, BeBytesInto, BeBytesTryInto, FromBeBytes, FromLeBytes,
    Le, LeBytesInto, LeBytesTryInto, TryFromBeBytes, TryFromLeBytes,
};
use heterob::{Layout, Sequence};

const DATA: [u8; 31] = [
    0x00, 0x11, 0x22, 0x33, 0x44, 0x55, 0x66, 0x77, 0x88, 0x99, 0xAA, 0xBB, 0xCC, 0xDD, 0xEE,
    0xFF, 0x00, 0x11, 0x22, 0x33, 0x44, 0x55, 0x66, 0x77, 0x88, 0x99, 0xAA, 0xBB, 0xCC, 0xDD,
    0xEE,
];

#[test]
fn le_bytes_into_integer_array() {
    let data: [u8; 16] = DATA[..16].try_into().unwrap();

    let result: [u8; 16] = data.le_bytes_into();
    assert_eq!(data, result, "[u8;16]");

    let result: [u16; 8] = data.le_bytes_into();
    let sample = [
        0x1100, 0x3322, 0x5544, 0x7766, 0x9988, 0xBBAA, 0xDDCC, 0xFFEE,
    ];
    assert_eq!(sample, result, "[u16;8]");

    let result: [u32; 4] = data.le_bytes_into();
    let sample = [0x33221100, 0x77665544, 0xBBAA9988, 0xFFEEDDCC];
    assert_eq!(sample, result, "[u32;4]");

    let result: [u64; 2] = data.le_bytes_into();
    let sample = [0x7766554433221100, 0xFFEEDDCCBBAA9988];
    assert_eq!(sample, result, "[u64;2]");

    let result: [u128; 1] = data.le_bytes_into();
    let sample = [0xFFEEDDCCBBAA99887766554433221100];
    assert_eq!(sample, result, "[u128;1]");
}

#[test]
fn be_bytes_into_integer_array() {
    let data: [u8; 16] = DATA[..16].try_into().unwrap();

    let result: [u8; 16] = data.be_bytes_into();
    assert_eq!(data, result, "[u8;16]");

    let result: [u16; 8] = data.be_bytes_into();
    let sample = [
        0x0011, 0x2233, 0x4455, 0x6677, 0x8899, 0xAABB, 0xCCDD, 0xEEFF,
    ];
    assert_eq!(sample, result, "[u16;8]");

    let result: [u32; 4] = data.be_bytes_into();
    let sample = [0x00112233, 0x44556677, 0x8899AABB, 0xCCDDEEFF];
    assert_eq!(sample, result, "[u32;4]");

    let result: [u64; 2] = data.be_bytes_into();
    let sample = [0x0011223344556677, 0x8899AABBCCDDEEFF];
    assert_eq!(sample, result, "[u64;2]");

    let result: [u128; 1] = data.be_bytes_into();
    let sample = [0x00112233445566778899AABBCCDDEEFF];
    assert_eq!(sample, result, "[u128;1]");
}

#[test]
fn into_le_integer_array_wrapper() {
    let data: [u8; 16] = DATA[..16].try_into().unwrap();

    let result: Le<[u8; 16]> = Le::decode(data);
    assert_eq!(data, result.0, "Le<[u8;16]>");

    let result: Le<[u16; 8]> = Le::decode(data);
    let sample = [
        0x1100u16, 0x3322, 0x5544, 0x7766, 0x9988, 0xBBAA, 0xDDCC, 0xFFEE,
    ];
    assert_eq!(sample, result.0, "Le<[u16;8]>");

    let result: Le<[u32; 4]> = Le::decode(data);
    let sample = [0x33221100, 0x77665544, 0xBBAA9988, 0xFFEEDDCC];
    assert_eq!(sample, result.0, "Le<[u32;4]>");

    let result: Le<[u64; 2]> = Le::decode(data);
    let sample = [0x7766554433221100, 0xFFEEDDCCBBAA9988];
    assert_eq!(sample, result.0, "Le<[u64;2]>");

    let result: Le<[u128; 1]> = Le::decode(data);
    let sample = [0xFFEEDDCCBBAA99887766554433221100];
    assert_eq!(sample, result.0, "Le<[u128;1]>");
}

#[test]
fn into_mixed_integers() {
    let data: [u8; 8] = DATA[..8].try_into().unwrap();
    let Sequence { head: a, tail } = Sequence::<[u8; 2], _>::try_from_slice(&data[..]).unwrap();
    let Sequence { head: b, tail } = Sequence::<[u8; 4], _>::try_from_slice(tail).unwrap();
    let Sequence { head: c, .. } = Sequence::<[u8; 2], _>::try_from_slice(tail).unwrap();
    let (Be(a), Le(b)) = (Be::decode(a), Le::decode(b));
    let _: (u16, u32, [u8; 2]) = (a, b, c);

    let sample = (0x0011, 0x55443322, [0x66, 0x77]);
    assert_eq!(sample, (a, b, c), "mixed integers");
}

#[test]
fn into_mixed_arrays() {
    let data: [u8; 8] = DATA[..8].try_into().unwrap();
    let Sequence { head: a, tail } = Sequence::<[u8; 4], _>::try_from_slice(&data[..]).unwrap();
    let Sequence { head: b, .. } = Sequence::<[u8; 4], _>::try_from_slice(tail).unwrap();
    let (Be(a), Le(b)) = (Be::decode(a), Le::decode(b));
    let _: ([u16; 2], [u32; 1]) = (a, b);

    let sample = ([0x0011, 0x2233], [0x77665544]);
    assert_eq!(sample, (a, b), "mixed arrays");
}

#[test]
fn into_tupled_integers() {
    let Sequence { head: a, tail } = u8::try_from_le_bytes(&DATA[..]).unwrap();
    let Sequence { head: b, tail } = u16::try_from_le_bytes(tail).unwrap();
    let Sequence { head: c, tail } = u32::try_from_le_bytes(tail).unwrap();
    let Sequence { head: d, tail } = u64::try_from_le_bytes(tail).unwrap();
    let Sequence { head: e, tail } = u128::try_from_le_bytes(tail).unwrap();
    assert!(tail.is_empty());
    let sample = (
        0x00,
        0x2211,
        0x66554433,
        0xEEDDCCBBAA998877,
        0xEEDDCCBBAA99887766554433221100FF,
    );
    assert_eq!(sample, (a, b, c, d, e), "u8 .. u128");

    let result: Le<usize> = Le::decode(0x1234usize.to_le_bytes());
    assert_eq!(0x1234usize, result.0, "usize");
}

#[test]
fn destructuring() {
    let Sequence { head, tail } = Sequence::<[u8; 2], _>::try_from_slice(&DATA[..]).unwrap();
    let Sequence { head: data, tail } = Sequence::<[u8; 29], _>::try_from_slice(tail).unwrap();
    if let (Le(0x1100u16), true) = (Le::decode(head), tail.is_empty()) {
        let _: [u8; 29] = data;
    } else {
        panic!();
    }
}

#[test]
fn le_bytes_into_mixed_integers() {
    let data: [u8; 8] = DATA[..8].try_into().unwrap();
    let Sequence { head: a, tail } = Sequence::<[u8; 2], _>::try_from_slice(&data[..]).unwrap();
    let Sequence { head: b, tail } = Sequence::<[u8; 4], _>::try_from_slice(tail).unwrap();
    let Sequence { head: c, .. } = Sequence::<[u8; 2], _>::try_from_slice(tail).unwrap();
    let (a, b, c): (u16, u32, [u8; 2]) = (a.le_bytes_into(), b.le_bytes_into(), c.le_bytes_into());

    let sample = (0x1100, 0x55443322, [0x66, 0x77]);
    assert_eq!(sample, (a, b, c), "mixed integers");
}

#[test]
fn word_order_of_two_bytes() {
    let word: u16 = [0x11, 0x22].le_bytes_into();
    assert_eq!(0x2211, word);
    let word: u16 = [0x11, 0x22].be_bytes_into();
    assert_eq!(0x1122, word);
    let Le(word) = Le::<u16>::decode([0x11, 0x22]);
    assert_eq!(0x2211, word);
    let byte: u8 = [0xAB].be_bytes_into();
    assert_eq!(0xAB, byte);
}

#[test]
fn fields_by_byte_widths() {
    let bytes = [0x00, 0x11, 0x22, 0x33, 0x44, 0x55];
    let layout = Layout::new(5, vec![1, 2, 2]).unwrap();
    assert_eq!(vec![0x00, 0x2211, 0x4433], le_bytes_fields(&bytes[..5], &layout));
    assert_eq!(vec![0x00, 0x1122, 0x3344], be_bytes_fields(&bytes[..5], &layout));
    let layout = Layout::new(6, vec![2, 4]).unwrap();
    assert_eq!(vec![0x1100, 0x55443322], le_bytes_fields(&bytes, &layout));
}

#[test]
fn short_trailing_word_reads_zero() {
    let result: [u16; 3] = [0x00, 0x11, 0x22, 0x33, 0x44].le_bytes_into();
    assert_eq!([0x1100, 0x3322, 0], result);
}

#[test]
fn try_from_bytes_keeps_the_tail() {
    let data = [0x00, 0x11, 0x22, 0x33, 0x44, 0x55];
    let Sequence { head, tail } = u32::try_from_le_bytes(&data[..]).unwrap();
    assert_eq!(0x33221100, head);
    let Sequence { head, .. } = u16::try_from_be_bytes(tail).unwrap();
    assert_eq!(0x4455, head);
    let result: Sequence<[u16; 2], &[u8]> =
        LeBytesTryInto::<'_, [u16; 2], 4>::le_bytes_try_into(&data[..]).unwrap();
    assert_eq!([0x1100, 0x3322], result.head);
    assert_eq!(&[0x44, 0x55][..], result.tail);
    let result: Sequence<u32, &[u8]> = (&data[2..]).be_bytes_try_into().unwrap();
    assert_eq!(0x22334455, result.head);
    assert!(result.tail.is_empty());
    assert!(u64::try_from_le_bytes(&data[..]).is_err());
    assert!(<[u8; 7]>::try_from_be_bytes(&data[..]).is_err());
}

#[test]
fn from_bytes_trait_calls() {
    assert_eq!(0x7766554433221100u64, <u64 as FromLeBytes<8>>::from_le_bytes(DATA[..8].try_into().unwrap()));
    assert_eq!(0x0011223344556677u64, <u64 as FromBeBytes<8>>::from_be_bytes(DATA[..8].try_into().unwrap()));
    assert_eq!(
        0x0011223344556677usize,
        <usize as FromBeBytes<8>>::from_be_bytes(DATA[..8].try_into().unwrap())
    );
}

#[test]
fn fields_from_longer_slice_keep_the_tail() {
    let bytes = [0x00, 0x11, 0x22, 0x33, 0x44, 0x55];
    let layout = Layout::new(5, vec![1, 2, 2]).unwrap();
    let Sequence { head, tail } = try_le_bytes_fields(&bytes, &layout).unwrap();
    assert_eq!(vec![0x00, 0x2211, 0x4433], head);
    assert_eq!(&[0x55][..], tail);
    let Sequence { head, tail } = try_be_bytes_fields(&bytes[1..], &layout).unwrap();
    assert_eq!(vec![0x11, 0x2233, 0x4455], head);
    assert!(tail.is_empty());
    assert!(try_le_bytes_fields(&bytes[2..], &layout).is_err());
}
