use heterob::bit_numbering::{
    lsb_split, msb_split, BitField, BitLayout, FromLsb, Lsb, LsbInto, Msb, MsbInto, Packed,
};
use heterob::{Target, Value, WidthError};

const U32: u32 = 0b1111_1111_0101_1010_1100_0011_1000_0001;

fn field(width: usize, target: Target) -> BitField {
    BitField { width, target }
}

fn layout_15_1_2_14() -> BitLayout {
    BitLayout::new(
        32,
        vec![
            field(15, Target::U16),
            field(1, Target::Bool),
            field(2, Target::U8),
            field(14, Target::Skip),
        ],
    )
    .unwrap()
}

#[test]
fn trait_lsb_into_tuple() {
    let layout = layout_15_1_2_14();
    let values: Vec<Value> = Packed::new(U32 as u128, &layout).unwrap().lsb_into();
    assert_eq!(
        vec![Value::U16(0b100_0011_1000_0001), Value::Bool(true), Value::U8(0b10)],
        values
    );
}

#[test]
fn trait_msb_into_tuple() {
    let layout = layout_15_1_2_14();
    let values: Vec<Value> = Packed::new(U32 as u128, &layout).unwrap().msb_into();
    assert_eq!(
        vec![Value::U16(0b1111_1111_0101_101), Value::Bool(false), Value::U8(0b11)],
        values
    );
}

#[test]
fn struct_lsb_into_tuple() {
    let layout = layout_15_1_2_14();
    let Lsb(values) = Lsb::<Vec<Value>>::decode(Packed::new(U32 as u128, &layout).unwrap());
    assert_eq!(
        vec![Value::U16(0b100_0011_1000_0001), Value::Bool(true), Value::U8(0b10)],
        values
    );
}

#[test]
fn struct_msb_into_tuple() {
    let layout = layout_15_1_2_14();
    let Msb(values) = Msb::<Vec<Value>>::decode(Packed::new(U32 as u128, &layout).unwrap());
    assert_eq!(
        vec![Value::U16(0b1111_1111_0101_101), Value::Bool(false), Value::U8(0b11)],
        values
    );
}

#[test]
fn lsb_first_field_takes_lowest_bits() {
    let data: u16 = 0b1111_0000_1100_1010;
    let layout = BitLayout::new(
        16,
        vec![field(7, Target::U64), field(1, Target::Bool), field(8, Target::U8)],
    )
    .unwrap();
    let values: Vec<Value> = Packed::new(data as u128, &layout).unwrap().lsb_into();
    assert_eq!(vec![Value::U64(0b100_1010), Value::Bool(true), Value::U8(0xF0)], values);
}

#[test]
fn msb_first_field_takes_highest_bits() {
    let data: u16 = 0b1011_0000_0000_1011;
    let layout = BitLayout::new(
        16,
        vec![field(4, Target::U16), field(10, Target::U32), field(2, Target::U64)],
    )
    .unwrap();
    let values: Vec<Value> = Packed::new(data as u128, &layout).unwrap().msb_into();
    assert_eq!(vec![Value::U16(11), Value::U32(2), Value::U64(3)], values);
}

#[test]
fn skipped_bits_give_no_value() {
    let data: u16 = 0b1111_0000_0000_1011;
    let layout = BitLayout::new(
        16,
        vec![field(4, Target::U8), field(11, Target::Skip), field(1, Target::Bool)],
    )
    .unwrap();
    let values: Vec<Value> = Packed::new(data as u128, &layout).unwrap().lsb_into();
    assert_eq!(vec![Value::U8(0b1011), Value::Bool(true)], values);

    // The same widths with every field kept read the same bits.
    let kept = BitLayout::new(
        16,
        vec![field(4, Target::U8), field(11, Target::U16), field(1, Target::Bool)],
    )
    .unwrap();
    let all: Vec<Value> = Packed::new(data as u128, &kept).unwrap().lsb_into();
    assert_eq!(
        vec![Value::U8(0b1011), Value::U16(0b111_0000_0000), Value::Bool(true)],
        all
    );
}

#[test]
fn raw_fields_compose_back() {
    let value: u128 = 0xDEAD_BEEF_0123_4567_89AB_CDEF_FEDC_BA98;
    let layout = BitLayout::new(
        128,
        vec![
            field(1, Target::U128),
            field(63, Target::U128),
            field(60, Target::U128),
            field(4, Target::U128),
        ],
    )
    .unwrap();
    let lsb: Vec<u128> = FromLsb::from_lsb(Packed::new(value, &layout).unwrap());
    let composed = lsb[0] | lsb[1] << 1 | lsb[2] << 64 | lsb[3] << 124;
    assert_eq!(value, composed);
    let msb: Vec<u128> = Packed::new(value, &layout).unwrap().msb_into();
    let composed = msb[0] << 127 | msb[1] << 64 | msb[2] << 4 | msb[3];
    assert_eq!(value, composed);
}

#[test]
fn full_width_field() {
    let layout = BitLayout::new(128, vec![field(128, Target::U128)]).unwrap();
    let lsb: Vec<Value> = Packed::new(u128::MAX, &layout).unwrap().lsb_into();
    assert_eq!(vec![Value::U128(u128::MAX)], lsb);
    let msb: Vec<Value> = Packed::new(u128::MAX, &layout).unwrap().msb_into();
    assert_eq!(vec![Value::U128(u128::MAX)], msb);
}

#[test]
fn narrowing_keeps_low_bits() {
    let layout = BitLayout::new(
        16,
        vec![field(12, Target::U8), field(4, Target::Bool)],
    )
    .unwrap();
    let values: Vec<Value> = Packed::new(0x0ABC, &layout).unwrap().lsb_into();
    assert_eq!(vec![Value::U8(0xBC), Value::Bool(false)], values);
}

#[test]
fn width_mismatch_is_refused() {
    let fields = |last: usize| {
        vec![field(7, Target::U8), field(1, Target::Bool), field(last, Target::U8)]
    };
    assert_eq!(Some(WidthError::SumMismatch), BitLayout::new(16, fields(7)).err());
    assert_eq!(Some(WidthError::SumMismatch), BitLayout::new(16, fields(9)).err());
    assert!(BitLayout::new(16, fields(8)).is_ok());
    assert_eq!(Some(WidthError::ZeroWidth), BitLayout::new(16, fields(0)).err());
    assert_eq!(
        Some(WidthError::SourceTooWide),
        BitLayout::new(129, vec![field(129, Target::U128)]).err()
    );
}

#[test]
fn value_wider_than_layout_is_refused() {
    let layout = BitLayout::new(8, vec![field(8, Target::U8)]).unwrap();
    assert_eq!(Some(WidthError::ValueTooWide), Packed::new(0x100, &layout).err());
    assert!(Packed::new(0xFF, &layout).is_ok());
}

#[test]
fn split_at_bit_position() {
    const DATA: u128 = 0b1111_1111_0101_1010_1100_0011_1000_0001;
    assert_eq!((0b1_1000_0001, 0b1111_1111_0101_1010_1100_001), lsb_split(DATA, 9));
    let (a, b) = msb_split(DATA, 32, 9);
    assert_eq!((0b1111_1111_0, 0b101_1010_1100_0011_1000_0001 << 9), (a, b));
    assert_eq!((DATA, 0), lsb_split(DATA, 128));
    assert_eq!((0, DATA), msb_split(DATA, 32, 0));
}
