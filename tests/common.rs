use heterob::common::{coerce, coerce_fields, validate_widths};
use heterob::{AsPrimitive, Layout, LengthError, Sequence, Target, Value, WidthError};

#[test]
fn split_array() {
    let chars = ['a', 'b', 'b'];
    let layout = Layout::new(3, vec![1, 2]).unwrap();
    assert_eq!(vec![vec!['a'], vec!['b', 'b']], layout.split(&chars));

    let bytes = [1u8, 2, 2, 3, 3, 3, 3];
    let layout = Layout::new(7, vec![1, 2, 4]).unwrap();
    assert_eq!(vec![vec![1], vec![2, 2], vec![3, 3, 3, 3]], layout.split(&bytes));
}

#[test]
fn slice_try_into_tuple_of_arrays() {
    let bytes = [1u8, 2, 2, 3, 3, 3, 3];
    let Sequence { head: a, tail } = Sequence::<[u8; 1], _>::try_from_slice(&bytes[..]).unwrap();
    let Sequence { head: b, tail } = Sequence::<[u8; 2], _>::try_from_slice(tail).unwrap();
    let Sequence { head: c, .. } = Sequence::<[u8; 3], _>::try_from_slice(tail).unwrap();
    assert_eq!(([1], [2, 2], [3, 3, 3]), (a, b, c));
}

fn arrays_1_2_4(slice: &[u8]) -> Option<Sequence<([u8; 1], [u8; 2], [u8; 4]), &[u8]>> {
    let Sequence { head: a, tail } = Sequence::<[u8; 1], _>::try_from_slice(slice).ok()?;
    let Sequence { head: b, tail } = Sequence::<[u8; 2], _>::try_from_slice(tail).ok()?;
    let Sequence { head: c, tail } = Sequence::<[u8; 4], _>::try_from_slice(tail).ok()?;
    Some(Sequence { head: (a, b, c), tail })
}

#[test]
fn partition_ready_longer_slice_try_into() {
    let bytes = [1u8, 2, 2, 3, 3, 3, 3, 42];
    let layout = Layout::new(7, vec![1, 2, 4]).unwrap();

    let result = layout.try_split(bytes.as_slice()).ok();
    let sample = Some(Sequence {
        head: vec![vec![1], vec![2, 2], vec![3, 3, 3, 3]],
        tail: &bytes[7..],
    });
    assert_eq!(sample, result, "tuple warpper");

    let result = arrays_1_2_4(bytes.as_slice());
    let sample = Some(Sequence {
        head: ([1], [2, 2], [3, 3, 3, 3]),
        tail: &bytes[7..],
    });
    assert_eq!(sample, result, "tuple of arrays");
}

#[test]
fn partition_ready_exact_slice_try_into() {
    let bytes = [1u8, 2, 2, 3, 3, 3, 3];
    let layout = Layout::new(7, vec![1, 2, 4]).unwrap();

    let result = layout.try_split(bytes.as_slice()).ok();
    let sample = Some(Sequence {
        head: vec![vec![1], vec![2, 2], vec![3, 3, 3, 3]],
        tail: [].as_slice(),
    });
    assert_eq!(sample, result, "tuple warpper");

    let result = arrays_1_2_4(bytes.as_slice());
    let sample = Some(Sequence {
        head: ([1], [2, 2], [3, 3, 3, 3]),
        tail: [].as_slice(),
    });
    assert_eq!(sample, result, "tuple of arrays");
}

#[test]
fn partition_ready_shorter_slice_try_into() {
    let bytes = [1u8, 2, 2, 3, 3];
    let layout = Layout::new(6, vec![1, 2, 3]).unwrap();

    let result: Option<Sequence<Vec<Vec<u8>>, &[u8]>> = layout.try_split(bytes.as_slice()).ok();
    let sample = None;
    assert_eq!(sample, result, "slice is shorter");

    let result: Option<Sequence<[u8; 6], &[u8]>> =
        Sequence::try_from_slice(bytes.as_slice()).ok();
    let sample = None;
    assert_eq!(sample, result, "slice is shorter");
}

#[test]
fn head_and_tail_cover_the_slice() {
    let bytes = [1u8, 2, 3, 4, 5];
    let s = Sequence::<[u8; 3], _>::try_from_slice(&bytes[..]).unwrap();
    assert_eq!([1, 2, 3], s.head);
    assert_eq!(&[4, 5][..], s.tail);
    assert_eq!(bytes.len(), s.head.len() + s.tail.len());
    let s = Sequence::<[u8; 0], _>::try_from_slice(&bytes[..]).unwrap();
    assert_eq!(&bytes[..], s.tail);
}

#[test]
fn too_short_slice_fails() {
    let bytes = [1u8, 2];
    assert_eq!(
        Err(LengthError { needed: 3, available: 2 }),
        Sequence::<[u8; 3], _>::try_from_slice(&bytes[..])
    );
    let layout = Layout::new(3, vec![1, 2]).unwrap();
    assert_eq!(
        Some(LengthError { needed: 3, available: 2 }),
        layout.try_split(&bytes[..]).err()
    );
}

#[test]
fn layout_widths_must_cover_the_source() {
    assert_eq!(Some(WidthError::SumMismatch), Layout::new(8, vec![3, 4]).err());
    assert_eq!(Some(WidthError::SumMismatch), Layout::new(8, vec![3, 6]).err());
    assert_eq!(Some(WidthError::ZeroWidth), Layout::new(8, vec![8, 0]).err());
    let layout = Layout::new(8, vec![3, 5]).unwrap();
    assert_eq!(8, layout.total());
    assert_eq!(&vec![3, 5], layout.widths());
}

#[test]
fn coercion_to_each_target() {
    assert_eq!(None, coerce(0x1FF, Target::Skip));
    assert_eq!(Some(Value::Bool(true)), coerce(2, Target::Bool));
    assert_eq!(Some(Value::Bool(false)), coerce(0, Target::Bool));
    assert_eq!(Some(Value::U8(0xFF)), coerce(0x1FF, Target::U8));
    assert_eq!(Some(Value::U16(0x2345)), coerce(0x1_2345, Target::U16));
    assert_eq!(Some(Value::U32(0x89AB_CDEF)), coerce(0x1234_5678_89AB_CDEF, Target::U32));
    assert_eq!(Some(Value::U64(1)), coerce(1 << 64 | 1, Target::U64));
    assert_eq!(Some(Value::U128(u128::MAX)), coerce(u128::MAX, Target::U128));
    let narrow: u16 = 0x1_2345u128.as_primitive();
    assert_eq!(0x2345, narrow);
    let flag: bool = 0x10u128.as_primitive();
    assert!(flag);
}

#[test]
fn coerce_fields_drops_skipped() {
    let raws = vec![1u128, 0x300, 7];
    let targets = vec![Target::Bool, Target::Skip, Target::U8];
    assert_eq!(vec![Value::Bool(true), Value::U8(7)], coerce_fields(&raws, &targets));
}

#[test]
fn validate_widths_against_total() {
    assert_eq!(Ok(()), validate_widths(16, &vec![7, 1, 8]));
    assert_eq!(Err(WidthError::SumMismatch), validate_widths(16, &vec![7, 1, 7]));
    assert_eq!(Err(WidthError::SumMismatch), validate_widths(16, &vec![7, 1, 9]));
    assert_eq!(Err(WidthError::ZeroWidth), validate_widths(16, &vec![16, 0]));
    assert_eq!(Err(WidthError::SumMismatch), validate_widths(1, &vec![usize::MAX, usize::MAX]));
    assert_eq!(Ok(()), validate_widths(0, &vec![]));
}
