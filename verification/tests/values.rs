use jam::internal::stride_of;
use jam::value::max;
use jam::Value;

#[test]
fn u8_write_then_read() {
    let mut buf = vec![9u8; 3];
    let mut ofs = 1usize;
    u8::set(&mut buf, &mut ofs, 0xab);
    assert_eq!(ofs, 2);
    assert_eq!(buf, vec![9, 0xab, 9]);
    let mut ofs = 1usize;
    assert_eq!(u8::get(&buf, &mut ofs), 0xab);
    assert_eq!(ofs, 2);
}

#[test]
fn u16_is_little_endian() {
    let mut buf = vec![0u8; 4];
    let mut ofs = 1usize;
    u16::set(&mut buf, &mut ofs, 0xbeef);
    assert_eq!(ofs, 3);
    assert_eq!(buf, vec![0, 0xef, 0xbe, 0]);
    let mut ofs = 1usize;
    assert_eq!(u16::get(&buf, &mut ofs), 0xbeef);
    assert_eq!(ofs, 3);
}

#[test]
fn u32_write_then_read() {
    let mut buf = vec![0u8; 8];
    let mut ofs = 2usize;
    u32::set(&mut buf, &mut ofs, 0x1234_5678);
    assert_eq!(ofs, 6);
    assert_eq!(buf, vec![0, 0, 0x78, 0x56, 0x34, 0x12, 0, 0]);
    let mut ofs = 2usize;
    assert_eq!(u32::get(&buf, &mut ofs), 0x1234_5678);
    assert_eq!(ofs, 6);
}

#[test]
fn u64_write_then_read() {
    let mut buf = vec![0xffu8; 9];
    let mut ofs = 0usize;
    u64::set(&mut buf, &mut ofs, 0x0102_0304_0506_0708);
    assert_eq!(ofs, 8);
    assert_eq!(buf, vec![8, 7, 6, 5, 4, 3, 2, 1, 0xff]);
    let mut ofs = 0usize;
    assert_eq!(u64::get(&buf, &mut ofs), 0x0102_0304_0506_0708);
    assert_eq!(ofs, 8);
}

#[test]
fn bool_reads_any_nonzero_byte_as_true() {
    let buf = vec![0u8, 1, 2, 0xff];
    let got: Vec<bool> = (0..4)
        .map(|i| {
            let mut ofs = i;
            bool::get(&buf, &mut ofs)
        })
        .collect();
    assert_eq!(got, vec![false, true, true, true]);
}

#[test]
fn bool_writes_one_or_zero() {
    let mut buf = vec![7u8; 2];
    let mut ofs = 0usize;
    bool::set(&mut buf, &mut ofs, true);
    bool::set(&mut buf, &mut ofs, false);
    assert_eq!(ofs, 2);
    assert_eq!(buf, vec![1, 0]);
}

#[test]
fn option_none_writes_only_its_tag() {
    let mut buf = vec![0xaau8; 6];
    let mut ofs = 0usize;
    <Option<u32>>::set(&mut buf, &mut ofs, None);
    assert_eq!(ofs, 1);
    assert_eq!(buf, vec![0, 0xaa, 0xaa, 0xaa, 0xaa, 0xaa]);
    let mut ofs = 0usize;
    assert_eq!(<Option<u32>>::get(&buf, &mut ofs), None);
    assert_eq!(ofs, 1);
}

#[test]
fn option_some_writes_tag_and_value() {
    let mut buf = vec![0u8; 5];
    let mut ofs = 0usize;
    <Option<u32>>::set(&mut buf, &mut ofs, Some(7));
    assert_eq!(ofs, 5);
    assert_eq!(buf, vec![1, 7, 0, 0, 0]);
    let mut ofs = 0usize;
    assert_eq!(<Option<u32>>::get(&buf, &mut ofs), Some(7));
    assert_eq!(ofs, 5);
}

#[test]
fn option_reads_any_nonzero_tag_as_some() {
    let buf = vec![5u8, 0x34, 0x12];
    let mut ofs = 0usize;
    assert_eq!(<Option<u16>>::get(&buf, &mut ofs), Some(0x1234));
    assert_eq!(ofs, 3);
}

#[test]
fn result_ok_and_err() {
    let mut buf = vec![0u8; 9];
    let mut ofs = 0usize;
    <Result<u16, u64>>::set(&mut buf, &mut ofs, Ok(0x0201));
    assert_eq!(ofs, 3);
    assert_eq!(&buf[..3], &[0, 1, 2]);
    let mut ofs = 0usize;
    assert_eq!(<Result<u16, u64>>::get(&buf, &mut ofs), Ok(0x0201));
    assert_eq!(ofs, 3);

    let mut ofs = 0usize;
    <Result<u16, u64>>::set(&mut buf, &mut ofs, Err(9));
    assert_eq!(ofs, 9);
    assert_eq!(buf, vec![1, 9, 0, 0, 0, 0, 0, 0, 0]);
    let mut ofs = 0usize;
    assert_eq!(<Result<u16, u64>>::get(&buf, &mut ofs), Err(9));
    assert_eq!(ofs, 9);
}

#[test]
fn pair_is_first_then_second() {
    let mut buf = vec![0u8; 5];
    let mut ofs = 0usize;
    <(u8, u32)>::set(&mut buf, &mut ofs, (3, 0x0a0b0c0d));
    assert_eq!(ofs, 5);
    assert_eq!(buf, vec![3, 0x0d, 0x0c, 0x0b, 0x0a]);
    let mut ofs = 0usize;
    assert_eq!(<(u8, u32)>::get(&buf, &mut ofs), (3, 0x0a0b0c0d));
    assert_eq!(ofs, 5);
}

#[test]
fn pair_after_none_reads_right_behind_the_tag() {
    let buf = vec![0u8, 0x22, 0x11, 0xff, 0xff];
    let mut ofs = 0usize;
    let v = <(Option<u16>, u16)>::get(&buf, &mut ofs);
    assert_eq!(v, (None, 0x1122));
    assert_eq!(ofs, 3);
}

#[test]
fn write_leaves_the_other_slots() {
    let mut buf = vec![1u8, 2, 3, 4, 5, 6];
    let mut ofs = 2usize;
    u16::set(&mut buf, &mut ofs, 0);
    assert_eq!(buf, vec![1, 2, 0, 0, 5, 6]);
    let mut a = 0usize;
    let mut b = 4usize;
    assert_eq!(u16::get(&buf, &mut a), 0x0201);
    assert_eq!(u16::get(&buf, &mut b), 0x0605);
}

#[test]
fn strides() {
    assert_eq!(u8::stride(), 1);
    assert_eq!(u16::stride(), 2);
    assert_eq!(u32::stride(), 4);
    assert_eq!(u64::stride(), 8);
    assert_eq!(bool::stride(), 1);
    assert_eq!(<Option<u32>>::stride(), 5);
    assert_eq!(<Result<u16, u64>>::stride(), 9);
    assert_eq!(<Result<u64, u8>>::stride(), 9);
    assert_eq!(<(u8, u32)>::stride(), 5);
    assert_eq!(<(Option<u8>, (u16, bool))>::stride(), 5);
    assert_eq!(stride_of::<(u64, Option<u64>)>(), 17);
}

#[test]
fn max_of_two() {
    assert_eq!(max(3, 5), 5);
    assert_eq!(max(5, 3), 5);
    assert_eq!(max(4, 4), 4);
    assert_eq!(max(0, 1), 1);
}

#[test]
fn array_of_u16_is_its_elements_in_order() {
    let mut buf = vec![0u8; 7];
    let mut ofs = 1usize;
    <[u16; 3]>::set(&mut buf, &mut ofs, [1, 0x0203, 0xffff]);
    assert_eq!(ofs, 7);
    assert_eq!(buf, vec![0, 1, 0, 3, 2, 0xff, 0xff]);
    let mut ofs = 1usize;
    assert_eq!(<[u16; 3]>::get(&buf, &mut ofs), [1, 0x0203, 0xffff]);
    assert_eq!(ofs, 7);
    assert_eq!(<[u16; 3]>::stride(), 6);
}

#[test]
fn array_of_options_packs_what_each_element_uses() {
    let mut buf = vec![0xaau8; 6];
    let mut ofs = 0usize;
    <[Option<u16>; 2]>::set(&mut buf, &mut ofs, [None, Some(0x0102)]);
    assert_eq!(ofs, 4);
    assert_eq!(buf, vec![0, 1, 2, 1, 0xaa, 0xaa]);
    let mut ofs = 0usize;
    assert_eq!(<[Option<u16>; 2]>::get(&buf, &mut ofs), [None, Some(0x0102)]);
    assert_eq!(ofs, 4);
    assert_eq!(<[Option<u16>; 2]>::stride(), 6);
}

#[test]
fn empty_array_value_uses_no_bytes() {
    let mut buf = vec![5u8; 1];
    let mut ofs = 1usize;
    <[u64; 0]>::set(&mut buf, &mut ofs, []);
    assert_eq!(ofs, 1);
    assert_eq!(buf, vec![5]);
    assert_eq!(<[u64; 0]>::get(&buf, &mut ofs), []);
    assert_eq!(ofs, 1);
    assert_eq!(<[u64; 0]>::stride(), 0);
}
