use jam::internal;
use jam::object::Field;
use jam::rt;
use jam::ArrayV;

#[test]
fn internal_slices() {
    let buf = vec![1u8, 2, 3, 4, 5];
    assert_eq!(internal::get_slice(&buf, 1, 3), &[2, 3, 4]);
    assert_eq!(internal::get_slice(&buf, 5, 0), &[] as &[u8]);
    let mut rest: &[u8] = &buf;
    let head = internal::pop_slice(&mut rest, 2);
    assert_eq!(head, &[1, 2]);
    assert_eq!(rest, &[3, 4, 5]);
}

#[test]
fn internal_bytes_cursor() {
    let mut buf = vec![0u8; 6];
    let mut ofs = 1usize;
    internal::set_bytes(&mut buf, &mut ofs, &[9, 8, 7]);
    assert_eq!(ofs, 4);
    assert_eq!(buf, vec![0, 9, 8, 7, 0, 0]);
    let mut ofs = 2usize;
    assert_eq!(internal::get_bytes(&buf, &mut ofs, 3), &[8, 7, 0]);
    assert_eq!(ofs, 5);
}

#[test]
fn internal_values() {
    let mut buf = vec![0u8; 7];
    let mut ofs = 0usize;
    internal::set_value(&mut buf, &mut ofs, (true, 0x0102u16));
    internal::set_value(&mut buf, &mut ofs, Some(0x33u8));
    assert_eq!(ofs, 5);
    assert_eq!(buf, vec![1, 2, 1, 1, 0x33, 0, 0]);
    let mut ofs = 0usize;
    let a: (bool, u16) = internal::get_value(&buf, &mut ofs);
    let b: Option<u8> = internal::get_value(&buf, &mut ofs);
    assert_eq!((a, b), ((true, 0x0102), Some(0x33)));
    assert_eq!(ofs, 5);
    let c: u16 = internal::get_field(&buf, 1);
    assert_eq!(c, 0x0102);
}

#[test]
fn rt_slices() {
    let mut buf = vec![1u8, 2, 3, 4, 5, 6];
    assert_eq!(rt::get_slice(&buf, 2, 4), &[3, 4]);
    {
        let m = rt::get_slice_mut(&mut buf, 1, 3);
        m[0] = 20;
        m[1] = 30;
    }
    assert_eq!(buf, vec![1, 20, 30, 4, 5, 6]);
    let mut rest: &[u8] = &buf;
    assert_eq!(rt::pop_slice(&mut rest, 4), &[1, 20, 30, 4]);
    assert_eq!(rest, &[5, 6]);
}

#[test]
fn rt_pop_slice_mut_splits_for_writing() {
    let mut buf = vec![1u8, 2, 3, 4];
    {
        let mut rest: &mut [u8] = &mut buf;
        let head = rt::pop_slice_mut(&mut rest, 1);
        head[0] = 10;
        rest[0] = 20;
        assert_eq!(rest.len(), 3);
    }
    assert_eq!(buf, vec![10, 20, 3, 4]);
}

#[test]
fn rt_arrays() {
    let mut buf = vec![1u8, 2, 3, 4, 5, 6];
    let a: &[u8; 3] = rt::get_array(&buf, 2);
    assert_eq!(a, &[3, 4, 5]);
    {
        let m: &mut [u8; 2] = rt::get_array_mut(&mut buf, 4);
        *m = [50, 60];
    }
    assert_eq!(buf, vec![1, 2, 3, 4, 50, 60]);
}

#[test]
fn rt_bytes_cursor() {
    let mut buf = vec![0u8; 5];
    let mut ofs = 1u32;
    rt::set_bytes(&mut buf, &mut ofs, [7u8, 8]);
    assert_eq!(ofs, 3);
    assert_eq!(buf, vec![0, 7, 8, 0, 0]);
    let mut ofs = 0u32;
    let got: [u8; 4] = rt::get_bytes(&buf, &mut ofs);
    assert_eq!(got, [0, 7, 8, 0]);
    assert_eq!(ofs, 4);
}

#[test]
fn rt_values() {
    let buf = vec![0u8, 0x78, 0x56, 0x34, 0x12, 1, 0x10];
    assert_eq!(rt::get_u32(&buf, 1), 0x1234_5678);
    let mut ofs = 5u32;
    let v: Option<u8> = rt::get_value(&buf, &mut ofs);
    assert_eq!(v, Some(0x10));
    assert_eq!(ofs, 7);
    let mut ofs = 0u32;
    let w: (u8, u32) = rt::get_value(&buf, &mut ofs);
    assert_eq!(w, (0, 0x1234_5678));
    assert_eq!(ofs, 5);
}

#[test]
fn rt_objects() {
    let buf = vec![9u8, 1, 0, 2, 0, 9];
    let a: ArrayV<u16> = rt::get_object(&buf, 1, 5);
    assert_eq!(a.len(), 2);
    assert_eq!(a.get(1), 2);
    let f: Field<u16> = rt::get_object(&buf, 3, 5);
    assert_eq!(f.get(), 2);
}

#[test]
fn rt_sizes() {
    assert_eq!(rt::size_of_value::<u64>(), 8);
    assert_eq!(rt::size_of_value::<Result<u8, (u32, u16)>>(), 7);
    assert_eq!(rt::size_of_object::<Field<(u32, bool)>>(), 5);
}
