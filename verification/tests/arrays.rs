use jam::array::IterArrayO;
use jam::array::IterArrayV;
use jam::ArrayI;
use jam::ArrayO;
use jam::ArrayV;
use jam::Object;
use jam::object::Field;
use jam::Value;

fn collect_v<T: Value>(mut it: IterArrayV<'_, T>) -> Vec<T> {
    let mut out = Vec::new();
    while let Some(x) = it.next() {
        out.push(x);
    }
    out
}

#[test]
fn array_of_u16() {
    let buf = vec![1u8, 0, 2, 0, 0x34, 0x12];
    let a: ArrayV<u16> = ArrayV::new(&buf);
    assert!(!a.is_empty());
    assert_eq!(a.len(), 3);
    assert_eq!(a.get(0), 1);
    assert_eq!(a.get(1), 2);
    assert_eq!(a.get(2), 0x1234);
    assert_eq!(a.get_unchecked(2), 0x1234);
    assert_eq!(collect_v(a.iter()), vec![1, 2, 0x1234]);
}

#[test]
fn empty_array() {
    let buf: Vec<u8> = Vec::new();
    let a: ArrayV<u32> = ArrayV::new(&buf);
    assert!(a.is_empty());
    assert_eq!(a.len(), 0);
    let mut it = a.iter();
    assert_eq!(it.next(), None);
    assert_eq!(it.next(), None);
}

#[test]
fn array_of_options_uses_whole_slots() {
    // slots of 3 bytes: None, Some(0x0102), Some(0)
    let buf = vec![0u8, 0xee, 0xee, 1, 2, 1, 9, 0, 0];
    let a: ArrayV<Option<u16>> = ArrayV::new(&buf);
    assert_eq!(a.len(), 3);
    assert_eq!(a.get(0), None);
    assert_eq!(a.get(1), Some(0x0102));
    assert_eq!(a.get(2), Some(0));
    assert_eq!(collect_v(a.iter()), vec![None, Some(0x0102), Some(0)]);
}

#[test]
fn iteration_matches_indexing() {
    let buf: Vec<u8> = (0u8..40).collect();
    let a: ArrayV<(u8, u32)> = ArrayV::new(&buf);
    assert_eq!(a.len(), 8);
    let by_index: Vec<(u8, u32)> = (0..a.len()).map(|i| a.get(i)).collect();
    assert_eq!(collect_v(a.iter()), by_index);
    assert_eq!(by_index[1], (5, u32::from_le_bytes([6, 7, 8, 9])));
}

#[test]
fn iterator_takes_one_value_at_a_time() {
    let buf = vec![1u8, 2, 3];
    let a: ArrayV<u8> = ArrayV::new(&buf);
    let mut it = a.iter();
    assert_eq!(it.next(), Some(1));
    assert_eq!(collect_v(it), vec![2, 3]);
}

#[test]
fn array_as_child_object() {
    let buf = vec![0xffu8, 5, 0, 6, 0, 0xff];
    let a: ArrayV<u16> = jam::internal::get_child(&buf, 1, 4);
    assert_eq!(a.len(), 2);
    assert_eq!(a.get(1), 6);
}

#[test]
fn array_of_records() {
    let buf = vec![1u8, 0, 2, 0, 3, 0, 4, 0];
    let a: ArrayO<Field<(u16, u16)>> = ArrayO::new(&buf);
    assert!(!a.is_empty());
    assert_eq!(a.len(), 2);
    assert_eq!(a.get(0).get(), (1, 2));
    assert_eq!(a.get_unchecked(1).get(), (3, 4));
    let mut it: IterArrayO<Field<(u16, u16)>> = a.iter();
    let mut xs = Vec::new();
    while let Some(p) = it.next() {
        xs.push(p.get());
    }
    assert_eq!(xs, vec![(1, 2), (3, 4)]);
    assert!(it.next().is_none());
}

#[test]
fn empty_array_of_records() {
    let buf: Vec<u8> = Vec::new();
    let a: ArrayO<Field<u32>> = ArrayO::new(&buf);
    assert!(a.is_empty());
    assert_eq!(a.len(), 0);
    assert!(a.iter().next().is_none());
}

#[test]
fn array_of_two_byte_records_over_a_prefix() {
    let buf = vec![7u8, 8, 9];
    let a: ArrayO<Field<(u8, u8)>> = ArrayO::new(&buf[..2]);
    assert_eq!(a.len(), 1);
    assert_eq!(a.get(0).get(), (7, 8));
}

#[test]
fn field_reads_its_value() {
    let buf = vec![0x78u8, 0x56, 0x34, 0x12];
    let f: Field<u32> = Field::new(&buf);
    assert_eq!(f.get(), 0x1234_5678);
}

#[test]
fn indexed_array_counts_from_its_table() {
    // a table of three entries: two objects
    let buf = vec![12u8, 0, 0, 0, 14, 0, 0, 0, 16, 0, 0, 0, 0xa, 0xb, 0xc, 0xd];
    let a: ArrayI<ArrayV<u8>> = ArrayI::new(&buf);
    assert!(!a.is_empty());
    assert_eq!(a.len(), 2);
}

#[test]
fn indexed_array_with_one_entry_is_empty() {
    let buf = vec![4u8, 0, 0, 0];
    let a: ArrayI<ArrayV<u8>> = ArrayI::new(&buf);
    assert!(a.is_empty());
    assert_eq!(a.len(), 0);
}

#[test]
fn indexed_array_table_size_not_a_whole_number_of_entries() {
    let buf = vec![5u8, 0, 0, 0, 0];
    let a: ArrayI<ArrayV<u8>> = ArrayI::new(&buf);
    assert!(!a.is_empty());
    assert_eq!(a.len(), 0);
}

#[test]
fn iterator_ends_after_exactly_len_values_and_stays_ended() {
    let buf = vec![1u8, 0, 0, 0, 2, 0, 0, 0, 3, 0, 0, 0];
    let a: ArrayV<u32> = ArrayV::new(&buf);
    let mut it = a.iter();
    for i in 0..a.len() {
        assert_eq!(it.next(), Some(a.get(i)));
    }
    for _ in 0..3 {
        assert_eq!(it.next(), None);
    }
}

#[test]
fn array_of_arrays() {
    let buf = vec![1u8, 2, 3, 4, 5, 6];
    let a: ArrayV<[u8; 3]> = ArrayV::new(&buf);
    assert_eq!(a.len(), 2);
    assert_eq!(a.get(1), [4, 5, 6]);
    assert_eq!(collect_v(a.iter()), vec![[1, 2, 3], [4, 5, 6]]);
}
