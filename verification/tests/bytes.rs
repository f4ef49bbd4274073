use ton_indexer::bytes::{
    bytes_eq, i32_bits, i32_value, i64_bits, i64_value, push_bytes, push_u16_le, push_u32_be,
    push_u32_le, push_u64_be, push_u64_le, read_u16_le, read_u32_be, read_u32_le, read_u64_be,
    read_u64_le,
};
use ton_indexer::package_entry_id::push_decimal;
use ton_indexer::table::{row_delete, row_get, row_put, Table};

#[test]
fn integers_are_written_as_std_writes_them() {
    for x in [0u64, 1, 0xff, 0x0102_0304_0506_0708, u64::MAX, 1 << 63] {
        let mut out = Vec::new();
        push_u64_le(&mut out, x);
        assert_eq!(out, x.to_le_bytes());
        assert_eq!(read_u64_le(&out, 0), x);
        let mut out = vec![9];
        push_u64_be(&mut out, x);
        assert_eq!(&out[1..], &x.to_be_bytes()[..]);
        assert_eq!(read_u64_be(&out, 1), x);

        let y = x as u32;
        let mut out = Vec::new();
        push_u32_le(&mut out, y);
        push_u32_be(&mut out, y);
        assert_eq!(&out[..4], &y.to_le_bytes()[..]);
        assert_eq!(&out[4..], &y.to_be_bytes()[..]);
        assert_eq!(read_u32_le(&out, 0), y);
        assert_eq!(read_u32_be(&out, 4), y);

        let z = x as u16;
        let mut out = Vec::new();
        push_u16_le(&mut out, z);
        assert_eq!(out, z.to_le_bytes());
        assert_eq!(read_u16_le(&out, 0), z);
    }
}

#[test]
fn signed_integers_are_twos_complement() {
    for x in [0i64, 1, -1, i64::MIN, i64::MAX, -2] {
        assert_eq!(i64_bits(x), x as u64);
        assert_eq!(i64_value(x as u64), x);
    }
    for x in [0i32, 1, -1, i32::MIN, i32::MAX] {
        assert_eq!(i32_bits(x), x as u32);
        assert_eq!(i32_value(x as u32), x);
    }
}

#[test]
fn byte_strings() {
    let mut out = vec![1];
    push_bytes(&mut out, &[2, 3]);
    assert_eq!(out, vec![1, 2, 3]);
    assert!(bytes_eq(&out, &[1, 2, 3]));
    assert!(!bytes_eq(&out, &[1, 2, 4]));
    assert!(!bytes_eq(&out, &[1, 2]));
    assert!(bytes_eq(&[], &[]));
}

#[test]
fn decimal_text() {
    for x in [0u64, 7, 10, 99, 100, 1234567890, u64::MAX] {
        let mut out = vec![b'#'];
        push_decimal(&mut out, x);
        assert_eq!(out, format!("#{}", x).into_bytes());
    }
}

#[test]
fn table_keeps_one_row_for_each_key() {
    let mut table: Table<Vec<u8>> = Table::new();
    assert_eq!(table.len(), 0);
    row_put(&mut table, b"a", vec![1]);
    row_put(&mut table, b"b", vec![2]);
    row_put(&mut table, b"a", vec![3]);
    assert_eq!(table.len(), 2);
    assert_eq!(row_get(&table, b"a"), Some(&[3u8][..]));
    assert_eq!(row_get(&table, b"b"), Some(&[2u8][..]));
    assert_eq!(row_get(&table, b"c"), None);
    assert_eq!(table.find(b"b"), Some(1));
    row_delete(&mut table, b"a");
    row_delete(&mut table, b"c");
    assert_eq!(table.len(), 1);
    assert_eq!(row_get(&table, b"a"), None);
    assert_eq!(row_get(&table, b"b"), Some(&[2u8][..]));
    table.replace_at(0, vec![5]);
    assert_eq!(table.get(b"b"), Some(&vec![5]));
    table.remove_at(0);
    assert_eq!(table.len(), 0);
}
