use binview::builder::MutableBinaryViewArray;
use binview::error::Error;
use binview::view::ByteView;
use binview::builder::DataType;

#[test]
fn len_and_total_bytes_track_pushes() {
    let mut b = MutableBinaryViewArray::new();
    b.push_value(b"ab");
    let long = b"a much longer value, out of line";
    b.push_value(long);
    b.push_null();
    b.push(Some(b"xyz".as_slice()));
    b.push(None);
    assert_eq!(b.len(), 5);
    assert_eq!(b.total_bytes_len(), 2 + long.len() as u64 + 0 + 3 + 0);
}

#[test]
fn inline_round_trip_uses_no_arena() {
    let mut b = MutableBinaryViewArray::new();
    b.push_value(b"ab");
    b.push_value(b"exactly12byt");
    assert_eq!(b.value_at(0), b"ab".to_vec());
    assert_eq!(b.value_at(1), b"exactly12byt".to_vec());
    assert_eq!(b.total_buffer_len(), 0);
}

#[test]
fn out_of_line_round_trip_counts_arena_bytes() {
    let mut b = MutableBinaryViewArray::new();
    let v = b"thirteen-byte!".to_vec();
    assert!(v.len() > 12);
    b.push_value(&v);
    assert_eq!(b.value_at(0), v);
    assert_eq!(b.total_buffer_len(), v.len() as u64);
}

#[test]
fn empty_value_is_not_null() {
    let mut b = MutableBinaryViewArray::new();
    b.push_value(b"");
    assert_eq!(b.len(), 1);
    assert!(b.validity().is_none());
    assert_eq!(b.value_at(0), Vec::<u8>::new());
    b.push_null();
    let bm = b.validity().expect("bitmap after a null");
    assert!(bm.get(0));
    assert!(!bm.get(1));
}

#[test]
fn extend_constant_stores_long_value_once() {
    let mut b = MutableBinaryViewArray::new();
    let v = b"a value well over twelve bytes".to_vec();
    b.extend_constant(5, Some(&v));
    assert_eq!(b.len(), 5);
    assert_eq!(b.total_buffer_len(), v.len() as u64);
    assert_eq!(b.total_bytes_len(), 5 * v.len() as u64);
    for i in 0..5 {
        assert_eq!(b.value_at(i), v);
    }
}

#[test]
fn extend_constant_null_marks_every_row() {
    let mut b = MutableBinaryViewArray::new();
    b.push_value(b"x");
    b.extend_constant(3, None);
    assert_eq!(b.len(), 4);
    let bm = b.validity().expect("bitmap after nulls");
    assert!(bm.get(0));
    for i in 1..4 {
        assert!(!bm.get(i));
    }
    assert_eq!(b.total_bytes_len(), 1);
}

#[test]
fn buffer_rotation_keeps_every_value_readable() {
    let mut b = MutableBinaryViewArray::new();
    let first = vec![7u8; 5000];
    let second = vec![9u8; 6000];
    let third = vec![11u8; 20];
    b.push_value(&first);
    b.push_value(&second);
    b.push_value(&third);
    assert_eq!(b.total_buffer_len(), 5000 + 6000 + 20);
    assert_eq!(b.value_at(0), first);
    assert_eq!(b.value_at(1), second);
    assert_eq!(b.value_at(2), third);
    let frozen = b.freeze();
    assert_eq!(frozen.value_at(0), first);
    assert_eq!(frozen.value_at(1), second);
    assert_eq!(frozen.value_at(2), third);
    assert_eq!(frozen.total_buffer_len(), 5000 + 6000 + 20);
}

#[test]
fn push_null_on_empty_builder() {
    let mut b = MutableBinaryViewArray::new();
    b.push_null();
    assert_eq!(b.len(), 1);
    let bm = b.validity().expect("bitmap after a null");
    assert_eq!(bm.len(), 1);
    assert!(!bm.get(0));
}

#[test]
fn extend_null_counts_rows_only() {
    let mut b = MutableBinaryViewArray::new();
    b.extend_null(4);
    assert_eq!(b.len(), 4);
    assert_eq!(b.total_bytes_len(), 0);
    assert_eq!(b.total_buffer_len(), 0);
    let bm = b.validity().expect("bitmap after nulls");
    for i in 0..4 {
        assert!(!bm.get(i));
    }
}

#[test]
fn extend_values_appends_in_order() {
    let mut b = MutableBinaryViewArray::new();
    b.extend_values(&[b"one".to_vec(), b"two".to_vec(), b"a third, much longer value".to_vec()]);
    assert_eq!(b.len(), 3);
    assert_eq!(b.value_at(0), b"one".to_vec());
    assert_eq!(b.value_at(1), b"two".to_vec());
    assert_eq!(b.value_at(2), b"a third, much longer value".to_vec());
    assert!(b.validity().is_none());
}

#[test]
fn extend_mixes_values_and_nulls() {
    let mut b = MutableBinaryViewArray::new();
    b.extend(&[Some(b"v".to_vec()), None, Some(b"w".to_vec())]);
    assert_eq!(b.len(), 3);
    let bm = b.validity().expect("bitmap after a null");
    assert!(bm.get(0));
    assert!(!bm.get(1));
    assert!(bm.get(2));
}

#[test]
fn from_iterator_and_from_agree() {
    let rows = [Some(b"a".to_vec()), None, Some(b"bb".to_vec())];
    let b1 = MutableBinaryViewArray::from_iterator(&rows);
    let b2 = MutableBinaryViewArray::from(&rows);
    assert_eq!(b1.len(), 3);
    assert_eq!(b2.len(), 3);
    assert_eq!(b1.value_at(2), b"bb".to_vec());
    assert_eq!(b2.value_at(2), b"bb".to_vec());
}

#[test]
fn from_values_iter_has_no_bitmap() {
    let b = MutableBinaryViewArray::from_values_iter(&[b"x".to_vec(), b"y".to_vec()]);
    assert_eq!(b.len(), 2);
    assert!(b.validity().is_none());
    assert_eq!(b.total_bytes_len(), 2);
}

#[test]
fn pop_returns_last_element() {
    let mut b = MutableBinaryViewArray::new();
    b.push_value(b"first");
    let second = b"a second value beyond twelve bytes";
    b.push_value(second);
    let popped = b.pop();
    assert_eq!(popped, Some(second.to_vec()));
    assert_eq!(b.len(), 1);
    assert_eq!(b.total_bytes_len(), 5);
    // the arena is append-only: popped out-of-line bytes stay allocated
    assert_eq!(b.total_buffer_len(), second.len() as u64);
    assert_eq!(b.pop(), Some(b"first".to_vec()));
    assert_eq!(b.pop(), None);
}

#[test]
fn pop_of_null_row_yields_empty_bytes() {
    let mut b = MutableBinaryViewArray::new();
    b.push_null();
    assert_eq!(b.pop(), Some(Vec::new()));
    assert_eq!(b.len(), 0);
}

#[test]
fn validate_utf8_accepts_valid_text() {
    let mut b = MutableBinaryViewArray::new();
    b.push_value("héllo".as_bytes());
    b.push_value("a string that is longer than twelve bytes".as_bytes());
    b.push_null();
    assert!(b.validate_utf8().is_ok());
}

#[test]
fn validate_utf8_reports_first_bad_row() {
    let mut b = MutableBinaryViewArray::new();
    b.push_value(b"fine");
    b.push_value(&[0xff, 0xfe, 0x41]);
    b.push_value(b"also fine");
    match b.validate_utf8() {
        Err(Error::InvalidUtf8 { row, length }) => {
            assert_eq!(row, 1);
            assert_eq!(length, 3);
        }
        other => panic!("expected an InvalidUtf8 error, got {:?}", other.is_ok()),
    }
}

#[test]
fn freeze_preserves_rows_and_counters() {
    let mut b = MutableBinaryViewArray::with_capacity(4);
    b.push_value(b"ab");
    b.push_value(b"an out-of-line value of size");
    b.push_null();
    let total_bytes = b.total_bytes_len();
    let total_buffer = b.total_buffer_len();
    let frozen = b.freeze();
    assert_eq!(frozen.len(), 3);
    assert_eq!(frozen.data_type(), DataType::BinaryView);
    assert_eq!(frozen.value_at(0), b"ab".to_vec());
    assert_eq!(frozen.value_at(1), b"an out-of-line value of size".to_vec());
    assert!(frozen.is_null_at(2));
    assert!(!frozen.is_null_at(0));
    assert_eq!(frozen.total_bytes_len(), total_bytes);
    assert_eq!(frozen.total_buffer_len(), total_buffer);
    let bm = frozen.validity().expect("bitmap");
    assert!(bm.get(0) && bm.get(1) && !bm.get(2));
}

#[test]
fn views_record_row_lengths() {
    let mut b = MutableBinaryViewArray::new();
    b.push_value(b"abc");
    b.push_null();
    let long = b"a long value of eighteen";
    b.push_value(long);
    let views = b.views();
    assert_eq!(views.len(), 3);
    assert_eq!(views[0].length, 3);
    assert_eq!(views[1].length, 0);
    assert_eq!(views[2].length, long.len() as u32);
}

#[test]
fn values_ignores_validity() {
    let mut b = MutableBinaryViewArray::new();
    b.push_value(b"k");
    b.push_null();
    let vals = b.values();
    assert_eq!(vals.len(), 2);
    assert_eq!(vals[0], b"k".to_vec());
    assert_eq!(vals[1], Vec::<u8>::new());
}

#[test]
fn capacity_is_at_least_len() {
    let mut b = MutableBinaryViewArray::with_capacity(10);
    b.push_value(b"a");
    b.push_value(b"b");
    assert!(b.capacity() >= b.len());
    b.reserve(100);
    assert!(b.capacity() >= b.len());
}

#[test]
fn view_layout_inline() {
    let mut b = MutableBinaryViewArray::new();
    b.push_value(b"ab");
    let v = b.views()[0];
    let bytes = v.to_le_bytes();
    assert_eq!(bytes.len(), 16);
    assert_eq!(&bytes[0..4], &2u32.to_le_bytes());
    assert_eq!(&bytes[4..6], b"ab");
    assert_eq!(&bytes[6..16], &[0u8; 10]);
}

#[test]
fn view_layout_out_of_line() {
    let mut b = MutableBinaryViewArray::new();
    let v = b"abcdefghijklmn".to_vec();
    b.push_value(&v);
    let view = b.views()[0];
    let bytes = view.to_le_bytes();
    assert_eq!(bytes.len(), 16);
    assert_eq!(&bytes[0..4], &(v.len() as u32).to_le_bytes());
    assert_eq!(&bytes[4..8], b"abcd");
    assert_eq!(&bytes[8..12], &0u32.to_le_bytes());
    assert_eq!(&bytes[12..16], &0u32.to_le_bytes());
}

#[test]
fn zero_view_is_default() {
    let v = ByteView::default();
    assert_eq!(v.length, 0);
    let bytes = v.to_le_bytes();
    assert_eq!(bytes, vec![0u8; 16]);
}

#[test]
fn error_names() {
    let e = Error::WriteFailed;
    assert_eq!(e.name(), "WriteFailed");
    let u = Error::InvalidUtf8 { row: 0, length: 1 };
    assert_eq!(u.name(), "InvalidUtf8");
}

#[test]
fn end_to_end_string_scenario() {
    let long = "a 13-byte-or-longer string";
    let mut b = MutableBinaryViewArray::new();
    b.push_value(b"ab");
    b.push_value(long.as_bytes());
    b.push_null();
    b.push_value(b"ab");
    assert_eq!(b.len(), 4);
    let bm = b.validity().expect("bitmap after the null");
    assert!(bm.get(0) && bm.get(1) && !bm.get(2) && bm.get(3));
    assert_eq!(b.value_at(0), b"ab".to_vec());
    assert_eq!(b.value_at(3), b"ab".to_vec());
    assert_eq!(b.value_at(1), long.as_bytes().to_vec());
    // rows 0 and 3 are inline, row 1 is the only arena resident
    assert_eq!(b.total_buffer_len(), long.len() as u64);
    assert!(b.views()[0].length <= 12 && b.views()[3].length <= 12);
    assert!(b.views()[1].length > 12);
    assert!(b.validate_utf8().is_ok());
}

#[test]
fn push_view_copies_inline_and_reencodes_long_values() {
    let buffers = vec![b"a borrowed value, long enough to live out of line".to_vec()];
    let long_view = ByteView {
        length: buffers[0].len() as u32,
        prefix: [b'a', b' ', b'b', b'o'],
        buffer_idx: 0,
        offset: 0,
        inline: [0u8; 12],
    };
    let inline_view = ByteView {
        length: 2,
        prefix: [0u8; 4],
        buffer_idx: 0,
        offset: 0,
        inline: [b'h', b'i', 0, 0, 0, 0, 0, 0, 0, 0, 0, 0],
    };
    let mut b = MutableBinaryViewArray::new();
    b.push_view(inline_view, &buffers);
    b.push_view(long_view, &buffers);
    assert_eq!(b.len(), 2);
    assert_eq!(b.value_at(0), b"hi".to_vec());
    assert_eq!(b.value_at(1), buffers[0]);
    assert_eq!(b.total_buffer_len(), buffers[0].len() as u64);
}

#[test]
fn default_builder_is_empty() {
    let b = MutableBinaryViewArray::default();
    assert_eq!(b.len(), 0);
    assert!(b.is_empty());
    assert_eq!(b.total_bytes_len(), 0);
    assert_eq!(b.total_buffer_len(), 0);
    assert!(b.validity().is_none());
}

#[test]
fn freeze_utf8_tags_a_text_column() {
    let mut b = MutableBinaryViewArray::new();
    b.push_value("héllo".as_bytes());
    b.push_null();
    b.push_value("a string that is longer than twelve bytes".as_bytes());
    let frozen = b.freeze_utf8().expect("valid text freezes");
    assert_eq!(frozen.data_type(), DataType::Utf8View);
    assert_eq!(frozen.len(), 3);
    assert_eq!(frozen.value_at(0), "héllo".as_bytes().to_vec());
    assert!(frozen.is_null_at(1));
}

#[test]
fn freeze_utf8_rejects_bad_bytes() {
    let mut b = MutableBinaryViewArray::new();
    b.push_value(b"ok");
    b.push_value(&[0x80, 0x80]);
    match b.freeze_utf8() {
        Err(Error::InvalidUtf8 { row, length }) => {
            assert_eq!(row, 1);
            assert_eq!(length, 2);
        }
        Ok(_) => panic!("invalid bytes must not freeze as text"),
        Err(_) => panic!("expected an InvalidUtf8 error"),
    }
}
