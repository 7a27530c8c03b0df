use binview::builder::MutableBinaryViewArray;
use binview::write::Chunk;
use binview::write::Compression;
use binview::write::Field;
use binview::write::NativeWriter;
use binview::write::PlainPageEncoder;
use binview::write::VecSink;
use binview::write::WriteOptions;
use binview::write::eof_marker;
use binview::write::write_eof;

fn column_of(n: usize) -> binview::builder::BinaryViewArray {
    let mut b = MutableBinaryViewArray::new();
    for i in 0..n {
        let text = format!("row number {}", i);
        b.push_value(text.as_bytes());
    }
    b.freeze()
}

fn options(max_page_size: Option<usize>) -> WriteOptions {
    WriteOptions {
        default_compression: Compression::Uncompressed,
        default_compress_ratio: None,
        max_page_size,
        forbidden_compressions: Vec::new(),
    }
}

#[test]
fn ten_rows_page_size_four_gives_three_pages() {
    let chunk = Chunk::new(vec![column_of(10)]);
    let schema = vec![Field { name: String::from("c0") }];
    let mut w = NativeWriter::new(VecSink::new(), PlainPageEncoder, schema, options(Some(4)));
    assert!(w.encode_chunk(&chunk).is_ok());
    let metas = w.metas();
    assert_eq!(metas.len(), 1);
    let pages = &metas[0].pages;
    assert_eq!(pages.len(), 3);
    assert_eq!(pages[0].num_values, 4);
    assert_eq!(pages[1].num_values, 4);
    assert_eq!(pages[2].num_values, 2);
    let total: u64 = pages.iter().map(|p| p.num_values).sum();
    assert_eq!(total, 10);
    for p in pages.iter() {
        assert!(p.length > 0);
    }
}

#[test]
fn page_count_is_ceiling_of_rows_over_page_size() {
    for (rows, page, expect) in [(10usize, 4usize, 3usize), (8, 4, 2), (1, 4, 1), (0, 4, 0), (5, 1, 5), (7, 100, 1)] {
        let chunk = Chunk::new(vec![column_of(rows)]);
        let schema = vec![Field { name: String::from("c") }];
        let mut w =
            NativeWriter::new(VecSink::new(), PlainPageEncoder, schema, options(Some(page)));
        assert!(w.encode_chunk(&chunk).is_ok());
        let pages = &w.metas()[0].pages;
        assert_eq!(pages.len(), expect, "rows {} page {}", rows, page);
        let total: u64 = pages.iter().map(|p| p.num_values).sum();
        assert_eq!(total, rows as u64);
    }
}

#[test]
fn absent_page_size_writes_one_page() {
    let chunk = Chunk::new(vec![column_of(6)]);
    let schema = vec![Field { name: String::from("c") }];
    let mut w = NativeWriter::new(VecSink::new(), PlainPageEncoder, schema, options(None));
    assert!(w.encode_chunk(&chunk).is_ok());
    let pages = &w.metas()[0].pages;
    assert_eq!(pages.len(), 1);
    assert_eq!(pages[0].num_values, 6);
}

#[test]
fn metadata_offsets_follow_the_stream() {
    let chunk = Chunk::new(vec![column_of(5), column_of(5)]);
    let schema = vec![Field { name: String::from("a") }, Field { name: String::from("b") }];
    let mut w = NativeWriter::new(VecSink::new(), PlainPageEncoder, schema, options(Some(2)));
    assert!(w.encode_chunk(&chunk).is_ok());
    let metas = w.metas();
    assert_eq!(metas.len(), 2);
    assert_eq!(metas[0].offset, 0);
    let first_col_bytes: u64 = metas[0].pages.iter().map(|p| p.length).sum();
    assert_eq!(metas[1].offset, first_col_bytes);
    let all_bytes: u64 = first_col_bytes + metas[1].pages.iter().map(|p| p.length).sum::<u64>();
    assert_eq!(w.offset(), all_bytes);
    assert_eq!(w.writer().data().len() as u64, all_bytes);
}

#[test]
fn schema_mismatch_is_rejected_before_writing() {
    let chunk = Chunk::new(vec![column_of(3), column_of(3)]);
    let schema = vec![Field { name: String::from("only") }];
    let mut w = NativeWriter::new(VecSink::new(), PlainPageEncoder, schema, options(Some(2)));
    match w.encode_chunk(&chunk) {
        Err(binview::error::Error::SchemaMismatch { columns, fields }) => {
            assert_eq!(columns, 2);
            assert_eq!(fields, 1);
        }
        _ => panic!("expected a schema mismatch"),
    }
    assert_eq!(w.metas().len(), 0);
    assert_eq!(w.offset(), 0);
    assert_eq!(w.writer().data().len(), 0);
}

#[test]
fn column_length_mismatch_is_rejected_before_writing() {
    let chunk = Chunk::new(vec![column_of(3), column_of(4)]);
    let schema = vec![Field { name: String::from("a") }, Field { name: String::from("b") }];
    let mut w = NativeWriter::new(VecSink::new(), PlainPageEncoder, schema, options(Some(2)));
    match w.encode_chunk(&chunk) {
        Err(binview::error::Error::LengthMismatch { column }) => {
            assert_eq!(column, 1);
        }
        _ => panic!("expected a length mismatch"),
    }
    assert_eq!(w.metas().len(), 0);
    assert_eq!(w.writer().data().len(), 0);
}

#[test]
fn chunk_with_nulls_round_trips_through_pages() {
    let mut b = MutableBinaryViewArray::new();
    b.push_value(b"ab");
    b.push_value(b"a 13-byte-or-longer string");
    b.push_null();
    b.push_value(b"ab");
    let chunk = Chunk::new(vec![b.freeze()]);
    let schema = vec![Field { name: String::from("s") }];
    let mut w = NativeWriter::new(VecSink::new(), PlainPageEncoder, schema, options(None));
    assert!(w.encode_chunk(&chunk).is_ok());
    let pages = &w.metas()[0].pages;
    assert_eq!(pages.len(), 1);
    assert_eq!(pages[0].num_values, 4);
    // the plain page layout: row count, then length/flag/bytes per row
    let data = w.writer().data();
    assert_eq!(&data[0..4], &4u32.to_le_bytes());
    assert_eq!(&data[4..8], &2u32.to_le_bytes());
    assert_eq!(data[8], 1);
    assert_eq!(&data[9..11], b"ab");
}

#[test]
fn write_eof_emits_exactly_eight_bytes() {
    let mut sink = VecSink::new();
    let r = write_eof(&mut sink, 12345);
    assert_eq!(r.ok(), Some(8));
    let data = sink.data();
    assert_eq!(data.len(), 8);
    assert_eq!(&data[0..4], &eof_marker());
    let total = i32::from_le_bytes([data[4], data[5], data[6], data[7]]);
    assert_eq!(total, 12345);
}

#[test]
fn write_eof_footer_follows_the_pages() {
    let chunk = Chunk::new(vec![column_of(2)]);
    let schema = vec![Field { name: String::from("c") }];
    let mut w = NativeWriter::new(VecSink::new(), PlainPageEncoder, schema, options(None));
    assert!(w.encode_chunk(&chunk).is_ok());
    let page_bytes = w.writer().data().len();
    let mut sink = VecSink::new();
    let r = write_eof(&mut sink, page_bytes as i32);
    assert_eq!(r.ok(), Some(8));
    let data = sink.data();
    let total = i32::from_le_bytes([data[4], data[5], data[6], data[7]]);
    assert_eq!(total, page_bytes as i32);
}

#[test]
fn write_eof_accepts_negative_lengths_bit_for_bit() {
    let mut sink = VecSink::new();
    assert_eq!(write_eof(&mut sink, -1).ok(), Some(8));
    let data = sink.data();
    assert_eq!(&data[4..8], &(-1i32).to_le_bytes());
}
