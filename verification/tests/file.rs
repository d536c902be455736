use fuse::array::Array;
use fuse::compression::Compression;
use fuse::datatypes::{DataType, PrimitiveWidth, Schema};
use fuse::error::Error;
use fuse::reader::FuseReader;
use fuse::writer::{Chunk, FuseWriter, WriteOptions};

fn int32_column() -> Array {
    // [1, 2, null, 4] as little-endian bit patterns of i32 values
    Array::Primitive {
        width: PrimitiveWidth::W4,
        values: vec![1, 2, 0, 4],
        validity: Some(vec![true, true, false, true]),
    }
}

fn utf8_column() -> Array {
    // ["a", null, "bb", "ccc"]
    Array::Utf8 {
        large: false,
        offsets: vec![0, 1, 1, 3, 6],
        values: b"abbccc".to_vec(),
        validity: Some(vec![true, false, true, true]),
    }
}

fn schema2() -> Schema {
    Schema::new(vec![DataType::Primitive(PrimitiveWidth::W4), DataType::Utf8])
}

#[test]
fn state_machine_rejects_out_of_order_calls() {
    let options = WriteOptions { compression: None, max_page_size: None };
    let chunk = Chunk::new(vec![int32_column(), utf8_column()]);

    // write before start fails
    let mut w = FuseWriter::new(Vec::new(), schema2(), options);
    assert_eq!(w.write(&chunk), Err(Error::FormatViolation));

    // start twice fails
    let mut w = FuseWriter::new(Vec::new(), schema2(), options);
    w.start().unwrap();
    assert_eq!(w.start(), Err(Error::FormatViolation));

    // finish before any write fails
    let mut w = FuseWriter::new(Vec::new(), schema2(), options);
    w.start().unwrap();
    assert_eq!(w.finish(), Err(Error::FormatViolation));

    // happy path: start, write, finish, each exactly once
    let mut w = FuseWriter::new(Vec::new(), schema2(), options);
    w.start().unwrap();
    w.write(&Chunk::new(vec![int32_column(), utf8_column()])).unwrap();
    w.finish().unwrap();
    assert_eq!(w.finish(), Err(Error::FormatViolation));
    assert_eq!(w.write(&chunk), Err(Error::FormatViolation));
}

#[test]
fn file_is_framed_by_magic() {
    let options = WriteOptions { compression: None, max_page_size: None };
    let mut w = FuseWriter::new(Vec::new(), schema2(), options);
    w.start().unwrap();
    w.write(&Chunk::new(vec![int32_column(), utf8_column()])).unwrap();
    w.finish().unwrap();
    let total = w.total_size();
    let bytes = w.into_inner();
    assert_eq!(total, bytes.len());
    let magic = b"ARROW1";
    assert_eq!(&bytes[0..6], magic);
    assert_eq!(&bytes[6..8], &[0, 0]);
    // zero-length continuation marker before the trailing magic
    assert_eq!(&bytes[bytes.len() - 10..bytes.len() - 6], &[0, 0, 0, 0]);
    assert_eq!(&bytes[bytes.len() - 6..], magic);
}

fn read_column(bytes: &[u8], meta: &fuse::writer::ColumnMeta, data_type: DataType) -> Vec<Array> {
    let range = bytes[meta.offset as usize..(meta.offset + meta.length) as usize].to_vec();
    let mut reader = FuseReader::new(
        range,
        data_type,
        true,
        Some(Compression::LZ4),
        meta.num_values as usize,
        Vec::with_capacity(1024),
    );
    let mut pages = Vec::new();
    while reader.has_next() {
        pages.push(reader.next_array().unwrap());
    }
    pages
}

#[test]
fn end_to_end_paged_compressed_round_trip() {
    let options = WriteOptions {
        compression: Some(Compression::LZ4),
        max_page_size: Some(2),
    };
    let ints = int32_column();
    let strs = utf8_column();
    let mut w = FuseWriter::new(Vec::new(), schema2(), options);
    w.start().unwrap();
    w.write(&Chunk::new(vec![ints.clone(), strs.clone()])).unwrap();
    w.finish().unwrap();

    // exactly one side-index entry per column, in schema order
    let metas = w.metas.clone();
    assert_eq!(metas.len(), 2);
    assert_eq!(metas[0].num_values, 4);
    assert_eq!(metas[1].num_values, 4);
    // consecutive, non-overlapping byte ranges
    assert_eq!(metas[0].offset + metas[0].length, metas[1].offset);
    assert_eq!(metas[0].offset, 8);

    let bytes = w.into_inner();

    // each column is read back independently, through its byte range alone
    let int_pages = read_column(&bytes, &metas[0], DataType::Primitive(PrimitiveWidth::W4));
    assert_eq!(int_pages.len(), 2);
    assert_eq!(int_pages[0], ints.slice(0, 2));
    assert_eq!(int_pages[1], ints.slice(2, 2));

    let str_pages = read_column(&bytes, &metas[1], DataType::Utf8);
    assert_eq!(str_pages.len(), 2);
    assert_eq!(str_pages[0], strs.slice(0, 2));
    assert_eq!(str_pages[1], strs.slice(2, 2));

    // the pages reassemble the original values, null positions included
    match (&int_pages[0], &int_pages[1]) {
        (
            Array::Primitive { values: v0, validity: b0, .. },
            Array::Primitive { values: v1, validity: b1, .. },
        ) => {
            let all: Vec<u64> = v0.iter().chain(v1.iter()).cloned().collect();
            assert_eq!(all, vec![1, 2, 0, 4]);
            let bits: Vec<bool> = b0
                .clone()
                .unwrap()
                .into_iter()
                .chain(b1.clone().unwrap().into_iter())
                .collect();
            assert_eq!(bits, vec![true, true, false, true]);
        },
        _ => panic!("wrong shape"),
    }
    match (&str_pages[0], &str_pages[1]) {
        (
            Array::Utf8 { offsets: o0, values: v0, validity: b0, .. },
            Array::Utf8 { offsets: o1, values: v1, validity: b1, .. },
        ) => {
            assert_eq!(o0, &vec![0, 1, 1]);
            assert_eq!(v0, &b"a".to_vec());
            assert_eq!(b0, &Some(vec![true, false]));
            assert_eq!(o1, &vec![0, 2, 5]);
            assert_eq!(v1, &b"bbccc".to_vec());
            assert_eq!(b1, &Some(vec![true, true]));
        },
        _ => panic!("wrong shape"),
    }
}

#[test]
fn paging_matches_single_page_encoding() {
    // the same column written with and without paging decodes to the same rows
    let ints = int32_column();
    for page in [1usize, 2, 3, 4, 7] {
        let options = WriteOptions { compression: None, max_page_size: Some(page) };
        let mut w = FuseWriter::new(Vec::new(), schema2(), options);
        w.start().unwrap();
        w.write(&Chunk::new(vec![ints.clone(), utf8_column()])).unwrap();
        w.finish().unwrap();
        let metas = w.metas.clone();
        let bytes = w.into_inner();
        let range =
            bytes[metas[0].offset as usize..(metas[0].offset + metas[0].length) as usize].to_vec();
        let mut reader = FuseReader::new(
            range,
            DataType::Primitive(PrimitiveWidth::W4),
            true,
            None,
            metas[0].num_values as usize,
            Vec::new(),
        );
        let mut values: Vec<u64> = Vec::new();
        let mut bits: Vec<bool> = Vec::new();
        while reader.has_next() {
            match reader.next_array().unwrap() {
                Array::Primitive { values: v, validity: b, .. } => {
                    values.extend(v);
                    match b {
                        Some(bv) => bits.extend(bv),
                        None => bits.extend(std::iter::repeat(true).take(4 - bits.len())),
                    }
                },
                _ => panic!("wrong shape"),
            }
        }
        assert_eq!(values, vec![1, 2, 0, 4]);
        assert_eq!(bits, vec![true, true, false, true]);
    }
}

#[test]
fn zero_row_chunk_round_trips() {
    let options = WriteOptions { compression: None, max_page_size: None };
    let empty = Array::Primitive { width: PrimitiveWidth::W8, values: vec![], validity: None };
    let schema = Schema::new(vec![DataType::Primitive(PrimitiveWidth::W8)]);
    let mut w = FuseWriter::new(Vec::new(), schema, options);
    w.start().unwrap();
    w.write(&Chunk::new(vec![empty.clone()])).unwrap();
    w.finish().unwrap();
    let metas = w.metas.clone();
    assert_eq!(metas.len(), 1);
    assert_eq!(metas[0].num_values, 0);
    let bytes = w.into_inner();
    let range =
        bytes[metas[0].offset as usize..(metas[0].offset + metas[0].length) as usize].to_vec();
    let mut reader = FuseReader::new(
        range,
        DataType::Primitive(PrimitiveWidth::W8),
        true,
        None,
        0,
        Vec::new(),
    );
    assert!(reader.has_next());
    assert_eq!(reader.next_array().unwrap(), empty);
    assert!(!reader.has_next());
}

#[test]
fn try_new_starts_the_stream() {
    let options = WriteOptions { compression: None, max_page_size: None };
    let schema = schema2();
    let w = FuseWriter::try_new(Vec::new(), &schema, options).unwrap();
    let bytes = w.into_inner();
    assert_eq!(&bytes[0..6], b"ARROW1");
    assert_eq!(bytes.len(), 8);
}
