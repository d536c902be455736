use fuse::array::Array;
use fuse::compression::Compression;
use fuse::datatypes::{DataType, PrimitiveWidth};
use fuse::deserialize::read;
use fuse::error::Error;

fn array_round_trip(array: Array, data_type: DataType, compression: Option<Compression>) {
    let mut out: Vec<u8> = Vec::new();
    let mut scratch: Vec<u8> = Vec::new();
    fuse::serialize::write(&mut out, &array, true, compression, &mut scratch).unwrap();
    let mut pos: usize = 0;
    let length = match &array {
        Array::Null { length } => *length,
        Array::Boolean { values, .. } => values.len(),
        Array::Primitive { values, .. } => values.len(),
        Array::Binary { offsets, .. } => offsets.len() - 1,
        Array::Utf8 { offsets, .. } => offsets.len() - 1,
    };
    let back = read(&out, &mut pos, data_type, true, compression, length, &mut scratch).unwrap();
    assert_eq!(back, array);
    assert_eq!(pos, out.len());
}

#[test]
fn round_trip_null_array() {
    array_round_trip(Array::Null { length: 7 }, DataType::Null, None);
}

#[test]
fn round_trip_boolean_array() {
    for compression in [None, Some(Compression::LZ4), Some(Compression::ZSTD)] {
        array_round_trip(
            Array::Boolean {
                values: vec![true, true, false, true, false],
                validity: Some(vec![true, false, true, true, true]),
            },
            DataType::Boolean,
            compression,
        );
        array_round_trip(
            Array::Boolean { values: vec![false; 9], validity: None },
            DataType::Boolean,
            compression,
        );
    }
}

#[test]
fn round_trip_primitive_widths() {
    for (width, dt_width, max) in [
        (PrimitiveWidth::W1, PrimitiveWidth::W1, 0xffu64),
        (PrimitiveWidth::W2, PrimitiveWidth::W2, 0xffffu64),
        (PrimitiveWidth::W4, PrimitiveWidth::W4, 0xffff_ffffu64),
        (PrimitiveWidth::W8, PrimitiveWidth::W8, u64::MAX),
    ] {
        array_round_trip(
            Array::Primitive {
                width,
                values: vec![0, 1, max, max / 3],
                validity: Some(vec![true, true, false, true]),
            },
            DataType::Primitive(dt_width),
            Some(Compression::LZ4),
        );
    }
}

#[test]
fn round_trip_primitive_nullability_patterns() {
    for validity in [
        None,
        Some(vec![false, false, false]),
        Some(vec![true, false, true]),
        Some(vec![true, true, true]),
    ] {
        array_round_trip(
            Array::Primitive { width: PrimitiveWidth::W4, values: vec![5, 6, 7], validity },
            DataType::Primitive(PrimitiveWidth::W4),
            None,
        );
    }
}

#[test]
fn round_trip_binary_array() {
    array_round_trip(
        Array::Binary {
            large: false,
            offsets: vec![0, 2, 2, 5],
            values: vec![1, 2, 3, 4, 5],
            validity: Some(vec![true, false, true]),
        },
        DataType::Binary,
        Some(Compression::ZSTD),
    );
    array_round_trip(
        Array::Binary {
            large: true,
            offsets: vec![0, 1, 4],
            values: vec![9, 9, 9, 9],
            validity: None,
        },
        DataType::LargeBinary,
        None,
    );
}

#[test]
fn round_trip_utf8_array() {
    array_round_trip(
        Array::Utf8 {
            large: false,
            offsets: vec![0, 1, 1, 3, 6],
            values: b"abbccc".to_vec(),
            validity: Some(vec![true, false, true, true]),
        },
        DataType::Utf8,
        Some(Compression::LZ4),
    );
    array_round_trip(
        Array::Utf8 {
            large: true,
            offsets: vec![0, 3],
            values: b"xyz".to_vec(),
            validity: None,
        },
        DataType::LargeUtf8,
        None,
    );
}

#[test]
fn round_trip_zero_length_arrays() {
    array_round_trip(Array::Null { length: 0 }, DataType::Null, None);
    array_round_trip(
        Array::Boolean { values: vec![], validity: None },
        DataType::Boolean,
        Some(Compression::LZ4),
    );
    array_round_trip(
        Array::Primitive { width: PrimitiveWidth::W8, values: vec![], validity: None },
        DataType::Primitive(PrimitiveWidth::W8),
        None,
    );
    array_round_trip(
        Array::Utf8 { large: false, offsets: vec![0], values: vec![], validity: None },
        DataType::Utf8,
        Some(Compression::ZSTD),
    );
}

#[test]
fn unsupported_shape_fails_explicitly() {
    let bytes: Vec<u8> = vec![0; 16];
    let mut pos: usize = 0;
    let mut scratch: Vec<u8> = Vec::new();
    for dt in [
        DataType::FixedSizeBinary,
        DataType::List,
        DataType::LargeList,
        DataType::FixedSizeList,
        DataType::Struct,
        DataType::Dictionary,
        DataType::Union,
        DataType::Mapping,
    ] {
        assert_eq!(
            read(&bytes, &mut pos, dt, true, None, 4, &mut scratch),
            Err(Error::FormatViolation)
        );
        assert_eq!(pos, 0);
    }
}

#[test]
fn round_trip_multibyte_utf8() {
    // ["\u{e9}", "\u{65e5}\u{672c}", ""] as UTF-8 bytes
    let mut values = Vec::new();
    values.extend_from_slice("\u{e9}".as_bytes());
    values.extend_from_slice("\u{65e5}\u{672c}".as_bytes());
    array_round_trip(
        Array::Utf8 {
            large: false,
            offsets: vec![0, 2, 8, 8],
            values,
            validity: None,
        },
        DataType::Utf8,
        Some(Compression::LZ4),
    );
}

#[test]
fn invalid_utf8_gives_shape_mismatch() {
    // validity absent, offsets [0, 1], then a single 0xff values byte: not UTF-8
    let mut bytes: Vec<u8> = vec![0];
    let mut scratch: Vec<u8> = Vec::new();
    let offsets_raw: Vec<u8> = vec![0, 0, 0, 0, 1, 0, 0, 0];
    fuse::buffer::write_buffer(&mut bytes, &offsets_raw, None, &mut scratch).unwrap();
    fuse::buffer::write_buffer(&mut bytes, &vec![0xff], None, &mut scratch).unwrap();
    let mut pos: usize = 0;
    assert_eq!(
        read(&bytes, &mut pos, DataType::Utf8, true, None, 1, &mut scratch),
        Err(Error::ShapeMismatch)
    );
    assert_eq!(pos, 0);
    // the same bytes are a perfectly good binary array
    let back = read(&bytes, &mut pos, DataType::Binary, true, None, 1, &mut scratch).unwrap();
    assert_eq!(
        back,
        Array::Binary { large: false, offsets: vec![0, 1], values: vec![0xff], validity: None }
    );
}

#[test]
fn check_wf_decides_well_formedness() {
    assert!(Array::Null { length: 3 }.check_wf());
    assert!(Array::Primitive {
        width: PrimitiveWidth::W1,
        values: vec![0, 255],
        validity: Some(vec![true, false]),
    }
    .check_wf());
    // a value too wide for its width
    assert!(!Array::Primitive { width: PrimitiveWidth::W1, values: vec![256], validity: None }
        .check_wf());
    // a validity bitmap of the wrong length
    assert!(!Array::Boolean { values: vec![true], validity: Some(vec![true, false]) }.check_wf());
    // offsets that do not start at zero
    assert!(!Array::Binary {
        large: false,
        offsets: vec![1, 2],
        values: vec![9, 9],
        validity: None,
    }
    .check_wf());
    // utf8 rows must hold well-formed text
    assert!(!Array::Utf8 {
        large: false,
        offsets: vec![0, 1],
        values: vec![0xff],
        validity: None,
    }
    .check_wf());
    assert!(Array::Utf8 {
        large: false,
        offsets: vec![0, 2],
        values: "\u{e9}".as_bytes().to_vec(),
        validity: None,
    }
    .check_wf());
}

#[test]
fn bad_offsets_give_shape_mismatch() {
    // validity absent, then an offsets record whose first offset is not zero
    let mut bytes: Vec<u8> = vec![0];
    let offsets_raw: Vec<u8> = vec![3, 0, 0, 0, 1, 0, 0, 0];
    let mut scratch: Vec<u8> = Vec::new();
    fuse::buffer::write_buffer(&mut bytes, &offsets_raw, None, &mut scratch).unwrap();
    let mut pos: usize = 0;
    assert_eq!(
        read(&bytes, &mut pos, DataType::Binary, true, None, 1, &mut scratch),
        Err(Error::ShapeMismatch)
    );
    assert_eq!(pos, 0);
}
