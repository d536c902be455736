use fuse::buffer::{read_buffer, read_validity, write_buffer, write_validity};
use fuse::compression::Compression;
use fuse::error::Error;

fn buffer_round_trip(data: Vec<u8>, compression: Option<Compression>) {
    let mut out: Vec<u8> = Vec::new();
    let mut scratch: Vec<u8> = Vec::new();
    write_buffer(&mut out, &data, compression, &mut scratch).unwrap();
    let mut pos: usize = 0;
    let back = read_buffer(&out, &mut pos, data.len(), &mut scratch).unwrap();
    assert_eq!(back, data);
    assert_eq!(pos, out.len());
}

#[test]
fn buffer_round_trip_raw() {
    buffer_round_trip((0..200u8).collect(), None);
}

#[test]
fn buffer_round_trip_lz4() {
    buffer_round_trip((0..200u8).map(|x| x % 7).collect(), Some(Compression::LZ4));
}

#[test]
fn buffer_round_trip_zstd() {
    buffer_round_trip((0..200u8).map(|x| x % 3).collect(), Some(Compression::ZSTD));
}

#[test]
fn buffer_round_trip_empty() {
    buffer_round_trip(vec![], None);
    buffer_round_trip(vec![], Some(Compression::LZ4));
    buffer_round_trip(vec![], Some(Compression::ZSTD));
}

#[test]
fn buffer_raw_framing_is_exact() {
    // tag 0, length 3 little-endian, then the payload itself
    let mut out: Vec<u8> = Vec::new();
    let mut scratch: Vec<u8> = Vec::new();
    write_buffer(&mut out, &vec![9, 8, 7], None, &mut scratch).unwrap();
    assert_eq!(out, vec![0, 3, 0, 0, 0, 9, 8, 7]);
}

#[test]
fn validity_round_trip_absent() {
    let mut out: Vec<u8> = Vec::new();
    let mut scratch: Vec<u8> = Vec::new();
    write_validity(&mut out, &None, 5, None, &mut scratch).unwrap();
    assert_eq!(out, vec![0]);
    let mut pos: usize = 0;
    let back = read_validity(&out, &mut pos, 5, &mut scratch).unwrap();
    assert_eq!(back, None);
    assert_eq!(pos, out.len());
}

#[test]
fn validity_round_trip_present() {
    for compression in [None, Some(Compression::LZ4), Some(Compression::ZSTD)] {
        let bits = vec![true, false, true, true, false, false, true, true, true];
        let mut out: Vec<u8> = Vec::new();
        let mut scratch: Vec<u8> = Vec::new();
        write_validity(&mut out, &Some(bits.clone()), bits.len(), compression, &mut scratch)
            .unwrap();
        let mut pos: usize = 0;
        let back = read_validity(&out, &mut pos, bits.len(), &mut scratch).unwrap();
        assert_eq!(back, Some(bits));
        assert_eq!(pos, out.len());
    }
}

#[test]
fn read_buffer_bad_tag_fails() {
    let bytes = vec![9u8, 1, 0, 0, 0, 42];
    let mut pos: usize = 0;
    let mut scratch: Vec<u8> = Vec::new();
    assert_eq!(
        read_buffer(&bytes, &mut pos, 1, &mut scratch),
        Err(Error::FormatViolation)
    );
    assert_eq!(pos, 0);
}

#[test]
fn read_buffer_truncated_fails() {
    let bytes = vec![0u8, 9, 0, 0, 0, 1];
    let mut pos: usize = 0;
    let mut scratch: Vec<u8> = Vec::new();
    assert!(read_buffer(&bytes, &mut pos, 9, &mut scratch).is_err());
}
