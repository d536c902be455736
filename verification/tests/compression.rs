use fuse::compression::{compress_lz4, compress_zstd, decompress_lz4, decompress_zstd};
use fuse::error::Error;

#[test]
fn round_trip_zstd() {
    let data: Vec<u8> = (0..200u8).map(|x| x % 10).collect();
    let mut buffer = vec![];
    compress_zstd(&data, &mut buffer).unwrap();

    let mut result = vec![0; 200];
    decompress_zstd(&buffer, &mut result).unwrap();
    assert_eq!(data, result);
}

#[test]
fn round_trip_lz4() {
    let data: Vec<u8> = (0..200u8).map(|x| x % 10).collect();
    let mut buffer = vec![];
    compress_lz4(&data, &mut buffer).unwrap();

    let mut result = vec![0; 200];
    decompress_lz4(&buffer, &mut result).unwrap();
    assert_eq!(data, result);
}

#[test]
fn round_trip_lz4_empty() {
    let data: Vec<u8> = vec![];
    let mut buffer = vec![];
    compress_lz4(&data, &mut buffer).unwrap();
    let mut result = vec![];
    decompress_lz4(&buffer, &mut result).unwrap();
    assert_eq!(data, result);
}

#[test]
fn round_trip_zstd_empty() {
    let data: Vec<u8> = vec![];
    let mut buffer = vec![];
    compress_zstd(&data, &mut buffer).unwrap();
    let mut result = vec![];
    decompress_zstd(&buffer, &mut result).unwrap();
    assert_eq!(data, result);
}

#[test]
fn decompress_lz4_wrong_size_fails() {
    let data: Vec<u8> = (0..100u8).collect();
    let mut buffer = vec![];
    compress_lz4(&data, &mut buffer).unwrap();
    let mut result = vec![0; 99];
    assert_eq!(decompress_lz4(&buffer, &mut result), Err(Error::CodecFailure));
}

#[test]
fn decompress_zstd_garbage_fails() {
    let garbage: Vec<u8> = vec![1, 2, 3, 4, 5];
    let mut result = vec![0; 64];
    assert!(decompress_zstd(&garbage, &mut result).is_err());
}
