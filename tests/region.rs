use voxel_map::region::{compress_chunk, decompress_chunk, ChunkCompression, ChunkCoord, PayloadError};

#[test]
fn payload_round_trip() {
    let inputs: Vec<Vec<u8>> = vec![
        vec![1],
        b"application/vnd.voxel.region.v0".to_vec(),
        (0..5000u32).map(|i| (i * 7 % 251) as u8).collect(),
        vec![0; 10000],
    ];
    for bytes in inputs.iter() {
        let stored = compress_chunk(bytes);
        assert_eq!(stored.compression, 1);
        assert_eq!(&decompress_chunk(stored.compression, &stored.data).unwrap(), bytes);
    }
}

#[test]
fn compression_changes_the_bytes() {
    let bytes = vec![7u8; 4096];
    let stored = compress_chunk(&bytes);
    assert_ne!(stored.data, bytes);
    assert!(stored.data.len() < 100);
}

#[test]
fn unknown_compression_is_an_error() {
    assert_eq!(decompress_chunk(2, &[1, 2, 3]), Err(PayloadError::UnknownCompression(2)));
    assert_eq!(decompress_chunk(0, &[]), Err(PayloadError::UnknownCompression(0)));
}

#[test]
fn corrupt_payload_is_an_error() {
    assert_eq!(decompress_chunk(1, &[0xFF, 0xFF, 0xFF]), Err(PayloadError::Decompression));
}

#[test]
fn compression_tags() {
    assert_eq!(ChunkCompression::from_int(1), Some(ChunkCompression::Brotli));
    assert_eq!(ChunkCompression::from_int(0), None);
    assert_eq!(ChunkCompression::Brotli.as_int(), 1);
}

#[test]
fn chunk_coord_keeps_its_axes() {
    let c = ChunkCoord::new(-3, 4, i64::MAX);
    assert_eq!(c.to_xyz(), (-3, 4, i64::MAX));
}

#[test]
fn large_payload_round_trip() {
    let mut x: u32 = 12345;
    let bytes: Vec<u8> = (0..300_000)
        .map(|i| {
            x = x.wrapping_mul(1103515245).wrapping_add(12345);
            if i % 3 == 0 { (x >> 24) as u8 } else { (i % 7) as u8 }
        })
        .collect();
    let stored = compress_chunk(&bytes);
    assert_eq!(decompress_chunk(stored.compression, &stored.data).unwrap(), bytes);
}
