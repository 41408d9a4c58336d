use oxid::utils::{compress, decompress, digest, hash_data};
use oxid::Error;

#[test]
fn test_hash_data() {
    let data = b"Hello World";
    let hash = hash_data(data);

    // SHA-1 always produces 40 hex characters
    assert_eq!(hash.len(), 40);

    // Same input always produces same hash
    let hash2 = hash_data(data);
    assert_eq!(hash, hash2);
}

#[test]
fn test_git_blob_hash() {
    // The frame of the eleven bytes "Hello World", without a line end
    let content = b"Hello World";
    let blob_data = format!("blob {}\0", content.len());
    let mut data = blob_data.as_bytes().to_vec();
    data.extend_from_slice(content);

    let hash = hash_data(&data);

    assert_eq!(hash, "5e1c309dae7f45e0f39b1bf3ac3cd9db12e7d689");
}

#[test]
fn framed_blob_with_line_end_has_its_own_digest() {
    assert_eq!(
        hash_data(b"blob 12\0Hello World\n"),
        "557db03de997c86a4a028e1ebd3a1ceb225be238"
    );
}

#[test]
fn test_compress_decompress() {
    let source = b"Hello World, this is a test of compression!";
    let compressed = compress(source).unwrap();
    let decompressed = decompress(&compressed).unwrap();

    assert_eq!(source.to_vec(), decompressed);
}

#[test]
fn compression_succeeds_with_a_stream_that_is_never_empty() {
    let inputs: [&[u8]; 4] = [b"", b"a", b"\0\0\0\0", &[0xffu8; 70000]];
    for input in inputs {
        let compressed = compress(input).unwrap();
        assert!(!compressed.is_empty());
        // the two bytes of the zlib header at the default level
        assert_eq!(&compressed[..2], &[0x78, 0x9c]);
        assert_eq!(decompress(&compressed).unwrap(), input.to_vec());
    }
}

#[test]
fn compression_shrinks_repetitive_input() {
    let source = vec![b'a'; 4096];
    let compressed = compress(&source).unwrap();
    assert!(compressed.len() < source.len());
    assert_eq!(decompress(&compressed).unwrap(), source);
}

#[test]
fn hash_of_empty_input() {
    assert_eq!(hash_data(b""), "da39a3ee5e6b4b0d3255bfef95601890afd80709");
    assert_eq!(hash_data(b"abc"), "a9993e364706816aba3e25717850c26c9cd0d89d");
}

#[test]
fn hash_is_lowercase_hex() {
    for input in [&b""[..], b"a", b"Hello World", &[0u8, 255, 17]] {
        let hash = hash_data(input);
        assert_eq!(hash.len(), 40);
        assert!(hash.bytes().all(|b| b.is_ascii_digit() || (b'a'..=b'f').contains(&b)));
        assert_eq!(digest(input).to_hex(), hash);
    }
}

#[test]
fn compression_round_trips_empty_input() {
    let compressed = compress(b"").unwrap();
    assert!(!compressed.is_empty());
    assert_eq!(decompress(&compressed).unwrap(), Vec::<u8>::new());
}

#[test]
fn compression_round_trips_binary_input() {
    let mut data = Vec::new();
    for i in 0..5000u32 {
        data.push((i % 251) as u8);
        data.push((i / 7) as u8);
    }
    let compressed = compress(&data).unwrap();
    assert_ne!(compressed, data);
    assert_eq!(decompress(&compressed).unwrap(), data);
}

#[test]
fn compression_is_deterministic() {
    let data = b"the same bytes in, the same bytes out";
    assert_eq!(compress(data).unwrap(), compress(data).unwrap());
}

#[test]
fn decompress_rejects_garbage() {
    assert_eq!(decompress(b"this is not a zlib stream"), Err(Error::CorruptData));
    assert_eq!(decompress(b""), Err(Error::CorruptData));
}
