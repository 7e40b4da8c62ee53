use usf::codec::CompressionMethod;
use usf::{encode_i64_seq, DataType, StorageError, UniversalStorage};

#[test]
fn test_basic_storage() {
    let mut storage = UniversalStorage::create();

    // Store text
    let text = "Hello, World!".as_bytes();
    storage.store("greeting", text, DataType::Text).unwrap();

    // Retrieve text
    let retrieved = storage.retrieve("greeting").unwrap();
    assert_eq!(text, retrieved.as_slice());
}

#[test]
fn test_large_data() {
    let mut storage = UniversalStorage::create();

    // Create large data
    let large_data: Vec<u8> = (0..65536 * 3).map(|i| (i % 256) as u8).collect();

    // Store data
    storage.store("large", &large_data, DataType::Binary).unwrap();

    // Retrieve data
    let retrieved = storage.retrieve("large").unwrap();
    assert_eq!(large_data, retrieved);
}

#[test]
fn large_store_appends_at_least_three_blocks() {
    let mut storage = UniversalStorage::create();
    let large_data: Vec<u8> = (0..65536 * 3).map(|i| (i % 256) as u8).collect();
    storage.store("large", &large_data, DataType::Binary).unwrap();
    assert!(storage.total_blocks() >= 3);
}

#[test]
fn multi_key_independence() {
    let mut storage = UniversalStorage::create();
    let a = b"alpha payload".to_vec();
    let b: Vec<u8> = (0..3000).map(|i| (i % 251) as u8).collect();
    let c = b"{\"kind\":\"json\"}".to_vec();
    storage.store("a", &a, DataType::Text).unwrap();
    storage.store("b", &b, DataType::Binary).unwrap();
    storage.store("c", &c, DataType::Json).unwrap();
    assert_eq!(storage.retrieve("c").unwrap(), c);
    assert_eq!(storage.retrieve("a").unwrap(), a);
    assert_eq!(storage.retrieve("b").unwrap(), b);
    assert_eq!(storage.retrieve("a").unwrap(), a);
}

#[test]
fn overwrite_semantics() {
    let mut storage = UniversalStorage::create();
    storage.store("k", b"first value", DataType::Text).unwrap();
    storage.store("k", b"second value, longer", DataType::Json).unwrap();
    assert_eq!(storage.retrieve("k").unwrap(), b"second value, longer");
}

#[test]
fn persistence_across_reopen() {
    let mut storage = UniversalStorage::create();
    let data: Vec<u8> = (0..70_000).map(|i| (i % 199) as u8).collect();
    storage.store("big", &data, DataType::Binary).unwrap();
    storage.store("small", b"tiny", DataType::Text).unwrap();

    let image = storage.container_bytes().clone();
    let mut reopened = UniversalStorage::open(image).unwrap();
    assert_eq!(reopened.retrieve("big").unwrap(), data);
    assert_eq!(reopened.retrieve("small").unwrap(), b"tiny");

    // the reopened store keeps working
    reopened.store("more", b"after reopen", DataType::Text).unwrap();
    assert_eq!(reopened.retrieve("more").unwrap(), b"after reopen");
}

#[test]
fn container_format_prefix() {
    let mut storage = UniversalStorage::create();
    storage.store("greeting", b"Hello, World!", DataType::Text).unwrap();
    let image = storage.container_bytes();
    assert!(image.len() > 13);
    assert_eq!(&image[0..5], &[0x55, 0x53, 0x46, 0x31, 0x01]);
}

#[test]
fn empty_payload_writes_no_chain() {
    let mut storage = UniversalStorage::create();
    storage.store("empty", b"", DataType::Text).unwrap();
    assert_eq!(storage.total_blocks(), 0);
    assert_eq!(storage.retrieve("empty").unwrap_err(), StorageError::NotFound);
}

#[test]
fn retrieve_missing_key_is_not_found() {
    let mut storage = UniversalStorage::create();
    storage.store("present", b"x", DataType::Text).unwrap();
    assert_eq!(storage.retrieve("absent").unwrap_err(), StorageError::NotFound);
}

#[test]
fn bit_flip_in_head_payload_is_corruption() {
    let mut storage = UniversalStorage::create();
    storage.store("k", b"abcdefghij", DataType::Binary).unwrap();
    // tail-first writing puts the head block last, its payload at the very
    // end of the image
    let mut image = storage.container_bytes().clone();
    let last = image.len() - 1;
    image[last] ^= 0x01;
    let mut corrupted = UniversalStorage::open(image).unwrap();
    assert_eq!(corrupted.retrieve("k").unwrap_err(), StorageError::Corruption);
}

#[test]
fn bit_flip_in_first_written_block_is_corruption() {
    let mut storage = UniversalStorage::create();
    let data: Vec<u8> = (0..65536 * 2).map(|i| (i % 256) as u8).collect();
    storage.store("large", &data, DataType::Binary).unwrap();
    let mut image = storage.container_bytes().clone();
    // the first block after the metadata region: 4-byte header length, a
    // 39-byte header (no successor), then its payload
    let payload_start = 13 + 4096 + 4 + 39;
    image[payload_start + 10] ^= 0x80;
    let mut corrupted = UniversalStorage::open(image).unwrap();
    assert_eq!(corrupted.retrieve("large").unwrap_err(), StorageError::Corruption);
}

#[test]
fn threshold_small_text_stored_raw() {
    let mut storage = UniversalStorage::create();
    let data: Vec<u8> = (0..1023).map(|i| b'a' + (i % 26) as u8).collect();
    storage.store("small", &data, DataType::Text).unwrap();
    assert_eq!(
        storage.head_block_method("small").unwrap(),
        CompressionMethod::NoCompression
    );
    assert_eq!(storage.retrieve("small").unwrap(), data);
}

#[test]
fn threshold_large_text_compressed() {
    let mut storage = UniversalStorage::create();
    let mut state: u32 = 0x1234_5678;
    let mut data: Vec<u8> = Vec::new();
    for _ in 0..1024 {
        state = state.wrapping_mul(1_664_525).wrapping_add(1_013_904_223);
        data.push(b' ' + (state >> 25) as u8);
    }
    storage.store("text", &data, DataType::Text).unwrap();
    assert_eq!(storage.head_block_method("text").unwrap(), CompressionMethod::Zstd);
    assert_eq!(storage.retrieve("text").unwrap(), data);
}

#[test]
fn json_round_trip() {
    let mut storage = UniversalStorage::create();
    let json = b"{\"a\":1}";
    storage.store("j", json, DataType::Json).unwrap();
    assert_eq!(storage.retrieve("j").unwrap(), json);
}

#[test]
fn structured_small_round_trip() {
    let mut storage = UniversalStorage::create();
    let encoded = encode_i64_seq(&vec![100i64, 101, 102, 103]);
    storage.store("ints", &encoded, DataType::Structured).unwrap();
    assert_eq!(storage.retrieve("ints").unwrap(), encoded);
    // 40 bytes sit below the compression threshold, so the chunk is stored
    // raw rather than delta-encoded
    assert_eq!(
        storage.head_block_method("ints").unwrap(),
        CompressionMethod::NoCompression
    );
}

#[test]
fn structured_large_uses_delta_encoding() {
    let mut storage = UniversalStorage::create();
    let xs: Vec<i64> = (0..200).map(|i| 1_000 + 3 * i as i64).collect();
    let encoded = encode_i64_seq(&xs);
    assert!(encoded.len() >= 1024);
    storage.store("ints", &encoded, DataType::Structured).unwrap();
    assert_eq!(
        storage.head_block_method("ints").unwrap(),
        CompressionMethod::DeltaEncoding
    );
    assert_eq!(storage.retrieve("ints").unwrap(), encoded);
}

#[test]
fn structured_non_canonical_falls_back_to_zstd() {
    let mut storage = UniversalStorage::create();
    let data: Vec<u8> = (0..2000).map(|i| (i % 256) as u8).collect();
    storage.store("notints", &data, DataType::Structured).unwrap();
    assert_eq!(storage.head_block_method("notints").unwrap(), CompressionMethod::Zstd);
    assert_eq!(storage.retrieve("notints").unwrap(), data);
}

#[test]
fn image_payload_that_is_no_image_falls_back() {
    let mut storage = UniversalStorage::create();
    let data: Vec<u8> = (0..4096).map(|i| (i % 256) as u8).collect();
    storage.store("img", &data, DataType::Image).unwrap();
    assert_eq!(storage.head_block_method("img").unwrap(), CompressionMethod::Zstd);
    assert_eq!(storage.retrieve("img").unwrap(), data);
}

#[test]
fn image_payload_is_reencoded_as_webp() {
    // build a small PNG in memory; its stored form is the lossless WebP
    // re-encoding, marked with no compression method
    let img = image::RgbImage::from_fn(64, 64, |x, y| {
        image::Rgb([(x * 4) as u8, (y * 4) as u8, ((x + y) * 2) as u8])
    });
    let mut png = std::io::Cursor::new(Vec::new());
    image::DynamicImage::ImageRgb8(img.clone())
        .write_to(&mut png, image::ImageFormat::Png)
        .unwrap();
    let png_bytes = png.into_inner();
    assert!(png_bytes.len() >= 1024);

    let mut storage = UniversalStorage::create();
    storage.store("pic", &png_bytes, DataType::Image).unwrap();
    assert_eq!(
        storage.head_block_method("pic").unwrap(),
        CompressionMethod::NoCompression
    );
    let stored = storage.retrieve("pic").unwrap();
    let reloaded = image::load_from_memory(&stored).unwrap();
    assert_eq!(reloaded.width(), 64);
    assert_eq!(reloaded.height(), 64);
}

#[test]
fn open_rejects_wrong_magic() {
    let mut bytes = b"USF0".to_vec();
    bytes.extend_from_slice(&[1, 0, 0, 0, 0, 0, 0, 0, 0]);
    match UniversalStorage::open(bytes) {
        Err(e) => assert_eq!(e, StorageError::InvalidFormat),
        Ok(_) => panic!("expected InvalidFormat"),
    }
}

#[test]
fn open_rejects_unsupported_version() {
    let mut bytes = b"USF1".to_vec();
    bytes.push(2);
    match UniversalStorage::open(bytes) {
        Err(e) => assert_eq!(e, StorageError::UnsupportedVersion),
        Ok(_) => panic!("expected UnsupportedVersion"),
    }
}

#[test]
fn open_rejects_truncated_image() {
    match UniversalStorage::open(b"US".to_vec()) {
        Err(e) => assert_eq!(e, StorageError::Corruption),
        Ok(_) => panic!("expected Corruption"),
    }
    let mut bytes = b"USF1".to_vec();
    bytes.push(1);
    bytes.extend_from_slice(&(4096u64).to_le_bytes());
    // the reserved region is missing entirely
    match UniversalStorage::open(bytes) {
        Err(e) => assert_eq!(e, StorageError::Corruption),
        Ok(_) => panic!("expected Corruption"),
    }
}

#[test]
fn open_rejects_garbage_metadata() {
    let mut bytes = b"USF1".to_vec();
    bytes.push(1);
    bytes.extend_from_slice(&(40u64).to_le_bytes());
    bytes.extend_from_slice(&[0xFF; 40]);
    match UniversalStorage::open(bytes) {
        Err(e) => assert_eq!(e, StorageError::CorruptMetadata),
        Ok(_) => panic!("expected CorruptMetadata"),
    }
}

#[test]
fn oversized_key_overflows_metadata_region() {
    let mut storage = UniversalStorage::create();
    let long_key: String = "k".repeat(5000);
    assert_eq!(
        storage.store(&long_key, b"v", DataType::Text).unwrap_err(),
        StorageError::MetadataOverflow
    );
    // the index was not updated, and the store still works
    assert_eq!(storage.retrieve(&long_key).unwrap_err(), StorageError::NotFound);
    storage.store("ok", b"v", DataType::Text).unwrap();
    assert_eq!(storage.retrieve("ok").unwrap(), b"v");
}
