use pumpkin_logic::pump::{
    decode_region, encode_region, ChunkReadingError, ChunkTable, ChunkWritingError, PumpData,
    PumpFile,
};

#[test]
fn chunk_keys_name_the_region() {
    assert_eq!(PumpFile::get_chunk_key(0, 0), "r.0.0.pump");
    assert_eq!(PumpFile::get_chunk_key(31, 32), "r.0.1.pump");
    assert_eq!(PumpFile::get_chunk_key(-1, 33), "r.-1.1.pump");
    assert_eq!(PumpFile::get_chunk_key(-33, -32), "r.-2.-1.pump");
    assert_eq!(PumpFile::get_chunk_key(i32::MIN, i32::MAX), "r.-67108864.67108863.pump");
}

#[test]
fn a_region_file_is_always_written() {
    let file = PumpFile::default();
    assert!(file.should_write(false));
    assert!(file.should_write(true));
}

#[test]
fn stored_chunks_are_read_back() {
    let mut file = PumpFile::default();
    assert_eq!(file.update_chunk(33, -2, Ok(vec![1, 2, 3])), Ok(()));
    assert_eq!(file.data.x, 1);
    assert_eq!(file.data.z, -1);
    // index 1 + 30 * 32 = 961
    assert_eq!(file.data.chunks.get("961"), Some(&vec![1, 2, 3]));
    assert_eq!(file.update_chunk(33, -2, Ok(vec![9])), Ok(()));
    assert_eq!(file.update_chunk(32, -32, Ok(vec![7, 7])), Ok(()));
    assert_eq!(file.data.chunks.len(), 2);
    let found = file.get_chunks(&[(33, -2), (32, -32), (0, 1), (1, 30)]);
    assert_eq!(found, vec![Some(vec![9]), Some(vec![7, 7]), None, Some(vec![9])]);
}

#[test]
fn a_failed_chunk_serialization_is_handed_on() {
    let mut file = PumpFile::default();
    let r = file.update_chunk(70, 5, Err("broken".to_string()));
    assert_eq!(r, Err(ChunkWritingError::ChunkSerializingError("broken".to_string())));
    assert_eq!(file.data.x, 2);
    assert_eq!(file.data.z, 0);
    assert_eq!(file.data.chunks.len(), 0);
}

#[test]
fn chunk_keys_are_kept_in_text_order() {
    let mut table = ChunkTable::new();
    table.insert("2".to_string(), vec![2]);
    table.insert("10".to_string(), vec![10]);
    table.insert("1".to_string(), vec![1]);
    table.insert("2".to_string(), vec![22]);
    let keys: Vec<String> = (0..table.len()).map(|i| table.entry(i).0.clone()).collect();
    assert_eq!(keys, vec!["1", "10", "2"]);
    assert_eq!(table.get("2"), Some(&vec![22]));
    assert_eq!(table.get("3"), None);
}

#[test]
fn region_layout_is_nbt() {
    let mut chunks = ChunkTable::new();
    chunks.insert("5".to_string(), vec![0xAB, 0xCD]);
    let bytes = encode_region(-1, 2, &chunks).unwrap();
    let expected: Vec<u8> = vec![
        10, 3, 0, 1, b'x', 0xFF, 0xFF, 0xFF, 0xFF, 3, 0, 1, b'z', 0, 0, 0, 2, 10, 0, 6, b'c', b'h',
        b'u', b'n', b'k', b's', 7, 0, 1, b'5', 0, 0, 0, 2, 0xAB, 0xCD, 0, 0,
    ];
    assert_eq!(bytes, expected);
    let data = decode_region(&bytes).unwrap();
    assert_eq!(data.x, -1);
    assert_eq!(data.z, 2);
    assert_eq!(data.chunks.get("5"), Some(&vec![0xAB, 0xCD]));
}

#[test]
fn region_layout_rejects_other_bytes() {
    assert!(decode_region(&[]).is_none());
    let mut chunks = ChunkTable::new();
    chunks.insert("1".to_string(), vec![1]);
    chunks.insert("2".to_string(), vec![2]);
    let good = encode_region(0, 0, &chunks).unwrap();
    assert!(decode_region(&good).is_some());
    // wrong tag for a chunk
    let mut wrong_tag = good.clone();
    wrong_tag[26] = 9;
    assert!(decode_region(&wrong_tag).is_none());
    // not a compound at the root
    let mut not_compound = good.clone();
    not_compound[0] = 9;
    assert!(decode_region(&not_compound).is_none());
    // a field missing: drop the `z` field (bytes 9..17)
    let mut no_z = good[..9].to_vec();
    no_z.extend_from_slice(&good[17..]);
    assert!(decode_region(&no_z).is_none());
    // a field twice: repeat the `x` field
    let mut twice = good[..9].to_vec();
    twice.extend_from_slice(&good[1..]);
    assert!(decode_region(&twice).is_none());
}

#[test]
fn region_layout_accepts_any_order() {
    let mut chunks = ChunkTable::new();
    chunks.insert("1".to_string(), vec![1]);
    chunks.insert("2".to_string(), vec![2]);
    let good = encode_region(3, -4, &chunks).unwrap();
    // keys out of order: swap the one-byte key texts
    let mut swapped = good.clone();
    let first = good.iter().position(|&b| b == b'1').unwrap();
    let second = good.iter().position(|&b| b == b'2').unwrap();
    swapped[first] = b'2';
    swapped[second] = b'1';
    let data = decode_region(&swapped).unwrap();
    assert_eq!(data.chunks.get("1"), Some(&vec![2]));
    assert_eq!(data.chunks.get("2"), Some(&vec![1]));
    assert_eq!(data.chunks.entry(0).0, "1");
    // a repeated key: the later entry wins
    let mut repeated = good.clone();
    repeated[second] = b'1';
    let data = decode_region(&repeated).unwrap();
    assert_eq!(data.chunks.len(), 1);
    assert_eq!(data.chunks.get("1"), Some(&vec![2]));
    // fields in another order: `z`, then `chunks`, then `x`
    let mut reordered = vec![10u8];
    reordered.extend_from_slice(&good[9..17]);
    reordered.extend_from_slice(&good[17..good.len() - 1]);
    reordered.extend_from_slice(&good[1..9]);
    reordered.push(0);
    let data = decode_region(&reordered).unwrap();
    assert_eq!((data.x, data.z, data.chunks.len()), (3, -4, 2));
    // bytes after the root compound are not read
    let mut longer = good.clone();
    longer.push(0);
    assert!(decode_region(&longer).is_some());
}

#[test]
fn a_written_file_is_read_back() {
    let mut file = PumpFile::default();
    file.update_chunk(5, 6, Ok(vec![1, 2, 3, 4])).unwrap();
    file.update_chunk(-7, 40, Ok(vec![])).unwrap();
    let bytes = file.write().unwrap();
    let read = PumpFile::read(&bytes).unwrap();
    assert_eq!(read.data.x, file.data.x);
    assert_eq!(read.data.z, file.data.z);
    assert_eq!(read.data.chunks.len(), 2);
    assert_eq!(read.get_chunks(&[(5, 6), (-7, 40)]), vec![Some(vec![1, 2, 3, 4]), Some(vec![])]);
}

#[test]
fn read_distinguishes_compression_and_layout_errors() {
    assert_eq!(PumpFile::read(&[1, 2, 3]).err(), Some(ChunkReadingError::IoError));
    let not_a_region = ruzstd::encoding::compress_to_vec(
        &b"hello"[..],
        ruzstd::encoding::CompressionLevel::Fastest,
    );
    assert_eq!(PumpFile::read(&not_a_region).err(), Some(ChunkReadingError::ParsingError));
}

#[test]
fn default_data_is_empty() {
    let data = PumpData::default();
    assert_eq!((data.x, data.z, data.chunks.len()), (0, 0, 0));
}

#[test]
fn region_files_are_zstandard_frames() {
    let mut file = PumpFile::default();
    file.update_chunk(1, 1, Ok(vec![0; 64])).unwrap();
    let raw = encode_region(file.data.x, file.data.z, &file.data.chunks).unwrap();
    let bytes = file.write().unwrap();
    assert_ne!(bytes, raw);
    assert_eq!(&bytes[..4], &[0x28, 0xB5, 0x2F, 0xFD]);
}

#[test]
fn chunks_of_one_region_share_a_file() {
    assert_eq!(PumpFile::get_chunk_key(0, 32), PumpFile::get_chunk_key(31, 63));
    assert_ne!(PumpFile::get_chunk_key(0, 32), PumpFile::get_chunk_key(32, 32));
    assert_ne!(PumpFile::get_chunk_key(-1, 0), PumpFile::get_chunk_key(0, -1));
}

#[test]
fn unicode_keys_survive_the_layout() {
    let mut chunks = ChunkTable::new();
    chunks.insert("\u{e9}t\u{e9}".to_string(), vec![3]);
    let bytes = encode_region(4, 4, &chunks).unwrap();
    let data = decode_region(&bytes).unwrap();
    assert_eq!(data.chunks.get("\u{e9}t\u{e9}"), Some(&vec![3]));
}

#[test]
fn region_layout_skips_fields_of_other_names() {
    let mut chunks = ChunkTable::new();
    chunks.insert("7".to_string(), vec![9, 8]);
    let good = encode_region(5, 6, &chunks).unwrap();
    let mut extra: Vec<u8> = vec![10u8];
    // an int named `DataVersion`
    extra.extend_from_slice(&[3, 0, 11]);
    extra.extend_from_slice(b"DataVersion");
    extra.extend_from_slice(&[0, 0, 0x0D, 0x4B]);
    // a compound named `meta` holding a list of ints, a string and a long array
    extra.extend_from_slice(&[10, 0, 4]);
    extra.extend_from_slice(b"meta");
    extra.extend_from_slice(&[9, 0, 1, b'l', 3, 0, 0, 0, 2, 0, 0, 0, 1, 0, 0, 0, 2]);
    extra.extend_from_slice(&[8, 0, 1, b's', 0, 2, b'h', b'i']);
    extra.extend_from_slice(&[12, 0, 1, b'a', 0, 0, 0, 1, 1, 2, 3, 4, 5, 6, 7, 8]);
    extra.push(0);
    // an empty list of end tags named `e`
    extra.extend_from_slice(&[9, 0, 1, b'e', 0, 0, 0, 0, 0]);
    extra.extend_from_slice(&good[1..]);
    let data = decode_region(&extra).unwrap();
    assert_eq!((data.x, data.z), (5, 6));
    assert_eq!(data.chunks.get("7"), Some(&vec![9, 8]));

    // a field of another name that is cut short is refused
    let mut short = good[..good.len() - 1].to_vec();
    short.extend_from_slice(&[11, 0, 1, b'q', 0, 0, 0, 3, 0, 0, 0, 1]);
    assert!(decode_region(&short).is_none());
    // a list of end tags that is not empty is refused
    let mut end_list = vec![10u8];
    end_list.extend_from_slice(&[9, 0, 1, b'e', 0, 0, 0, 0, 1]);
    end_list.extend_from_slice(&good[1..]);
    assert!(decode_region(&end_list).is_none());
    // a field named `x` of another type is refused
    let mut wrong_x = vec![10u8];
    wrong_x.extend_from_slice(&[1, 0, 1, b'x', 4]);
    wrong_x.extend_from_slice(&good[1..]);
    assert!(decode_region(&wrong_x).is_none());
}
