use hong_wu::codec::{
    decode_data_block, decode_directory, decode_directory_item, decode_file, decode_super_block,
    encode_data_block, encode_directory, encode_directory_item, encode_file, encode_super_block,
    pad_name, push_u64_be, u64_from_be_at, DataBlock, Directory, DirectoryItem, DirectoryItemType,
    File, FsId, SuperBlock,
};
use hong_wu::FsError;

#[test]
fn u64_big_endian_layout() {
    let mut out: Vec<u8> = Vec::new();
    push_u64_be(&mut out, 0x0102030405060708);
    assert_eq!(out, vec![1, 2, 3, 4, 5, 6, 7, 8]);
    assert_eq!(u64_from_be_at(&out, 0), 0x0102030405060708);
}

#[test]
fn fs_id_matches_guuid_serialisation() {
    let id = FsId { time: 0x1122334455667788, random: 0x99aabbccddeeff00 };
    let bytes = id.to_bytes();
    let reference = guuid::Guuid::new(id.time, id.random).to_bytes();
    assert_eq!(bytes.as_slice(), &reference[..]);
}

#[test]
fn super_block_round_trip() {
    let sb = SuperBlock {
        version: 1,
        identity: FsId { time: 77, random: 12345678901234567890 },
        length: 8192,
        map_address: 1,
        map_length: 1,
    };
    let bytes = encode_super_block(&sb);
    assert_eq!(bytes.len(), 48);
    let back = decode_super_block(&bytes);
    assert_eq!(back, sb);
}

#[test]
fn super_block_layout_is_big_endian() {
    let sb = SuperBlock {
        version: 1,
        identity: FsId { time: 0, random: 2 },
        length: 8192,
        map_address: 1,
        map_length: 1,
    };
    let bytes = encode_super_block(&sb);
    // version then identity then length then map address then map length,
    // all fixed-width big-endian.
    assert_eq!(&bytes[0..8], &[0, 0, 0, 0, 0, 0, 0, 1]);
    assert_eq!(&bytes[8..24], &[0, 0, 0, 0, 0, 0, 0, 0, 0, 0, 0, 0, 0, 0, 0, 2]);
    assert_eq!(&bytes[24..32], &[0, 0, 0, 0, 0, 0, 0x20, 0]);
    assert_eq!(&bytes[32..40], &[0, 0, 0, 0, 0, 0, 0, 1]);
    assert_eq!(&bytes[40..48], &[0, 0, 0, 0, 0, 0, 0, 1]);
}

#[test]
fn directory_round_trip() {
    let d = Directory::new(b"home").unwrap();
    let bytes = encode_directory(&d);
    assert_eq!(bytes.len(), 264);
    let back = decode_directory(&bytes);
    assert_eq!(back.name[0..4], *b"home");
    assert!(back.name[4..].iter().all(|&b| b == 0));
    assert_eq!(back.index_data_lba, 0);
    assert_eq!(back, d);
}

#[test]
fn directory_name_too_long() {
    let name = [0x61u8; 257];
    assert!(matches!(Directory::new(&name), Err(FsError::NameTooLong)));
    let exact = [0x61u8; 256];
    assert!(Directory::new(&exact).is_ok());
}

#[test]
fn pad_name_fills_with_zeros() {
    let padded = pad_name(b"ab").unwrap();
    assert_eq!(padded.len(), 256);
    assert_eq!(&padded[0..2], b"ab");
    assert!(padded[2..].iter().all(|&b| b == 0));
    assert!(matches!(pad_name(&[1u8; 300]), Err(FsError::NameTooLong)));
}

#[test]
fn file_round_trip() {
    let mut f = File::new(b"notes.txt").unwrap();
    f.size = 1024;
    f.data_index_lba = 9;
    let bytes = encode_file(&f);
    assert_eq!(bytes.len(), 272);
    let back = decode_file(&bytes);
    assert_eq!(back.name[0..9], *b"notes.txt");
    assert_eq!(back.size, 1024);
    assert_eq!(back.data_index_lba, 9);
    assert_eq!(back, f);
}

#[test]
fn data_block_round_trip() {
    let d = DataBlock {
        prev_block_index: 3,
        next_block_index: 0,
        size: 5,
        payload: vec![10, 20, 30, 40, 50],
    };
    let bytes = encode_data_block(&d);
    assert_eq!(bytes.len(), 29);
    let back = decode_data_block(&bytes).unwrap();
    assert_eq!(back, d);
}

#[test]
fn data_block_oversized_length_is_refused() {
    let mut bytes = Vec::new();
    push_u64_be(&mut bytes, 0);
    push_u64_be(&mut bytes, 0);
    push_u64_be(&mut bytes, 1000);
    assert!(decode_data_block(&bytes).is_none());
}

#[test]
fn directory_item_round_trip() {
    let file_item = DirectoryItem { item_type: DirectoryItemType::File, item_lba: 7 };
    let dir_item = DirectoryItem { item_type: DirectoryItemType::Directory, item_lba: 8 };
    let fb = encode_directory_item(&file_item);
    let db = encode_directory_item(&dir_item);
    assert_eq!(fb.len(), 16);
    assert_eq!(fb[7], 0);
    assert_eq!(db[7], 1);
    assert_eq!(decode_directory_item(&fb), Some(file_item));
    assert_eq!(decode_directory_item(&db), Some(dir_item));
}

#[test]
fn directory_item_unknown_tag_is_refused() {
    let mut bytes = Vec::new();
    push_u64_be(&mut bytes, 2);
    push_u64_be(&mut bytes, 7);
    assert_eq!(decode_directory_item(&bytes), None);
}
