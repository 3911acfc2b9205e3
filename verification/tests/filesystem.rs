use hong_wu::codec::{decode_directory, decode_file, decode_super_block, FsId};
use hong_wu::hong_wu::HongWu;
use hong_wu::mem_disk::MemDisk;
use hong_wu::{DiskOperator, ErrorType, FsError};

fn formatted_fs(block_size: u64, block_count: u64) -> HongWu<MemDisk> {
    let disk = MemDisk::new(block_size, block_count);
    let mut fs = HongWu::new(disk).unwrap();
    fs.format(FsId { time: 1, random: 2 }).unwrap();
    fs
}

#[test]
fn format_round_trip() {
    let mut fs = formatted_fs(512, 16);
    let block = fs.read_block(0).unwrap();
    let sb = decode_super_block(&block);
    assert_eq!(sb.version, 1);
    assert_eq!(sb.identity, FsId { time: 1, random: 2 });
    assert_eq!(sb.length, 8192);
    assert_eq!(sb.map_address, 1);
    assert_eq!(sb.map_length, 1);
}

#[test]
fn format_reserves_the_first_two_blocks() {
    let mut fs = formatted_fs(512, 16);
    let map = fs.read_block(1).unwrap();
    assert_eq!(map[0], 0b0000_0011);
    assert!(map[1..].iter().all(|&b| b == 0));
}

#[test]
fn no_double_allocation() {
    let mut fs = formatted_fs(512, 16);
    // 16 blocks minus the two reserved ones leave 14 free.
    let mut seen: Vec<u64> = Vec::new();
    for _ in 0..14 {
        let lba = fs.get_free_block().unwrap();
        assert!(lba != 0 && lba != 1);
        assert!(!seen.contains(&lba));
        seen.push(lba);
    }
    // First-fit order: ascending LBAs from 2.
    assert_eq!(seen, (2u64..16).collect::<Vec<u64>>());
}

#[test]
fn exhaustion_returns_no_free_space() {
    let mut fs = formatted_fs(512, 16);
    for _ in 0..14 {
        fs.get_free_block().unwrap();
    }
    assert!(matches!(fs.get_free_block(), Err(FsError::NoFreeSpace)));
    assert!(matches!(fs.get_free_block(), Err(FsError::NoFreeSpace)));
}

#[test]
fn bitmap_persists_across_allocator_calls() {
    let mut fs = formatted_fs(512, 16);
    assert_eq!(fs.get_free_block().unwrap(), 2);
    // An independent read of the bitmap block shows the bit durably set.
    let map = fs.read_block(1).unwrap();
    assert_eq!(map[0], 0b0000_0111);
    assert_eq!(fs.get_free_block().unwrap(), 3);
    let map = fs.read_block(1).unwrap();
    assert_eq!(map[0], 0b0000_1111);
}

#[test]
fn create_directory_persists_the_record() {
    let mut fs = formatted_fs(512, 16);
    let lba = fs.create_directory(b"home").unwrap();
    assert_eq!(lba, 2);
    let block = fs.read_block(lba).unwrap();
    let dir = decode_directory(&block);
    assert_eq!(dir.name[0..4], *b"home");
    assert!(dir.name[4..].iter().all(|&b| b == 0));
    assert_eq!(dir.index_data_lba, 0);
}

#[test]
fn create_directory_rejects_long_names() {
    let mut fs = formatted_fs(512, 16);
    let name = [0x62u8; 257];
    assert!(matches!(fs.create_directory(&name), Err(FsError::NameTooLong)));
    // The rejection happens before any allocation.
    assert_eq!(fs.get_free_block().unwrap(), 2);
}

#[test]
fn create_file_rejects_long_names() {
    let mut fs = formatted_fs(512, 16);
    let name = [0x63u8; 257];
    assert!(matches!(fs.create_file(&name), Err(FsError::NameTooLong)));
    // The rejection happens before any allocation.
    assert_eq!(fs.get_free_block().unwrap(), 2);
}

#[test]
fn create_file_persists_the_record() {
    let mut fs = formatted_fs(512, 16);
    let lba = fs.create_file(b"notes.txt").unwrap();
    assert_eq!(lba, 2);
    let block = fs.read_block(lba).unwrap();
    let file = decode_file(&block);
    assert_eq!(file.name[0..9], *b"notes.txt");
    assert_eq!(file.size, 0);
    assert_eq!(file.data_index_lba, 0);
}

#[test]
fn builders_use_distinct_blocks() {
    let mut fs = formatted_fs(512, 16);
    let a = fs.create_directory(b"a").unwrap();
    let b = fs.create_directory(b"b").unwrap();
    let c = fs.create_file(b"c").unwrap();
    assert_eq!((a, b, c), (2, 3, 4));
}

#[test]
fn released_blocks_are_reallocated_first() {
    let mut fs = formatted_fs(512, 16);
    let a = fs.get_free_block().unwrap();
    let b = fs.get_free_block().unwrap();
    assert_eq!((a, b), (2, 3));
    fs.release_block(a).unwrap();
    let map = fs.read_block(1).unwrap();
    assert_eq!(map[0], 0b0000_1011);
    // The freed block is the first free bit again.
    assert_eq!(fs.get_free_block().unwrap(), a);
    assert_eq!(fs.get_free_block().unwrap(), 4);
}

#[test]
fn data_chain_blocks_persist() {
    let mut fs = formatted_fs(512, 16);
    let first = fs.create_data_block(0, 0, b"hello").unwrap();
    let second = fs.create_data_block(first, 0, b"world").unwrap();
    assert_eq!((first, second), (2, 3));
    let d1 = fs.read_data_block(first).unwrap().unwrap();
    assert_eq!(d1.prev_block_index, 0);
    assert_eq!(d1.next_block_index, 0);
    assert_eq!(d1.size, 5);
    assert_eq!(d1.payload.as_slice(), b"hello");
    let d2 = fs.read_data_block(second).unwrap().unwrap();
    assert_eq!(d2.prev_block_index, first);
    assert_eq!(d2.payload.as_slice(), b"world");
}

#[test]
fn small_devices_are_rejected() {
    assert!(matches!(HongWu::new(MemDisk::new(256, 16)), Err(FsError::DeviceTooSmall)));
    assert!(matches!(HongWu::new(MemDisk::new(512, 8)), Err(FsError::DeviceTooSmall)));
    assert!(HongWu::new(MemDisk::new(512, 16)).is_ok());
}

#[test]
fn unformatted_device_reads_as_zero() {
    let disk = MemDisk::new(512, 16);
    let mut fs = HongWu::new(disk).unwrap();
    let block = fs.read_block(0).unwrap();
    assert!(block.iter().all(|&b| b == 0));
}

#[test]
fn mem_disk_rejects_bad_writes() {
    let mut disk = MemDisk::new(512, 16);
    assert!(matches!(disk.write(16, &[0u8; 4]), Err(ErrorType::OutOfLbaRange)));
    assert!(matches!(disk.write(0, &[0u8; 513]), Err(ErrorType::WriteTooMuch)));
    let mut buffer = Vec::new();
    assert!(matches!(disk.read(99, &mut buffer), Err(ErrorType::OutOfLbaRange)));
}

#[test]
fn mem_disk_partial_write_keeps_the_tail() {
    let mut disk = MemDisk::new(512, 16);
    disk.write(3, &[7u8; 512]).unwrap();
    disk.write(3, &[9u8; 4]).unwrap();
    let mut buffer = Vec::new();
    let n = disk.read(3, &mut buffer).unwrap();
    assert_eq!(n, 512);
    assert_eq!(&buffer[0..4], &[9, 9, 9, 9]);
    assert!(buffer[4..].iter().all(|&b| b == 7));
}

struct FailingDisk;

impl DiskOperator for FailingDisk {
    fn disk(&self) -> vstd::seq::Seq<vstd::seq::Seq<u8>> {
        unreachable!()
    }

    fn spec_block_size(&self) -> u64 {
        unreachable!()
    }

    fn spec_block_count(&self) -> u64 {
        unreachable!()
    }

    fn block_size(&self) -> u64 {
        512
    }

    fn block_count(&self) -> u64 {
        16
    }

    fn read(&mut self, _lba: u64, _buffer: &mut Vec<u8>) -> Result<u64, ErrorType> {
        Err(ErrorType::UndefinedError(String::from("device gone")))
    }

    fn write(&mut self, _lba: u64, _buffer: &[u8]) -> Result<(), ErrorType> {
        Err(ErrorType::UndefinedError(String::from("device gone")))
    }
}

#[test]
fn device_failures_are_propagated() {
    let mut fs = HongWu::new(FailingDisk).unwrap();
    let r = fs.format(FsId { time: 1, random: 2 });
    assert!(matches!(r, Err(FsError::Device(ErrorType::UndefinedError(_)))));
}
