use easy_fs::{
    Bitmap, BlockCache, BlockCacheManager, BlockDevice, DirEntry, DiskInode, DiskInodeType,
    MemoryDevice, SuperBlock,
};

#[test]
fn total_blocks_counts_index_blocks() {
    assert_eq!(DiskInode::total_blocks(0), 0);
    assert_eq!(DiskInode::total_blocks(1), 1);
    assert_eq!(DiskInode::total_blocks(28 * 512), 28);
    assert_eq!(DiskInode::total_blocks(28 * 512 + 1), 30);
    assert_eq!(DiskInode::total_blocks(156 * 512), 157);
    assert_eq!(DiskInode::total_blocks(157 * 512), 160);
    assert_eq!(DiskInode::total_blocks(284 * 512), 287);
    assert_eq!(DiskInode::total_blocks(285 * 512), 289);
    assert_eq!(DiskInode::total_blocks(2000 * 512), 2017);
    assert_eq!(DiskInode::_data_blocks(513), 2);
    assert_eq!(DiskInode::_data_blocks(u32::MAX), 8388608);
}

#[test]
fn blocks_needed_is_a_difference() {
    let mut ino = DiskInode::new(DiskInodeType::File);
    assert_eq!(ino.blocks_num_needed(28 * 512), 28);
    ino.alloc_size = 28 * 512;
    assert_eq!(ino.blocks_num_needed(29 * 512), 2);
    assert_eq!(ino.data_blocks(), 28);
}

#[test]
fn disk_inode_kinds() {
    let mut ino = DiskInode::new(DiskInodeType::Directory);
    assert!(ino.is_dir());
    assert!(!ino.is_file());
    ino.size = 9;
    ino.initialize(DiskInodeType::File);
    assert!(ino.is_file());
    assert_eq!(ino.size, 0);
}

#[test]
fn disk_inode_bytes_round_trip() {
    let mut ino = DiskInode::new(DiskInodeType::Directory);
    ino.size = 96;
    ino.alloc_size = 512;
    ino.direct[0] = 1234;
    ino.direct[27] = 99;
    ino.indirect1 = 7;
    ino.indirect2 = 0xdead_beef;
    let bytes = ino.to_bytes();
    assert_eq!(bytes.len(), 128);
    assert_eq!(&bytes[0..4], &[96, 0, 0, 0]);
    assert_eq!(&bytes[4..8], &[0, 2, 0, 0x80]);
    let back = DiskInode::from_bytes(&bytes, 0);
    assert_eq!(back.size, 96);
    assert_eq!(back.alloc_size, 512);
    assert_eq!(back.direct, ino.direct);
    assert_eq!(back.indirect1, 7);
    assert_eq!(back.indirect2, 0xdead_beef);
    assert!(back.is_dir());
}

#[test]
fn dir_entry_fields() {
    let e = DirEntry::new("hello", 42);
    assert_eq!(e.name(), "hello");
    assert!(e.name_is("hello"));
    assert!(!e.name_is("hell"));
    assert_eq!(e.inode_id(), 42);
    let bytes = e.as_bytes();
    assert_eq!(bytes.len(), 32);
    assert_eq!(&bytes[..5], b"hello");
    assert_eq!(bytes[5], 0);
    assert_eq!(&bytes[28..], &[42, 0, 0, 0]);
    let back = DirEntry::from_bytes(&bytes, 0);
    assert_eq!(back.name(), "hello");
    assert_eq!(back.inode_id(), 42);
    let empty = DirEntry::create_empty();
    assert_eq!(empty.name(), "");
    assert_eq!(empty.inode_id(), 0);
}

#[test]
fn dir_entry_rename_keeps_id() {
    let mut e = DirEntry::new("a_rather_long_name", 3);
    e.chname("short");
    assert_eq!(e.name(), "short");
    assert_eq!(e.inode_id(), 3);
    let longest = "abcdefghijklmnopqrstuvwxyz0";
    assert_eq!(longest.len(), 27);
    e.chname(longest);
    assert_eq!(e.name(), longest);
}

#[test]
fn super_block_bytes() {
    let mut sb = SuperBlock::empty();
    assert!(!sb.is_valid());
    sb.initialize(100, 1, 1024, 1, 50);
    assert!(sb.is_valid());
    assert_eq!(sb.magic(), 0x3b800001);
    let bytes = sb.to_bytes();
    assert_eq!(bytes.len(), 512);
    assert_eq!(&bytes[0..4], &[0x01, 0x00, 0x80, 0x3b]);
    assert!(bytes[24..].iter().all(|b| *b == 0));
    let back = SuperBlock::from_bytes(&bytes);
    assert_eq!(back.total_blocks, 100);
    assert_eq!(back.inode_area_blocks, 1024);
    assert_eq!(back.data_area_blocks, 50);
}

#[test]
fn bitmap_hands_out_lowest_bits() {
    let mut cache = BlockCacheManager::new(MemoryDevice::new(8));
    let bm = Bitmap::new(1, 2);
    assert_eq!(bm.maximum(), 8192);
    assert_eq!(bm.alloc_bit(&mut cache), Some(0));
    assert_eq!(bm.alloc_bit(&mut cache), Some(1));
    assert_eq!(bm.alloc_bit(&mut cache), Some(2));
    bm.dealloc(&mut cache, 1);
    assert!(!bm.is_set(&mut cache, 1));
    assert_eq!(bm.alloc_bit(&mut cache), Some(1));
    assert_eq!(bm.alloc_bit(&mut cache), Some(3));
    assert_eq!(bm.count_free(&mut cache, 8192), 8188);
}

#[test]
fn bitmap_crosses_groups_and_blocks() {
    let mut cache = BlockCacheManager::new(MemoryDevice::new(8));
    let bm = Bitmap::new(1, 2);
    for i in 0..4100 {
        assert_eq!(bm.alloc_bit(&mut cache), Some(i));
    }
    // bit 4097 lives in the second block of the region
    bm.dealloc(&mut cache, 4097);
    bm.dealloc(&mut cache, 70);
    assert_eq!(bm.alloc_bit(&mut cache), Some(70));
    assert_eq!(bm.alloc_bit(&mut cache), Some(4097));
    let block = cache.read_block(1);
    // group 1 (bits 64..128) is full: bytes 8..16 are all ones
    assert!(block[8..16].iter().all(|b| *b == 0xff));
}

#[test]
fn bitmap_full_returns_none() {
    let mut cache = BlockCacheManager::new(MemoryDevice::new(4));
    let bm = Bitmap::new(1, 1);
    for i in 0..4096 {
        assert_eq!(bm.alloc_bit(&mut cache), Some(i));
    }
    assert_eq!(bm.alloc_bit(&mut cache), None);
}

#[test]
fn cache_writes_back_on_eviction() {
    let mut cache = BlockCacheManager::new(MemoryDevice::new(40));
    cache.write_u32(3, 8, 0x0102_0304);
    assert_eq!(cache.read_u32(3, 8), 0x0102_0304);
    // touching 16 other blocks evicts block 3
    for b in 10..26 {
        cache.read_block(b);
    }
    let mut raw = vec![0u8; 512];
    cache.device().read_block(3, &mut raw);
    assert_eq!(&raw[8..12], &[4, 3, 2, 1]);
    assert_eq!(cache.read_u32(3, 8), 0x0102_0304);
    // blocks past the end read as zeros and ignore writes
    cache.write_u32(100, 0, 5);
    assert_eq!(cache.read_u32(100, 0), 0);
}

#[test]
fn block_cache_sync_writes_once() {
    let mut dev = MemoryDevice::new(4);
    let mut c = BlockCache::new(2, &dev);
    assert!(!c.modified);
    c.cache[0] = 9;
    c.modified = true;
    c.sync(&mut dev);
    assert!(!c.modified);
    let mut raw = vec![0u8; 512];
    dev.read_block(2, &mut raw);
    assert_eq!(raw[0], 9);
}

#[test]
fn memory_device_round_trip() {
    let mut dev = MemoryDevice::new(3);
    assert_eq!(dev.num_blocks(), 3);
    let data: Vec<u8> = (0..512).map(|i| (i % 256) as u8).collect();
    dev.write_block(1, &data);
    let mut back = vec![0u8; 512];
    dev.read_block(1, &mut back);
    assert_eq!(back, data);
}

#[test]
fn dir_entry_rename_clears_old_tail() {
    let mut e = DirEntry::new("abc", 7);
    e.chname("a");
    let bytes = e.as_bytes();
    assert_eq!(bytes[0], b'a');
    assert!(bytes[1..28].iter().all(|b| *b == 0));
    assert_eq!(&bytes[28..], &[7, 0, 0, 0]);
}
