use easy_fs::{BlockDevice, DiskInode, DiskInodeType, FileSystem, MemoryDevice, BLOCK_SIZE};

fn formatted(total: u32, inode_bitmap_blocks: u32) -> FileSystem<MemoryDevice> {
    FileSystem::create(MemoryDevice::new(total as usize), total, inode_bitmap_blocks)
}

#[test]
fn efs_test() {
    let fs = formatted(4096, 1);
    let device = fs.into_device();
    let mut efs = FileSystem::open(device).unwrap();
    let root_inode = efs.root_inode();

    root_inode.create(&mut efs, "filea", DiskInodeType::File);
    root_inode.create(&mut efs, "fileb", DiskInodeType::File);
    for name in root_inode.ls(&mut efs) {
        println!("{}", name);
    }

    let filea = root_inode.find(&mut efs, "filea").unwrap();

    let greet_str = "Hello, world!";
    filea.write(&mut efs, 0, greet_str.as_bytes());
    let mut buffer = [0u8; 233];
    let len = filea.read(&mut efs, 0, &mut buffer);
    assert_eq!(greet_str, core::str::from_utf8(&buffer[..len]).unwrap(),);

    let mut random_str_test = |len: usize| {
        filea.clear(&mut efs);
        assert_eq!(filea.read(&mut efs, 0, &mut buffer), 0,);
        let mut str = String::new();
        for _ in 0..len {
            str.push(char::from('0' as u8 + rand::random::<u8>() % 10));
        }
        filea.write(&mut efs, 0, str.as_bytes());
        let mut read_buffer = [0u8; 127];
        let mut offset = 0usize;
        let mut read_str = String::new();
        loop {
            let len = filea.read(&mut efs, offset, &mut read_buffer);
            if len == 0 {
                break;
            }
            offset += len;
            read_str.push_str(core::str::from_utf8(&read_buffer[..len]).unwrap());
        }
        assert_eq!(str, read_str);
    };

    random_str_test(4 * BLOCK_SIZE);
    random_str_test(8 * BLOCK_SIZE + BLOCK_SIZE / 2);
    random_str_test(100 * BLOCK_SIZE);
    random_str_test(70 * BLOCK_SIZE + BLOCK_SIZE / 7);
    random_str_test((12 + 128) * BLOCK_SIZE);
    random_str_test(400 * BLOCK_SIZE);
    random_str_test(1000 * BLOCK_SIZE);
    random_str_test(2000 * BLOCK_SIZE);
}

#[test]
fn format_sixteen_thousand_blocks() {
    let mut fs = formatted(16384, 1);
    let sb = fs.super_block();
    assert_eq!(sb.magic, 0x3B800001);
    assert!(sb.is_valid());
    assert_eq!(sb.total_blocks, 16384);
    assert_eq!(sb.inode_bitmap_blocks, 1);
    assert_eq!(sb.inode_area_blocks, 1024);
    assert_eq!(sb.data_bitmap_blocks, 4);
    assert_eq!(sb.data_area_blocks, 15354);
    assert_eq!(
        1 + sb.inode_bitmap_blocks + sb.inode_area_blocks + sb.data_bitmap_blocks + sb.data_area_blocks,
        16384
    );
    // the root took inode 0, so the next number handed out is 1
    assert_eq!(fs.alloc_inode(), Some(1));
    let root = fs.root_inode();
    assert_eq!(root.inode_info(), (2, 0));
    assert!(root.is_dir(&mut fs));
    assert_eq!(root.size(&mut fs), 0);
}

#[test]
fn first_inode_is_root() {
    let mut fs = formatted(2048, 1);
    let root = fs.root_inode();
    let (block, offset) = fs.get_disk_inode_pos(0);
    assert_eq!(root.inode_info(), (block as usize, offset));
    assert_eq!(fs.get_disk_inode_pos(5), (2 + 1, 128));
}

#[test]
fn create_two_files_and_list() {
    let mut fs = formatted(4096, 1);
    let root = fs.root_inode();
    assert!(root.create(&mut fs, "filea", DiskInodeType::File).is_some());
    assert!(root.create(&mut fs, "fileb", DiskInodeType::File).is_some());
    assert_eq!(root.ls(&mut fs), vec!["filea".to_string(), "fileb".to_string()]);
    let filea = root.find(&mut fs, "filea").unwrap();
    assert!(filea.is_file(&mut fs));
    assert!(!filea.is_dir(&mut fs));
    assert!(root.find(&mut fs, "filec").is_none());
}

#[test]
fn create_twice_is_refused() {
    let mut fs = formatted(4096, 1);
    let root = fs.root_inode();
    let x = root.create(&mut fs, "x", DiskInodeType::File).unwrap();
    assert!(root.create(&mut fs, "x", DiskInodeType::File).is_none());
    assert!(root.create(&mut fs, "x", DiskInodeType::Directory).is_none());
    let found = root.find(&mut fs, "x").unwrap();
    assert_eq!(found.inode_info(), x.inode_info());
    // inode 1 is the first one after the root
    assert_eq!(x.inode_info(), (2, 128));
    assert_eq!(root.ls(&mut fs), vec!["x".to_string()]);
}

#[test]
fn hello_world_round_trip() {
    let mut fs = formatted(4096, 1);
    let root = fs.root_inode();
    let filea = root.create(&mut fs, "filea", DiskInodeType::File).unwrap();
    let greet = "Hello, world!";
    assert_eq!(filea.write(&mut fs, 0, greet.as_bytes()), 13);
    assert_eq!(filea.size(&mut fs), 13);
    let mut buffer = [0u8; 233];
    let len = filea.read(&mut fs, 0, &mut buffer);
    assert_eq!(len, 13);
    assert_eq!(&buffer[..13], greet.as_bytes());
    assert!(buffer[13..].iter().all(|b| *b == 0));
}

#[test]
fn read_past_end_returns_nothing() {
    let mut fs = formatted(4096, 1);
    let root = fs.root_inode();
    let f = root.create(&mut fs, "f", DiskInodeType::File).unwrap();
    assert_eq!(f.write(&mut fs, 0, b"abc"), 3);
    let mut buf = [7u8; 10];
    assert_eq!(f.read(&mut fs, 3, &mut buf), 0);
    assert_eq!(f.read(&mut fs, 100, &mut buf), 0);
    assert_eq!(buf, [7u8; 10]);
    assert_eq!(f.read(&mut fs, 1, &mut buf), 2);
    assert_eq!(&buf[..2], b"bc");
}

#[test]
fn write_at_offset_extends_size() {
    let mut fs = formatted(4096, 1);
    let root = fs.root_inode();
    let f = root.create(&mut fs, "f", DiskInodeType::File).unwrap();
    assert_eq!(f.write(&mut fs, 1000, b"xyz"), 3);
    assert_eq!(f.size(&mut fs), 1003);
    assert_eq!(f.write(&mut fs, 0, b"ab"), 2);
    assert_eq!(f.size(&mut fs), 1003);
    let mut buf = [0u8; 3];
    assert_eq!(f.read(&mut fs, 1000, &mut buf), 3);
    assert_eq!(&buf, b"xyz");
}

#[test]
fn write_to_directory_is_refused() {
    let mut fs = formatted(4096, 1);
    let root = fs.root_inode();
    assert_eq!(root.write(&mut fs, 0, b"data"), 0);
    assert_eq!(root.size(&mut fs), 0);
}

fn pattern(len: usize) -> Vec<u8> {
    (0..len).map(|i| (i * 7 % 251) as u8).collect()
}

#[test]
fn round_trip_over_every_index_level() {
    let mut fs = formatted(4096, 1);
    let root = fs.root_inode();
    let f = root.create(&mut fs, "big", DiskInodeType::File).unwrap();
    for len in [
        4 * 512,
        8 * 512 + 256,
        100 * 512,
        70 * 512 + 73,
        140 * 512,
        400 * 512,
        1000 * 512,
        2000 * 512,
    ] {
        f.clear(&mut fs);
        assert_eq!(f.size(&mut fs), 0);
        let data = pattern(len);
        assert_eq!(f.write(&mut fs, 0, &data), len);
        let mut back = Vec::new();
        let mut chunk = [0u8; 127];
        let mut offset = 0;
        loop {
            let n = f.read(&mut fs, offset, &mut chunk);
            if n == 0 {
                break;
            }
            back.extend_from_slice(&chunk[..n]);
            offset += n;
        }
        assert_eq!(back, data);
    }
}

#[test]
fn clear_frees_every_block() {
    let mut fs = formatted(4096, 1);
    let root = fs.root_inode();
    let f = root.create(&mut fs, "f", DiskInodeType::File).unwrap();
    let before = fs.free_data_blocks();
    assert_eq!(f.write(&mut fs, 0, &pattern(2000 * 512)), 2000 * 512);
    assert_eq!(fs.free_data_blocks(), before - 2017);
    let mut ino: DiskInode = f.read_disk_inode(&mut fs);
    assert_eq!(DiskInode::total_blocks(ino.alloc_size), 2017);
    let freed = ino.clear_size(&mut fs.cache);
    assert_eq!(freed.len(), 2017);
    f.clear(&mut fs);
    assert_eq!(fs.free_data_blocks(), before);
    let ino = f.read_disk_inode(&mut fs);
    assert_eq!(ino.size, 0);
    assert_eq!(ino.alloc_size, 0);
    assert_eq!(ino.indirect1, 0);
    assert_eq!(ino.indirect2, 0);
    assert!(ino.direct.iter().all(|b| *b == 0));
}

#[test]
fn nested_directory_and_removal() {
    let mut fs = formatted(4096, 1);
    let root = fs.root_inode();
    root.create(&mut fs, "d", DiskInodeType::Directory).unwrap();
    let d = root.find(&mut fs, "d").unwrap();
    assert!(d.is_dir(&mut fs));
    d.create(&mut fs, "x", DiskInodeType::File).unwrap();
    assert_eq!(root.ls(&mut fs), vec!["d".to_string()]);
    assert_eq!(d.ls(&mut fs), vec!["x".to_string()]);
    let x = d.find(&mut fs, "x").unwrap();
    x.clear(&mut fs);
    d.clear(&mut fs);
    d.rm_dir_entry(&mut fs, "d", &root);
    assert_eq!(root.ls(&mut fs), Vec::<String>::new());
    assert_eq!(root.size(&mut fs), 0);
    assert!(root.find(&mut fs, "d").is_none());
}

#[test]
fn remove_middle_entry_shifts_the_rest() {
    let mut fs = formatted(4096, 1);
    let root = fs.root_inode();
    for name in ["a", "b", "c", "d"] {
        root.create(&mut fs, name, DiskInodeType::File).unwrap();
    }
    let c = root.find(&mut fs, "c").unwrap();
    root.rm_dir_entry(&mut fs, "b", &root);
    assert_eq!(root.ls(&mut fs), vec!["a".to_string(), "c".to_string(), "d".to_string()]);
    assert_eq!(root.size(&mut fs), 96);
    assert_eq!(root.find(&mut fs, "c").unwrap().inode_info(), c.inode_info());
    // removing a missing entry changes nothing
    root.rm_dir_entry(&mut fs, "zzz", &root);
    assert_eq!(root.size(&mut fs), 96);
    // an entry added after a removal is listed
    root.create(&mut fs, "e", DiskInodeType::File).unwrap();
    assert_eq!(
        root.ls(&mut fs),
        vec!["a".to_string(), "c".to_string(), "d".to_string(), "e".to_string()]
    );
}

#[test]
fn rename_keeps_the_inode() {
    let mut fs = formatted(4096, 1);
    let root = fs.root_inode();
    let f = root.create(&mut fs, "old", DiskInodeType::File).unwrap();
    root.chname(&mut fs, "old", "new_name");
    assert_eq!(root.ls(&mut fs), vec!["new_name".to_string()]);
    assert!(root.find(&mut fs, "old").is_none());
    assert_eq!(root.find(&mut fs, "new_name").unwrap().inode_info(), f.inode_info());
    root.chname(&mut fs, "missing", "other");
    assert_eq!(root.ls(&mut fs), vec!["new_name".to_string()]);
}

#[test]
fn exhaustion_refuses_the_write() {
    // 1100 blocks: super block, 1 inode bitmap block, 1024 inode blocks,
    // 1 data bitmap block and 73 data blocks
    let mut fs = formatted(1100, 1);
    let sb = fs.super_block();
    assert_eq!(sb.data_area_blocks, 73);
    let root = fs.root_inode();
    let f = root.create(&mut fs, "f", DiskInodeType::File).unwrap();
    // the root directory's entry took one data block
    assert_eq!(fs.free_data_blocks(), 72);
    assert_eq!(f.write(&mut fs, 0, &pattern(74 * 512)), 0);
    assert_eq!(f.write(&mut fs, 0, &pattern(73 * 512)), 0);
    assert_eq!(f.write(&mut fs, 0, &pattern(72 * 512)), 0);
    assert_eq!(f.size(&mut fs), 0);
    // 71 data blocks and the single-indirect table fill the 72 free blocks
    assert_eq!(f.write(&mut fs, 0, &pattern(71 * 512)), 71 * 512);
    assert_eq!(fs.free_data_blocks(), 0);
    assert_eq!(f.write(&mut fs, 71 * 512, b"x"), 0);
    let mut buf = vec![0u8; 71 * 512];
    assert_eq!(f.read(&mut fs, 0, &mut buf), 71 * 512);
    assert_eq!(buf, pattern(71 * 512));
}

#[test]
fn open_rejects_a_blank_device() {
    assert!(FileSystem::open(MemoryDevice::new(64)).is_none());
    assert!(FileSystem::open(MemoryDevice::new(0)).is_none());
}

#[test]
fn reopen_keeps_the_tree() {
    let mut fs = formatted(2048, 1);
    let root = fs.root_inode();
    let f = root.create(&mut fs, "keep", DiskInodeType::File).unwrap();
    f.write(&mut fs, 0, b"persisted");
    let device = fs.into_device();
    let mut fs = FileSystem::open(device).unwrap();
    let root = fs.root_inode();
    let f = root.find(&mut fs, "keep").unwrap();
    let mut buf = [0u8; 9];
    assert_eq!(f.read(&mut fs, 0, &mut buf), 9);
    assert_eq!(&buf, b"persisted");
}

#[test]
fn sync_all_twice_leaves_the_device_alone() {
    let mut fs = formatted(2048, 1);
    let root = fs.root_inode();
    let f = root.create(&mut fs, "f", DiskInodeType::File).unwrap();
    f.write(&mut fs, 0, b"abc");
    fs.sync_all();
    let snapshot = device_blocks(&fs);
    fs.sync_all();
    assert_eq!(device_blocks(&fs), snapshot);
}

fn device_blocks(fs: &FileSystem<MemoryDevice>) -> Vec<Vec<u8>> {
    let d = fs.device();
    (0..d.num_blocks())
        .map(|i| {
            let mut b = vec![0u8; 512];
            d.read_block(i, &mut b);
            b
        })
        .collect()
}

#[test]
fn data_blocks_are_allocated_lowest_first() {
    let mut fs = formatted(2048, 1);
    let start = fs.get_data_block_id(0);
    let a = fs.alloc_data().unwrap();
    let b = fs.alloc_data().unwrap();
    assert_eq!(a, start);
    assert_eq!(b, start + 1);
    fs.dealloc_data(a);
    assert_eq!(fs.alloc_data(), Some(a));
}

#[test]
fn freed_inode_number_is_reused() {
    let mut fs = formatted(2048, 1);
    assert_eq!(fs.alloc_inode(), Some(1));
    assert_eq!(fs.alloc_inode(), Some(2));
    fs.dealloc_inode(1);
    assert_eq!(fs.alloc_inode(), Some(1));
    assert_eq!(fs.alloc_inode(), Some(3));
}

#[test]
fn create_takes_the_inode_number() {
    let mut fs = formatted(2048, 1);
    let root = fs.root_inode();
    let a = root.create(&mut fs, "a", DiskInodeType::File).unwrap();
    assert_eq!(a.inode_info(), (2, 128));
    assert_eq!(root.size(&mut fs), 32);
    // inode 1 is taken now, so the next free number is 2
    assert_eq!(fs.alloc_inode(), Some(2));
}

#[test]
fn format_zeroes_the_image() {
    let mut dev = MemoryDevice::new(2048);
    let junk = vec![0xabu8; 512];
    for b in 0..2048 {
        dev.write_block(b, &junk);
    }
    let fs = FileSystem::create(dev, 2048, 1);
    let blocks = device_blocks(&fs);
    assert_eq!(blocks[1][0], 1);
    assert!(blocks[1][1..].iter().all(|b| *b == 0));
    assert!(blocks[2][128..].iter().all(|b| *b == 0));
    for b in 3..2048 {
        assert!(blocks[b].iter().all(|x| *x == 0));
    }
}

#[test]
fn empty_write_changes_nothing() {
    let mut fs = formatted(2048, 1);
    let root = fs.root_inode();
    let f = root.create(&mut fs, "f", DiskInodeType::File).unwrap();
    assert_eq!(f.write(&mut fs, 0, b"abc"), 3);
    fs.sync_all();
    let before = device_blocks(&fs);
    let mut ino = f.read_disk_inode(&mut fs);
    assert_eq!(ino.write_at(1, &[], &mut fs.cache), 0);
    fs.sync_all();
    assert_eq!(device_blocks(&fs), before);
}
