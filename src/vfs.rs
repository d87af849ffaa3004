//! Handles on inodes and the operations on files and directories: lookup,
//! listing, creation, reading, writing, renaming, truncation and removal
//! of an entry.

use vstd::prelude::*;
use vstd::string::StringSliceAdditionalSpecFns;

use crate::block_cache::{block_at, write_in_block};
use crate::block_dev::{image_wf, BlockDevice};
use crate::bytes::{le_u32, splice};
use crate::bitmap::{bit_set, free_bits, with_bit};
use crate::disk_inode::{
    block_id_of, content, file_bytes, index_ok, inode_in, is_data_block, is_index_block, mapping_ok,
    total_blocks_for, DiskInode, DiskInodeType,
};
use crate::efs::{stored_inode, FileSystem};
use crate::layout::{name_fits, name_of, shown_name, DirEntry};
use crate::{BLOCK_SIZE, DIRENT_SIZE, DISK_INODE_SIZE, MAX_FILE_SIZE};

verus! {

/// Whether `ino`'s sizes are within what the index can describe.
pub open spec fn sane(ino: DiskInode) -> bool {
    ino.size <= ino.alloc_size <= MAX_FILE_SIZE
}

/// Number of entries of a directory.
pub open spec fn entry_count(ino: DiskInode) -> int {
    ino.size as int / 32
}

/// The name of entry `k` of directory `ino`.
pub open spec fn entry_name(ino: DiskInode, img: Seq<Seq<u8>>, k: int) -> Seq<u8> {
    name_of(content(ino, img).subrange(32 * k, 32 * k + 28))
}

/// The inode number of entry `k` of directory `ino`.
pub open spec fn entry_id(ino: DiskInode, img: Seq<Seq<u8>>, k: int) -> int {
    le_u32(content(ino, img).subrange(32 * k + 28, 32 * k + 32))
}

/// Whether some entry of directory `ino` is named `name`.
pub open spec fn has_entry(ino: DiskInode, img: Seq<Seq<u8>>, name: Seq<u8>) -> bool {
    exists|k: int| 0 <= k < entry_count(ino) && #[trigger] entry_name(ino, img, k) == name
}

/// Entry `k` is the first entry of `ino` named `name`.
pub open spec fn first_entry(ino: DiskInode, img: Seq<Seq<u8>>, name: Seq<u8>, k: int) -> bool {
    &&& 0 <= k < entry_count(ino)
    &&& entry_name(ino, img, k) == name
    &&& forall|k2: int| 0 <= k2 < k ==> #[trigger] entry_name(ino, img, k2) != name
}

/// What looking `name` up in directory `dir` over `img` gives: nothing
/// unless `dir` is a well-formed directory with such an entry; when it is,
/// the handle on the inode of the first entry of that name, if that inode
/// number is below `max_inodes`.
pub open spec fn find_result(
    dir: DiskInode,
    img: Seq<Seq<u8>>,
    name: Seq<u8>,
    max_inodes: int,
    inode_area: int,
    r: Option<Inode>,
) -> bool {
    &&& r.is_some() ==> dir.type_ == DiskInodeType::Directory && sane(dir) && has_entry(dir, img, name)
    &&& (dir.type_ == DiskInodeType::Directory && sane(dir)) ==> (r.is_some() <==> exists|k: int|
        first_entry(dir, img, name, k) && entry_id(dir, img, k) < max_inodes)
    &&& r matches Some(f) ==> exists|k: int| {
        &&& first_entry(dir, img, name, k)
        &&& f.block() == inode_area + entry_id(dir, img, k) / 4
        &&& f.offset() == (entry_id(dir, img, k) % 4) * 128
    }
}

/// A handle on one inode: where it is stored.
pub struct Inode {
    block_id: usize,
    block_offset: usize,
}

impl Inode {
    /// Block that stores the inode.
    pub closed spec fn block(&self) -> int {
        self.block_id as int
    }

    /// Byte offset of the inode in its block.
    pub closed spec fn offset(&self) -> int {
        self.block_offset as int
    }

    /// The inode as stored in `img`.
    pub open spec fn disk(&self, img: Seq<Seq<u8>>) -> DiskInode {
        stored_inode(img, self.block(), self.offset())
    }

    /// The inode lies within its block, at a multiple of 128 bytes.
    pub open spec fn wf(&self) -> bool {
        &&& self.offset() + 128 <= BLOCK_SIZE
        &&& self.offset() % 128 == 0
    }

    /// The handle points into the image of `fs`.
    pub open spec fn valid_in<D: BlockDevice>(&self, fs: &FileSystem<D>) -> bool {
        &&& self.wf()
        &&& 0 <= self.block() < fs.view().len()
    }

    /// A handle on the inode stored at byte `block_offset` of block
    /// `block_id`.
    pub fn new(block_id: u32, block_offset: usize) -> (r: Self)
        requires
            block_offset + 128 <= BLOCK_SIZE,
            block_offset % 128 == 0,
        ensures
            r.wf(),
            r.block() == block_id,
            r.offset() == block_offset,
    {
        Inode { block_id: block_id as usize, block_offset }
    }

    /// The block and the offset where the inode is stored.
    pub fn inode_info(&self) -> (r: (usize, usize))
        ensures
            r.0 == self.block(),
            r.1 == self.offset(),
    {
        (self.block_id, self.block_offset)
    }

    /// The inode as stored on the image.
    pub fn read_disk_inode<D: BlockDevice>(&self, fs: &mut FileSystem<D>) -> (r: DiskInode)
        requires
            old(fs).wf(),
            self.wf(),
        ensures
            final(fs).wf(),
            final(fs).same_layout(old(fs)),
            final(fs).view() == old(fs).view(),
            r == self.disk(old(fs).view()),
    {
        proof {
            fs.lemma_cache_wf();
        }
        let ghost f0 = *fs;
        let b = fs.cache.read_block(self.block_id);
        proof {
            f0.lemma_keep_wf(fs);
        }
        DiskInode::from_bytes(b.as_slice(), self.block_offset)
    }

    /// Stores `ino` as this inode.
    fn write_disk_inode<D: BlockDevice>(&self, fs: &mut FileSystem<D>, ino: &DiskInode)
        requires
            old(fs).wf(),
            self.valid_in(old(fs)),
            ino.alloc_size < 0x8000_0000,
        ensures
            final(fs).wf(),
            final(fs).same_layout(old(fs)),
            self.disk(final(fs).view()) == *ino,
            exists|bytes: Seq<u8>|
                bytes.len() == 128 && inode_in(bytes) == *ino && final(fs).view() == write_in_block(
                    old(fs).view(),
                    self.block(),
                    self.offset(),
                    bytes,
                ),
    {
        proof {
            fs.lemma_cache_wf();
            fs.cache.lemma_view_wf();
        }
        let ghost f0 = *fs;
        let bytes = ino.to_bytes();
        fs.cache.write_bytes(self.block_id, self.block_offset, bytes.as_slice());
        proof {
            f0.lemma_keep_wf(fs);
            let v = fs.cache.view();
            assert(block_at(v, self.block()).subrange(self.offset(), self.offset() + 128) =~= bytes@);
        }
    }
}

impl Inode {
    /// Entry `k` of directory `dir`.
    fn read_entry<D: BlockDevice>(fs: &mut FileSystem<D>, dir: &DiskInode, k: usize) -> (e: DirEntry)
        requires
            old(fs).wf(),
            sane(*dir),
            k < entry_count(*dir),
        ensures
            final(fs).wf(),
            final(fs).same_layout(old(fs)),
            final(fs).view() == old(fs).view(),
            e.name_spec() == entry_name(*dir, old(fs).view(), k as int),
            e.id_spec() == entry_id(*dir, old(fs).view(), k as int),
    {
        proof {
            fs.lemma_cache_wf();
        }
        let ghost f0 = *fs;
        let ghost c = content(*dir, fs.view());
        let mut buf = crate::layout::zeros(DIRENT_SIZE);
        let ghost z = buf@;
        let n = dir.read_at(k * DIRENT_SIZE, buf.as_mut_slice(), &mut fs.cache);
        proof {
            f0.lemma_keep_wf(fs);
            assert(n == 32);
            assert(buf@ =~= c.subrange(32 * k, 32 * k + 32));
            assert(buf@.subrange(0, 28) =~= c.subrange(32 * k, 32 * k + 28));
            assert(buf@.subrange(28, 32) =~= c.subrange(32 * k + 28, 32 * k + 32));
        }
        DirEntry::from_bytes(buf.as_slice(), 0)
    }

    /// Index of the first entry of `dir` named `name`.
    fn entry_index<D: BlockDevice>(fs: &mut FileSystem<D>, dir: &DiskInode, name: &str) -> (r: Option<usize>)
        requires
            old(fs).wf(),
            sane(*dir),
        ensures
            final(fs).wf(),
            final(fs).same_layout(old(fs)),
            final(fs).view() == old(fs).view(),
            match r {
                Some(k) => first_entry(*dir, old(fs).view(), name.spec_bytes(), k as int),
                None => !has_entry(*dir, old(fs).view(), name.spec_bytes()),
            },
    {
        let ghost img = fs.view();
        let ghost f0 = *fs;
        let count = (dir.size as usize) / DIRENT_SIZE;
        let mut k: usize = 0;
        while k < count
            invariant
                k <= count,
                count == entry_count(*dir),
                sane(*dir),
                fs.wf(),
                fs.same_layout(&f0),
                f0 == *old(fs),
                fs.view() == img,
                img == old(fs).view(),
                forall|k2: int| 0 <= k2 < k ==> #[trigger] entry_name(*dir, img, k2) != name.spec_bytes(),
            decreases count - k,
        {
            let e = Self::read_entry(fs, dir, k);
            if e.name_is(name) {
                return Some(k);
            }
            k += 1;
        }
        None
    }

    /// The inode number of the first entry of `disk_inode` named `name`.
    fn find_inode_id<D: BlockDevice>(&self, name: &str, disk_inode: &DiskInode, fs: &mut FileSystem<D>) -> (r: Option<u32>)
        requires
            old(fs).wf(),
            sane(*disk_inode),
        ensures
            final(fs).wf(),
            final(fs).same_layout(old(fs)),
            final(fs).view() == old(fs).view(),
            r.is_some() == has_entry(*disk_inode, old(fs).view(), name.spec_bytes()),
            r matches Some(id) ==> exists|k: int|
                first_entry(*disk_inode, old(fs).view(), name.spec_bytes(), k) && id == entry_id(*disk_inode, old(fs).view(), k),
    {
        match Self::entry_index(fs, disk_inode, name) {
            Some(k) => {
                let e = Self::read_entry(fs, disk_inode, k);
                Some(e.inode_id())
            },
            None => None,
        }
    }

    /// The inode that entry `name` of this directory names. `None` when
    /// this is not a directory, when no entry has that name, or when the
    /// entry's inode number is beyond the inode table.
    pub fn find<D: BlockDevice>(&self, fs: &mut FileSystem<D>, name: &str) -> (r: Option<Inode>)
        requires
            old(fs).wf(),
            self.wf(),
        ensures
            final(fs).wf(),
            final(fs).same_layout(old(fs)),
            final(fs).view() == old(fs).view(),
            find_result(
                self.disk(old(fs).view()),
                old(fs).view(),
                name.spec_bytes(),
                old(fs).max_inodes(),
                old(fs).inode_area_start(),
                r,
            ),
            r matches Some(f) ==> f.valid_in(old(fs)),
    {
        let ghost img = fs.view();
        let dir = self.read_disk_inode(fs);
        if !dir.is_dir() || dir.size > dir.alloc_size || dir.alloc_size > MAX_FILE_SIZE as u32 {
            return None;
        }
        match self.find_inode_id(name, &dir, fs) {
            Some(id) => {
                proof {
                    fs.lemma_wf();
                }
                if id >= fs.inode_bitmap.maximum() as u32 {
                    proof {
                        let k = choose|k: int| first_entry(dir, img, name.spec_bytes(), k) && id == entry_id(dir, img, k);
                        assert forall|k2: int| first_entry(dir, img, name.spec_bytes(), k2) implies entry_id(dir, img, k2) >= fs.max_inodes() by {
                            if k2 != k {
                                if k2 < k {
                                    assert(entry_name(dir, img, k2) != name.spec_bytes());
                                } else {
                                    assert(entry_name(dir, img, k) != name.spec_bytes());
                                }
                            }
                        }
                    }
                    return None;
                }
                let (block_id, block_offset) = fs.get_disk_inode_pos(id);
                proof {
                    let k = choose|k: int| first_entry(dir, img, name.spec_bytes(), k) && id == entry_id(dir, img, k);
                    assert(block_offset + 128 <= BLOCK_SIZE);
                }
                Some(Inode::new(block_id, block_offset))
            },
            None => None,
        }
    }

    /// The names of the entries, in their order; empty when the stored inode
    /// is malformed. A name that is not UTF-8 shows as the empty string.
    pub fn ls<D: BlockDevice>(&self, fs: &mut FileSystem<D>) -> (r: Vec<String>)
        requires
            old(fs).wf(),
            self.wf(),
        ensures
            final(fs).wf(),
            final(fs).same_layout(old(fs)),
            final(fs).view() == old(fs).view(),
            ({
                let dir = self.disk(old(fs).view());
                &&& sane(dir) ==> r@.len() == entry_count(dir)
                &&& sane(dir) ==> forall|k: int| 0 <= k < r@.len() ==> shown_name(#[trigger] r@[k]@, entry_name(dir, old(fs).view(), k))
                &&& !sane(dir) ==> r@.len() == 0
            }),
    {
        let ghost img = fs.view();
        let ghost f0 = *fs;
        let dir = self.read_disk_inode(fs);
        let mut v: Vec<String> = Vec::new();
        if dir.size > dir.alloc_size || dir.alloc_size > MAX_FILE_SIZE as u32 {
            return v;
        }
        let count = (dir.size as usize) / DIRENT_SIZE;
        let mut k: usize = 0;
        while k < count
            invariant
                k <= count,
                count == entry_count(dir),
                sane(dir),
                dir == self.disk(img),
                fs.wf(),
                fs.same_layout(&f0),
                f0 == *old(fs),
                fs.view() == img,
                img == old(fs).view(),
                v@.len() == k,
                forall|k2: int| 0 <= k2 < k ==> shown_name(#[trigger] v@[k2]@, entry_name(dir, img, k2)),
            decreases count - k,
        {
            let e = Self::read_entry(fs, &dir, k);
            v.push(e.name());
            k += 1;
        }
        v
    }

    /// Index of the first entry of this directory named `file_name`.
    pub fn dir_entry_pos<D: BlockDevice>(&self, fs: &mut FileSystem<D>, file_name: &str) -> (r: Option<usize>)
        requires
            old(fs).wf(),
            self.wf(),
        ensures
            final(fs).wf(),
            final(fs).same_layout(old(fs)),
            final(fs).view() == old(fs).view(),
            ({
                let dir = self.disk(old(fs).view());
                &&& sane(dir) ==> match r {
                    Some(k) => first_entry(dir, old(fs).view(), file_name.spec_bytes(), k as int),
                    None => !has_entry(dir, old(fs).view(), file_name.spec_bytes()),
                }
                &&& !sane(dir) ==> r.is_none()
            }),
    {
        let dir = self.read_disk_inode(fs);
        if dir.size > dir.alloc_size || dir.alloc_size > MAX_FILE_SIZE as u32 {
            return None;
        }
        Self::entry_index(fs, &dir, file_name)
    }

    /// Whether the inode is a directory.
    pub fn is_dir<D: BlockDevice>(&self, fs: &mut FileSystem<D>) -> (r: bool)
        requires
            old(fs).wf(),
            self.wf(),
        ensures
            final(fs).wf(),
            final(fs).same_layout(old(fs)),
            final(fs).view() == old(fs).view(),
            r == (self.disk(old(fs).view()).type_ == DiskInodeType::Directory),
    {
        self.read_disk_inode(fs).is_dir()
    }

    /// Whether the inode is a file.
    pub fn is_file<D: BlockDevice>(&self, fs: &mut FileSystem<D>) -> (r: bool)
        requires
            old(fs).wf(),
            self.wf(),
        ensures
            final(fs).wf(),
            final(fs).same_layout(old(fs)),
            final(fs).view() == old(fs).view(),
            r == (self.disk(old(fs).view()).type_ == DiskInodeType::File),
    {
        self.read_disk_inode(fs).is_file()
    }

    /// Length of the content in bytes.
    pub fn size<D: BlockDevice>(&self, fs: &mut FileSystem<D>) -> (r: usize)
        requires
            old(fs).wf(),
            self.wf(),
        ensures
            final(fs).wf(),
            final(fs).same_layout(old(fs)),
            final(fs).view() == old(fs).view(),
            r == self.disk(old(fs).view()).size,
    {
        self.read_disk_inode(fs).size as usize
    }

    /// Reads the content from byte `offset` on into `buf` and returns how
    /// many bytes it read: up to the end of the content or of `buf`, none
    /// from `offset` at or past the end, and none when the stored inode is
    /// malformed.
    pub fn read<D: BlockDevice>(&self, fs: &mut FileSystem<D>, offset: usize, buf: &mut [u8]) -> (r: usize)
        requires
            old(fs).wf(),
            self.wf(),
        ensures
            final(fs).wf(),
            final(fs).same_layout(old(fs)),
            final(fs).view() == old(fs).view(),
            ({
                let ino = self.disk(old(fs).view());
                &&& r == if ino.size > MAX_FILE_SIZE || offset >= ino.size {
                    0
                } else {
                    vstd::math::min(old(buf)@.len() as int, ino.size - offset)
                }
                &&& r == 0 ==> final(buf)@ == old(buf)@
                &&& r > 0 ==> final(buf)@ == splice(
                    old(buf)@,
                    0,
                    content(ino, old(fs).view()).subrange(offset as int, offset + r),
                )
            }),
    {
        proof {
            fs.lemma_cache_wf();
        }
        let ghost f0 = *fs;
        let ino = self.read_disk_inode(fs);
        if ino.size > MAX_FILE_SIZE as u32 {
            return 0;
        }
        proof {
            fs.lemma_cache_wf();
        }
        let ghost f1 = *fs;
        let r = ino.read_at(offset, buf, &mut fs.cache);
        proof {
            f1.lemma_keep_wf(fs);
            if r == 0 && offset < ino.size {
                assert(buf@ =~= old(buf)@);
            }
        }
        r
    }
}

impl<D: BlockDevice> FileSystem<D> {
    /// A handle on the root directory, inode 0.
    pub fn root_inode(&self) -> (r: Inode)
        requires
            self.wf(),
        ensures
            r.valid_in(self),
            r.block() == self.inode_area_start(),
            r.offset() == 0,
    {
        proof {
            self.lemma_wf();
            self.lemma_has_inodes();
            assert(self.max_inodes() > 0) by (nonlinear_arith)
                requires
                    self.max_inodes() == self.inode_bitmap.blocks() * 4096,
                    self.inode_bitmap.blocks() >= 1,
            ;
        }
        let (block_id, block_offset) = self.get_disk_inode_pos(0);
        Inode::new(block_id, block_offset)
    }
}

/// Every data and index block of `ino` lies in the data area, which starts
/// at block `area` and has `len` blocks.
pub open spec fn in_area(ino: DiskInode, img: Seq<Seq<u8>>, area: int, len: int) -> bool {
    &&& forall|b: int| #[trigger] is_data_block(ino, img, b) ==> area <= b < area + len
    &&& forall|b: int| #[trigger] is_index_block(ino, img, b) ==> area <= b < area + len
}

/// The inode's blocks are in order: data blocks distinct and apart from the
/// index blocks, index blocks distinct, all of them in the data area and
/// marked in use in the data bitmap at block `bm`.
pub open spec fn well_kept(ino: DiskInode, img: Seq<Seq<u8>>, area: int, len: int, bm: int) -> bool {
    &&& mapping_ok(ino, img)
    &&& index_ok(ino, img)
    &&& in_area(ino, img, area, len)
    &&& forall|b: int| #[trigger] is_data_block(ino, img, b) ==> bit_set(img, bm, b - area)
    &&& forall|b: int| #[trigger] is_index_block(ino, img, b) ==> bit_set(img, bm, b - area)
}

/// When no block from `area` on changes and all of the inode's blocks lie
/// there, its bytes, its map and the place of its blocks stay as they were.
proof fn lemma_bytes_frame(ino: DiskInode, img: Seq<Seq<u8>>, img2: Seq<Seq<u8>>, area: int, len: int, n: int)
    requires
        in_area(ino, img, area, len),
        img2.len() == img.len(),
        0 <= n <= ino.alloc_size,
        forall|b: int| b >= area ==> #[trigger] block_at(img2, b) == block_at(img, b),
    ensures
        file_bytes(ino, img2, n) == file_bytes(ino, img, n),
        in_area(ino, img2, area, len),
        mapping_ok(ino, img) ==> mapping_ok(ino, img2),
        forall|j: int|
            0 <= j < crate::disk_inode::data_blocks_for(ino.alloc_size as int) ==> #[trigger] block_id_of(ino, img2, j)
                == block_id_of(ino, img, j),
        forall|b: int| #[trigger] is_data_block(ino, img2, b) == is_data_block(ino, img, b),
        forall|b: int| #[trigger] is_index_block(ino, img2, b) == is_index_block(ino, img, b),
{
    assert forall|b: int| is_index_block(ino, img, b) implies #[trigger] block_at(img2, b) == block_at(img, b) by {}
    crate::disk_inode::lemma_mapping_stable(ino, img, img2);
    let d = crate::disk_inode::data_blocks_for(ino.alloc_size as int);
    assert forall|b: int| #[trigger] is_data_block(ino, img2, b) == is_data_block(ino, img, b) by {
        if is_data_block(ino, img2, b) {
            let j = choose|j: int| 0 <= j < d && b == #[trigger] block_id_of(ino, img2, j);
            assert(block_id_of(ino, img, j) == b);
        }
        if is_data_block(ino, img, b) {
            let j = choose|j: int| 0 <= j < d && b == #[trigger] block_id_of(ino, img, j);
            assert(block_id_of(ino, img2, j) == b);
        }
    }
    assert forall|i: int| 0 <= i < n implies #[trigger] file_bytes(ino, img2, n)[i] == file_bytes(ino, img, n)[i] by {
        let j = i / 512;
        assert(0 <= j < d) by (nonlinear_arith)
            requires
                0 <= i < n,
                n <= ino.alloc_size,
                j == i / 512,
                d == (ino.alloc_size + 511) / 512,
        ;
        assert(is_data_block(ino, img, block_id_of(ino, img, j)));
    }
    assert(file_bytes(ino, img2, n) =~= file_bytes(ino, img, n));
    if mapping_ok(ino, img) {
        assert forall|j1: int, j2: int| 0 <= j1 < d && 0 <= j2 < d && j1 != j2 implies #[trigger] block_id_of(ino, img2, j1) != #[trigger] block_id_of(ino, img2, j2) by {
            assert(block_id_of(ino, img2, j1) == block_id_of(ino, img, j1));
            assert(block_id_of(ino, img2, j2) == block_id_of(ino, img, j2));
        }
        assert forall|j: int| 0 <= j < d implies 0 <= #[trigger] block_id_of(ino, img2, j) < img2.len() && !is_index_block(ino, img2, block_id_of(ino, img2, j)) by {
            assert(block_id_of(ino, img2, j) == block_id_of(ino, img, j));
        }
    }
}

/// When no block from the data bitmap on changes, an inode whose blocks
/// are in order stays so, with the same bytes.
proof fn lemma_well_kept_frame(ino: DiskInode, img: Seq<Seq<u8>>, img2: Seq<Seq<u8>>, area: int, len: int, bm: int)
    requires
        well_kept(ino, img, area, len, bm),
        0 <= bm <= area,
        len <= (area - bm) * 4096,
        img2.len() == img.len(),
        forall|b: int| b >= bm ==> #[trigger] block_at(img2, b) == block_at(img, b),
    ensures
        well_kept(ino, img2, area, len, bm),
        file_bytes(ino, img2, ino.alloc_size as int) == file_bytes(ino, img, ino.alloc_size as int),
{
    lemma_bytes_frame(ino, img, img2, area, len, ino.alloc_size as int);
    let d = crate::disk_inode::data_blocks_for(ino.alloc_size as int);
    assert forall|a: int| 0 <= a < crate::disk_inode::sub_tables_for(d) implies #[trigger] crate::disk_inode::sub_table(ino, img2, a) == crate::disk_inode::sub_table(ino, img, a) by {
        assert(is_index_block(ino, img, ino.indirect2 as int));
    }
    assert forall|b: int| area <= b < area + len implies #[trigger] bit_set(img2, bm, b - area) == bit_set(img, bm, b - area) by {
        assert(bm + (b - area) / 4096 >= bm);
    }
}

/// Inodes that differ in `size` alone have the same blocks.
proof fn lemma_same_blocks(a: DiskInode, b: DiskInode, img: Seq<Seq<u8>>, area: int, len: int, bm: int)
    requires
        a.alloc_size == b.alloc_size,
        a.direct == b.direct,
        a.indirect1 == b.indirect1,
        a.indirect2 == b.indirect2,
    ensures
        forall|j: int| #[trigger] block_id_of(b, img, j) == block_id_of(a, img, j),
        forall|x: int| #[trigger] is_data_block(b, img, x) == is_data_block(a, img, x),
        forall|x: int| #[trigger] is_index_block(b, img, x) == is_index_block(a, img, x),
        forall|n: int| #[trigger] file_bytes(b, img, n) == file_bytes(a, img, n),
        mapping_ok(b, img) == mapping_ok(a, img),
        index_ok(b, img) == index_ok(a, img),
        in_area(b, img, area, len) == in_area(a, img, area, len),
        well_kept(b, img, area, len, bm) == well_kept(a, img, area, len, bm),
{
    let d = crate::disk_inode::data_blocks_for(a.alloc_size as int);
    assert forall|t: int| #[trigger] crate::disk_inode::sub_table(b, img, t) == crate::disk_inode::sub_table(a, img, t) by {}
    assert forall|j: int| #[trigger] block_id_of(b, img, j) == block_id_of(a, img, j) by {}
    assert forall|x: int| #[trigger] is_data_block(b, img, x) == is_data_block(a, img, x) by {
        if is_data_block(a, img, x) {
            let j = choose|j: int| 0 <= j < d && x == #[trigger] block_id_of(a, img, j);
            assert(block_id_of(b, img, j) == x);
        }
    }
    assert forall|x: int| #[trigger] is_index_block(b, img, x) == is_index_block(a, img, x) by {
        if is_index_block(a, img, x) && x != a.indirect1 && x != a.indirect2 {
            let t = choose|t: int| 0 <= t < crate::disk_inode::sub_tables_for(d) && x == #[trigger] crate::disk_inode::sub_table(a, img, t);
            assert(crate::disk_inode::sub_table(b, img, t) == x);
        }
        if is_index_block(b, img, x) && x != b.indirect1 && x != b.indirect2 {
            let t = choose|t: int| 0 <= t < crate::disk_inode::sub_tables_for(d) && x == #[trigger] crate::disk_inode::sub_table(b, img, t);
            assert(crate::disk_inode::sub_table(a, img, t) == x);
        }
    }
    assert forall|n: int| #[trigger] file_bytes(b, img, n) == file_bytes(a, img, n) by {
        assert(file_bytes(b, img, n) =~= file_bytes(a, img, n));
    }
    if mapping_ok(a, img) {
        assert forall|j1: int, j2: int| 0 <= j1 < d && 0 <= j2 < d && j1 != j2 implies #[trigger] block_id_of(b, img, j1) != #[trigger] block_id_of(b, img, j2) by {
            assert(block_id_of(a, img, j1) != block_id_of(a, img, j2));
        }
        assert forall|j: int| 0 <= j < d implies 0 <= #[trigger] block_id_of(b, img, j) < img.len() && !is_index_block(b, img, block_id_of(b, img, j)) by {
            assert(block_id_of(a, img, j) == block_id_of(b, img, j));
        }
    }
    if mapping_ok(b, img) {
        assert forall|j1: int, j2: int| 0 <= j1 < d && 0 <= j2 < d && j1 != j2 implies #[trigger] block_id_of(a, img, j1) != #[trigger] block_id_of(a, img, j2) by {
            assert(block_id_of(b, img, j1) != block_id_of(b, img, j2));
        }
        assert forall|j: int| 0 <= j < d implies 0 <= #[trigger] block_id_of(a, img, j) < img.len() && !is_index_block(a, img, block_id_of(a, img, j)) by {
            assert(block_id_of(a, img, j) == block_id_of(b, img, j));
        }
    }
    assert(in_area(b, img, area, len) == in_area(a, img, area, len)) by {
        if in_area(a, img, area, len) {
            assert forall|x: int| #[trigger] is_data_block(b, img, x) implies area <= x < area + len by {
                assert(is_data_block(a, img, x));
            }
            assert forall|x: int| #[trigger] is_index_block(b, img, x) implies area <= x < area + len by {
                assert(is_index_block(a, img, x));
            }
        }
        if in_area(b, img, area, len) {
            assert forall|x: int| #[trigger] is_data_block(a, img, x) implies area <= x < area + len by {
                assert(is_data_block(b, img, x));
            }
            assert forall|x: int| #[trigger] is_index_block(a, img, x) implies area <= x < area + len by {
                assert(is_index_block(b, img, x));
            }
        }
    }
    if well_kept(a, img, area, len, bm) {
        assert forall|x: int| #[trigger] is_data_block(b, img, x) implies bit_set(img, bm, x - area) by {
            assert(is_data_block(a, img, x));
        }
        assert forall|x: int| #[trigger] is_index_block(b, img, x) implies bit_set(img, bm, x - area) by {
            assert(is_index_block(a, img, x));
        }
    }
    if well_kept(b, img, area, len, bm) {
        assert forall|x: int| #[trigger] is_data_block(a, img, x) implies bit_set(img, bm, x - area) by {
            assert(is_data_block(b, img, x));
        }
        assert forall|x: int| #[trigger] is_index_block(a, img, x) implies bit_set(img, bm, x - area) by {
            assert(is_index_block(b, img, x));
        }
    }
    let st = crate::disk_inode::sub_tables_for(d);
    if index_ok(a, img) {
        assert forall|t: int| 0 <= t < st implies {
            &&& 0 <= #[trigger] crate::disk_inode::sub_table(b, img, t) < img.len()
            &&& crate::disk_inode::sub_table(b, img, t) != b.indirect1
            &&& crate::disk_inode::sub_table(b, img, t) != b.indirect2
        } by {
            assert(crate::disk_inode::sub_table(a, img, t) == crate::disk_inode::sub_table(b, img, t));
        }
        assert forall|t1: int, t2: int| 0 <= t1 < st && 0 <= t2 < st && t1 != t2 implies #[trigger] crate::disk_inode::sub_table(b, img, t1) != #[trigger] crate::disk_inode::sub_table(b, img, t2) by {
            assert(crate::disk_inode::sub_table(a, img, t1) != crate::disk_inode::sub_table(a, img, t2));
        }
    }
    if index_ok(b, img) {
        assert forall|t: int| 0 <= t < st implies {
            &&& 0 <= #[trigger] crate::disk_inode::sub_table(a, img, t) < img.len()
            &&& crate::disk_inode::sub_table(a, img, t) != a.indirect1
            &&& crate::disk_inode::sub_table(a, img, t) != a.indirect2
        } by {
            assert(crate::disk_inode::sub_table(a, img, t) == crate::disk_inode::sub_table(b, img, t));
        }
        assert forall|t1: int, t2: int| 0 <= t1 < st && 0 <= t2 < st && t1 != t2 implies #[trigger] crate::disk_inode::sub_table(a, img, t1) != #[trigger] crate::disk_inode::sub_table(a, img, t2) by {
            assert(crate::disk_inode::sub_table(b, img, t1) != crate::disk_inode::sub_table(b, img, t2));
        }
    }
}

/// A write that changes only data blocks of an inode whose blocks are in
/// order keeps them in order.
proof fn lemma_well_kept_write(ino: DiskInode, v: Seq<Seq<u8>>, v2: Seq<Seq<u8>>, area: int, len: int, bm: int)
    requires
        well_kept(ino, v, area, len, bm),
        v2.len() == v.len(),
        0 <= bm <= area,
        len <= (area - bm) * 4096,
        forall|b: int| !is_data_block(ino, v, b) ==> #[trigger] block_at(v2, b) == block_at(v, b),
    ensures
        well_kept(ino, v2, area, len, bm),
        forall|b: int| b < area ==> #[trigger] block_at(v2, b) == block_at(v, b),
        forall|b: int| #[trigger] is_data_block(ino, v2, b) == is_data_block(ino, v, b),
        forall|b: int| #[trigger] is_index_block(ino, v2, b) == is_index_block(ino, v, b),
{
    let d = crate::disk_inode::data_blocks_for(ino.alloc_size as int);
    assert forall|b: int| is_index_block(ino, v, b) implies #[trigger] block_at(v2, b) == block_at(v, b) by {
        if is_data_block(ino, v, b) {
            let j = choose|j: int| 0 <= j < d && b == #[trigger] block_id_of(ino, v, j);
            assert(!is_index_block(ino, v, block_id_of(ino, v, j)));
        }
    }
    crate::disk_inode::lemma_mapping_stable(ino, v, v2);
    assert forall|b: int| b < area implies #[trigger] block_at(v2, b) == block_at(v, b) by {
        assert(!is_data_block(ino, v, b));
    }
    assert forall|b: int| #[trigger] is_data_block(ino, v2, b) == is_data_block(ino, v, b) by {
        if is_data_block(ino, v2, b) {
            let j = choose|j: int| 0 <= j < d && b == #[trigger] block_id_of(ino, v2, j);
            assert(block_id_of(ino, v, j) == b);
        }
        if is_data_block(ino, v, b) {
            let j = choose|j: int| 0 <= j < d && b == #[trigger] block_id_of(ino, v, j);
            assert(block_id_of(ino, v2, j) == b);
        }
    }
    assert forall|b: int| area <= b < area + len implies #[trigger] bit_set(v2, bm, b - area) == bit_set(v, bm, b - area) by {
        crate::efs::lemma_region_block(b - area, area - bm);
    }
    assert forall|j1: int, j2: int| 0 <= j1 < d && 0 <= j2 < d && j1 != j2 implies #[trigger] block_id_of(ino, v2, j1) != #[trigger] block_id_of(ino, v2, j2) by {
        assert(block_id_of(ino, v2, j1) == block_id_of(ino, v, j1));
        assert(block_id_of(ino, v2, j2) == block_id_of(ino, v, j2));
    }
    assert forall|j: int| 0 <= j < d implies 0 <= #[trigger] block_id_of(ino, v2, j) < v2.len() && !is_index_block(ino, v2, block_id_of(ino, v2, j)) by {
        assert(block_id_of(ino, v2, j) == block_id_of(ino, v, j));
    }
}

/// Writing 128 bytes at another aligned place leaves a stored inode alone.
proof fn lemma_slot_kept(v: Seq<Seq<u8>>, b1: int, o1: int, b2: int, o2: int, data: Seq<u8>)
    requires
        image_wf(v),
        0 <= o1,
        o1 + 128 <= 512,
        o1 % 128 == 0,
        0 <= o2,
        o2 + 128 <= 512,
        o2 % 128 == 0,
        data.len() == 128,
        b1 != b2 || o1 != o2,
    ensures
        stored_inode(write_in_block(v, b2, o2, data), b1, o1) == stored_inode(v, b1, o1),
{
    let v2 = write_in_block(v, b2, o2, data);
    if b1 == b2 && 0 <= b2 < v.len() {
        assert(o1 + 128 <= o2 || o2 + 128 <= o1);
        assert(block_at(v2, b1).subrange(o1, o1 + 128) =~= block_at(v, b1).subrange(o1, o1 + 128));
    } else {
        assert(block_at(v2, b1) == block_at(v, b1));
    }
}

/// Directory `dir2` over `img2` is `dir` over `img` with one more entry, for
/// `name` and inode `id`, at its end.
pub open spec fn entry_added(
    dir: DiskInode,
    img: Seq<Seq<u8>>,
    dir2: DiskInode,
    img2: Seq<Seq<u8>>,
    name: Seq<u8>,
    id: int,
) -> bool {
    &&& dir2.type_ == DiskInodeType::Directory
    &&& sane(dir2)
    &&& entry_count(dir2) == entry_count(dir) + 1
    &&& forall|k: int| 0 <= k < entry_count(dir) ==> #[trigger] entry_name(dir2, img2, k) == entry_name(dir, img, k)
    &&& entry_name(dir2, img2, entry_count(dir)) == name
    &&& entry_id(dir2, img2, entry_count(dir)) == id
}

/// Every byte where `img2` differs from `img` lies in the inode slot of
/// 128 bytes at byte `off` of block `blk`, in a block of the data bitmap
/// (blocks `bm` up to `area`), or in a data or index block of `ino`.
pub open spec fn touches_only(
    img: Seq<Seq<u8>>,
    img2: Seq<Seq<u8>>,
    ino: DiskInode,
    blk: int,
    off: int,
    bm: int,
    area: int,
) -> bool {
    forall|b: int, i: int|
        0 <= i < BLOCK_SIZE && #[trigger] block_at(img2, b)[i] != block_at(img, b)[i] ==> {
            ||| b == blk && off <= i < off + 128
            ||| bm <= b < area
            ||| is_data_block(ino, img2, b)
            ||| is_index_block(ino, img2, b)
        }
}

/// A byte written within the allocated length lies in a data block.
proof fn lemma_written_in_data(ino: DiskInode, img: Seq<Seq<u8>>, offset: int, r: int, b: int, i: int)
    requires
        crate::disk_inode::written_pos(ino, img, offset, r, b, i),
        0 <= offset,
        offset + r <= ino.alloc_size,
    ensures
        is_data_block(ino, img, b),
{
    let j = choose|j: int| offset <= j < offset + r && #[trigger] crate::disk_inode::byte_pos_of(ino, img, j) == (b, i);
    let d = crate::disk_inode::data_blocks_for(ino.alloc_size as int);
    assert(0 <= j / 512 < d) by (nonlinear_arith)
        requires
            0 <= j < ino.alloc_size,
            d == (ino.alloc_size + 511) / 512,
    ;
    assert(b == block_id_of(ino, img, j / 512));
}

/// One more write into the data blocks keeps every change since `img`
/// within the data blocks that the inode had in `img`.
proof fn lemma_data_step(ino: DiskInode, img: Seq<Seq<u8>>, v1: Seq<Seq<u8>>, v2: Seq<Seq<u8>>, off: int, r: int)
    requires
        forall|j: int|
            0 <= j < crate::disk_inode::data_blocks_for(ino.alloc_size as int) ==> #[trigger] block_id_of(ino, v1, j)
                == block_id_of(ino, img, j),
        forall|b: int, i: int|
            0 <= i < BLOCK_SIZE && !crate::disk_inode::written_pos(ino, v1, off, r, b, i) ==> #[trigger] block_at(v2, b)[i]
                == block_at(v1, b)[i],
        0 <= off,
        off + r <= ino.alloc_size,
        forall|b: int, i: int|
            0 <= i < BLOCK_SIZE && #[trigger] block_at(v1, b)[i] != block_at(img, b)[i] ==> is_data_block(ino, img, b),
    ensures
        forall|b: int, i: int|
            0 <= i < BLOCK_SIZE && #[trigger] block_at(v2, b)[i] != block_at(img, b)[i] ==> is_data_block(ino, img, b),
{
    let d = crate::disk_inode::data_blocks_for(ino.alloc_size as int);
    assert forall|b: int, i: int| 0 <= i < BLOCK_SIZE && #[trigger] block_at(v2, b)[i] != block_at(img, b)[i] implies is_data_block(ino, img, b) by {
        if crate::disk_inode::written_pos(ino, v1, off, r, b, i) {
            lemma_written_in_data(ino, v1, off, r, b, i);
            let j = choose|j: int| 0 <= j < d && b == #[trigger] block_id_of(ino, v1, j);
            assert(block_id_of(ino, img, j) == b);
        } else {
            assert(block_at(v2, b)[i] == block_at(v1, b)[i]);
        }
    }
}

/// Whether growing `ino` to `new_size` bytes finds the blocks it needs among
/// the `free` free blocks of the data area.
pub open spec fn room_for(ino: DiskInode, new_size: int, free: int) -> bool {
    new_size <= ino.alloc_size || total_blocks_for(new_size) - total_blocks_for(
        ino.alloc_size as int,
    ) <= free
}

impl Inode {
    /// Grows the allocated length of `disk_inode` to `new_size`, taking the
    /// blocks from the data area. It does nothing when the length already
    /// covers `new_size`, and fails, changing nothing, when the data area has
    /// too few free blocks.
    fn increase_size<D: BlockDevice>(&self, new_size: u32, disk_inode: &mut DiskInode, fs: &mut FileSystem<D>) -> (ok: bool)
        requires
            old(fs).wf(),
            sane(*old(disk_inode)),
            new_size <= MAX_FILE_SIZE,
        ensures
            final(fs).wf(),
            final(fs).same_layout(old(fs)),
            ok == room_for(
                *old(disk_inode),
                new_size as int,
                free_bits(old(fs).view(), old(fs).data_bitmap_start(), old(fs).data_area_len()),
            ),
            ok && new_size > old(disk_inode).alloc_size ==> {
                &&& final(disk_inode).size == new_size
                &&& final(disk_inode).alloc_size == new_size
                &&& final(disk_inode).type_ == old(disk_inode).type_
            },
            !ok || new_size <= old(disk_inode).alloc_size ==> *final(disk_inode) == *old(disk_inode)
                && final(fs).view() == old(fs).view(),
            (ok && new_size > old(disk_inode).alloc_size && well_kept(
                *old(disk_inode),
                old(fs).view(),
                old(fs).data_area_start(),
                old(fs).data_area_len(),
                old(fs).data_bitmap_start(),
            )) ==> {
                &&& mapping_ok(*final(disk_inode), final(fs).view())
                &&& in_area(*final(disk_inode), final(fs).view(), old(fs).data_area_start(), old(fs).data_area_len())
                &&& file_bytes(*final(disk_inode), final(fs).view(), old(disk_inode).alloc_size as int)
                    == file_bytes(*old(disk_inode), old(fs).view(), old(disk_inode).alloc_size as int)
                &&& forall|b: int| #[trigger] block_at(final(fs).view(), b) != block_at(old(fs).view(), b)
                    ==> b >= old(fs).data_bitmap_start()
                &&& well_kept(
                    *final(disk_inode),
                    final(fs).view(),
                    old(fs).data_area_start(),
                    old(fs).data_area_len(),
                    old(fs).data_bitmap_start(),
                )
                &&& forall|b: int| #[trigger] block_at(final(fs).view(), b) != block_at(old(fs).view(), b)
                    ==> (old(fs).data_bitmap_start() <= b < old(fs).data_area_start()) || is_index_block(
                    *final(disk_inode),
                    final(fs).view(),
                    b,
                )
                &&& forall|k: int| 0 <= k < old(fs).data_area_len() && #[trigger] bit_set(final(fs).view(), old(fs).data_bitmap_start(), k)
                    != bit_set(old(fs).view(), old(fs).data_bitmap_start(), k) ==> !bit_set(old(fs).view(), old(fs).data_bitmap_start(), k)
                &&& free_bits(final(fs).view(), old(fs).data_bitmap_start(), old(fs).data_area_len()) == free_bits(
                    old(fs).view(),
                    old(fs).data_bitmap_start(),
                    old(fs).data_area_len(),
                ) - (total_blocks_for(new_size as int) - total_blocks_for(old(disk_inode).alloc_size as int))
            },
    {
        if new_size <= disk_inode.alloc_size {
            return true;
        }
        let ghost f0 = *fs;
        let needed = disk_inode.blocks_num_needed(new_size) as usize;
        let free = fs.free_data_blocks();
        if free < needed {
            return false;
        }
        let ghost img0 = fs.view();
        let ghost area = f0.data_area_start();
        let ghost len = f0.data_area_len();
        let ghost bm = f0.data_bitmap_start();
        proof {
            f0.lemma_wf();
        }
        let mut v: Vec<u32> = Vec::new();
        let mut i: usize = 0;
        while i < needed
            invariant
                i <= needed,
                v@.len() == i,
                fs.wf(),
                fs.same_layout(&f0),
                f0 == *old(fs),
                img0 == f0.view(),
                area == f0.data_area_start(),
                len == f0.data_area_len(),
                bm == f0.data_bitmap_start(),
                len <= (area - bm) * 4096,
                bm <= area,
                area + len <= img0.len(),
                image_wf(img0),
                free_bits(fs.view(), f0.data_bitmap_start(), f0.data_area_len()) >= needed - i,
                free_bits(fs.view(), bm, len) == free_bits(img0, bm, len) - i,
                forall|p: int| 0 <= p < i ==> area <= #[trigger] v@[p] < area + len,
                forall|p: int| 0 <= p < i ==> bit_set(fs.view(), bm, #[trigger] v@[p] - area),
                forall|p: int| 0 <= p < i ==> !bit_set(img0, bm, #[trigger] v@[p] - area),
                forall|k: int| 0 <= k < len && #[trigger] bit_set(img0, bm, k) ==> bit_set(fs.view(), bm, k),
                forall|p1: int, p2: int| 0 <= p1 < i && 0 <= p2 < i && p1 != p2 ==> #[trigger] v@[p1] != #[trigger] v@[p2],
                forall|b: int| b >= area || b < bm ==> #[trigger] block_at(fs.view(), b) == block_at(img0, b),
            decreases needed - i,
        {
            let ghost before = *fs;
            let ghost vb = fs.view();
            let r = fs.alloc_data();
            proof {
                before.lemma_alloc_data_count(r, fs);
            }
            match r {
                Some(id) => {
                    proof {
                        before.lemma_wf();
                        let k = id - area;
                        assert(fs.view() == with_bit(vb, bm, k, true));
                        crate::efs::lemma_region_block(k, area - bm);
                        assert forall|j: int| 0 <= j < len implies #[trigger] bit_set(fs.view(), bm, j) == (j == k || bit_set(vb, bm, j)) by {
                            crate::bitmap::lemma_with_bit(vb, bm, k, true, j);
                        }
                        assert forall|p: int| 0 <= p < i implies #[trigger] v@[p] != id by {
                            assert(bit_set(vb, bm, v@[p] - area));
                        }
                        assert(!bit_set(img0, bm, k));
                        assert forall|b: int| b >= area || b < bm implies #[trigger] block_at(fs.view(), b) == block_at(img0, b) by {
                            assert(k / 4096 < area - bm) by (nonlinear_arith)
                                requires
                                    0 <= k < len,
                                    len <= (area - bm) * 4096,
                            ;
                            assert(b != bm + k / 4096);
                            assert(block_at(fs.view(), b) == block_at(vb, b));
                        }
                    }
                    v.push(id);
                },
                None => {
                    assert(false);
                },
            }
            i += 1;
        }
        let ghost vn = fs.view();
        let ghost ino = *disk_inode;
        proof {
            if well_kept(ino, img0, area, len, bm) {
                assert forall|b: int| is_index_block(ino, img0, b) implies #[trigger] block_at(vn, b) == block_at(img0, b) by {
                    assert(area <= b);
                }
                fs.lemma_wf();
                crate::disk_inode::lemma_mapping_stable(ino, img0, vn);
                let nb = v@;
                assert(mapping_ok(ino, vn)) by {
                    let d = crate::disk_inode::data_blocks_for(ino.alloc_size as int);
                    assert forall|j: int| 0 <= j < d implies 0 <= #[trigger] block_id_of(ino, vn, j) < vn.len() && !is_index_block(ino, vn, block_id_of(ino, vn, j)) by {
                        assert(block_id_of(ino, vn, j) == block_id_of(ino, img0, j));
                    }
                    assert forall|j1: int, j2: int| 0 <= j1 < d && 0 <= j2 < d && j1 != j2 implies #[trigger] block_id_of(ino, vn, j1) != #[trigger] block_id_of(ino, vn, j2) by {
                        assert(block_id_of(ino, vn, j1) == block_id_of(ino, img0, j1));
                        assert(block_id_of(ino, vn, j2) == block_id_of(ino, img0, j2));
                    }
                }
                assert(index_ok(ino, vn)) by {
                    let d = crate::disk_inode::data_blocks_for(ino.alloc_size as int);
                    assert forall|a: int| 0 <= a < crate::disk_inode::sub_tables_for(d) implies {
                        &&& 0 <= #[trigger] crate::disk_inode::sub_table(ino, vn, a) < vn.len()
                        &&& crate::disk_inode::sub_table(ino, vn, a) != ino.indirect1
                        &&& crate::disk_inode::sub_table(ino, vn, a) != ino.indirect2
                    } by {
                        assert(crate::disk_inode::sub_table(ino, vn, a) == crate::disk_inode::sub_table(ino, img0, a));
                    }
                    assert forall|a1: int, a2: int|
                        0 <= a1 < crate::disk_inode::sub_tables_for(d) && 0 <= a2 < crate::disk_inode::sub_tables_for(d) && a1 != a2
                        implies #[trigger] crate::disk_inode::sub_table(ino, vn, a1) != #[trigger] crate::disk_inode::sub_table(ino, vn, a2) by {
                        assert(crate::disk_inode::sub_table(ino, vn, a1) == crate::disk_inode::sub_table(ino, img0, a1));
                        assert(crate::disk_inode::sub_table(ino, vn, a2) == crate::disk_inode::sub_table(ino, img0, a2));
                    }
                }
                assert forall|p: int| 0 <= p < nb.len() implies {
                    &&& 0 <= #[trigger] nb[p] < vn.len()
                    &&& !is_data_block(ino, vn, nb[p] as int)
                    &&& !is_index_block(ino, vn, nb[p] as int)
                } by {
                    let b = nb[p] as int;
                    if is_data_block(ino, vn, b) {
                        let j = choose|j: int| 0 <= j < crate::disk_inode::data_blocks_for(ino.alloc_size as int) && b == #[trigger] block_id_of(ino, vn, j);
                        assert(block_id_of(ino, vn, j) == block_id_of(ino, img0, j));
                        assert(is_data_block(ino, img0, b));
                    }
                    if is_index_block(ino, vn, b) {
                        assert(is_index_block(ino, img0, b));
                    }
                }
                assert(crate::disk_inode::grow_pre(ino, vn, nb));
            }
        }
        proof {
            fs.lemma_cache_wf();
            crate::disk_inode::lemma_total_blocks_monotonic(disk_inode.alloc_size as int, new_size as int);
        }
        let ghost f1 = *fs;
        let ghost nb = v@;
        disk_inode.increase_size(new_size, v, &mut fs.cache);
        proof {
            f1.lemma_keep_wf(fs);
            if well_kept(ino, img0, area, len, bm) {
                let fin = *disk_inode;
                let fv = fs.view();
                let od = crate::disk_inode::data_blocks_for(ino.alloc_size as int);
                let nd = crate::disk_inode::data_blocks_for(new_size as int);
                assert(od <= nd) by (nonlinear_arith)
                    requires
                        od == (ino.alloc_size + 511) / 512,
                        nd == (new_size + 511) / 512,
                        ino.alloc_size <= new_size,
                ;
                assert forall|i: int| 0 <= i < ino.alloc_size implies #[trigger] file_bytes(fin, fv, ino.alloc_size as int)[i] == file_bytes(ino, img0, ino.alloc_size as int)[i] by {
                    let j = i / 512;
                    assert(0 <= j < od) by (nonlinear_arith)
                        requires
                            0 <= i < ino.alloc_size,
                            j == i / 512,
                            od == (ino.alloc_size + 511) / 512,
                    ;
                    let id = block_id_of(ino, img0, j);
                    assert(block_id_of(fin, fv, j) == crate::disk_inode::grown_block(ino, vn, nb, j));
                    assert(block_id_of(ino, vn, j) == id);
                    assert(!is_index_block(fin, fv, block_id_of(fin, fv, j)));
                    assert(block_at(fv, id) == block_at(vn, id));
                    assert(is_data_block(ino, img0, id));
                    assert(block_at(vn, id) == block_at(img0, id));
                }
                assert(file_bytes(fin, fv, ino.alloc_size as int) =~= file_bytes(ino, img0, ino.alloc_size as int));
                assert forall|b: int| #[trigger] is_data_block(fin, fv, b) implies area <= b < area + len by {
                    let j = choose|j: int| 0 <= j < nd && b == #[trigger] block_id_of(fin, fv, j);
                    if j < od {
                        assert(block_id_of(ino, vn, j) == block_id_of(ino, img0, j));
                        assert(is_data_block(ino, img0, b));
                    } else {
                        assert(b == nb[crate::disk_inode::data_slot(od, j)]);
                        crate::disk_inode::lemma_grown_slot(od, nd, j);
                    }
                }
                assert forall|b: int| #[trigger] is_index_block(fin, fv, b) implies area <= b < area + len by {
                    if is_index_block(ino, vn, b) {
                        assert(is_index_block(ino, img0, b));
                    } else {
                        let p = choose|p: int| 0 <= p < nb.len() && b == nb[p];
                        assert(area <= nb[p] < area + len);
                    }
                }
                assert(index_ok(fin, fv));
                assert forall|b: int| area <= b < area + len implies #[trigger] bit_set(fv, bm, b - area) == bit_set(vn, bm, b - area) by {
                    let kb = b - area;
                    crate::efs::lemma_region_block(kb, area - bm);
                    let blk = bm + kb / 4096;
                    if is_index_block(fin, fv, blk) {
                        if is_index_block(ino, vn, blk) {
                            assert(is_index_block(ino, img0, blk));
                        } else {
                            let p = choose|p: int| 0 <= p < nb.len() && blk == nb[p];
                            assert(area <= nb[p]);
                        }
                    }
                    assert(block_at(fv, blk) == block_at(vn, blk));
                }
                assert forall|b: int| #[trigger] is_data_block(fin, fv, b) implies bit_set(fv, bm, b - area) by {
                    let j = choose|j: int| 0 <= j < nd && b == #[trigger] block_id_of(fin, fv, j);
                    if j < od {
                        assert(block_id_of(ino, vn, j) == block_id_of(ino, img0, j));
                        assert(is_data_block(ino, img0, b));
                        assert(bit_set(img0, bm, b - area));
                    } else {
                        crate::disk_inode::lemma_grown_slot(od, nd, j);
                        assert(b == nb[crate::disk_inode::data_slot(od, j)]);
                    }
                }
                assert forall|b: int| #[trigger] is_index_block(fin, fv, b) implies bit_set(fv, bm, b - area) by {
                    if is_index_block(ino, vn, b) {
                        assert(is_index_block(ino, img0, b));
                        assert(bit_set(img0, bm, b - area));
                    } else {
                        let p = choose|p: int| 0 <= p < nb.len() && b == nb[p];
                        assert(bit_set(vn, bm, nb[p] - area));
                    }
                }
                assert forall|b: int| #[trigger] block_at(fv, b) != block_at(img0, b) implies b >= bm by {
                    if b < bm {
                        assert(block_at(vn, b) == block_at(img0, b));
                        if is_index_block(fin, fv, b) {
                            if is_index_block(ino, vn, b) {
                                assert(is_index_block(ino, img0, b));
                            } else {
                                let p = choose|p: int| 0 <= p < nb.len() && b == nb[p];
                                assert(area <= nb[p]);
                            }
                            assert(area <= b);
                        }
                    }
                }
                assert forall|b: int| #[trigger] block_at(fv, b) != block_at(img0, b) implies (bm <= b < area) || is_index_block(fin, fv, b) by {
                    if !(bm <= b < area) && !is_index_block(fin, fv, b) {
                        assert(block_at(fv, b) == block_at(vn, b));
                        assert(block_at(vn, b) == block_at(img0, b));
                    }
                }
                // the bitmap blocks lie before the data area, where the growth writes only index blocks
                assert forall|k: int| 0 <= k < len implies #[trigger] block_at(fv, bm + k / 4096) == block_at(vn, bm + k / 4096) by {
                    crate::efs::lemma_region_block(k, area - bm);
                    let blk = bm + k / 4096;
                    if is_index_block(fin, fv, blk) {
                        if is_index_block(ino, vn, blk) {
                            assert(is_index_block(ino, img0, blk));
                        } else {
                            let p = choose|p: int| 0 <= p < nb.len() && blk == nb[p];
                            assert(area <= nb[p]);
                        }
                    }
                }
                crate::bitmap::lemma_free_bits_frame(vn, fv, bm, len);
                assert forall|k: int| 0 <= k < len && #[trigger] bit_set(fv, bm, k) != bit_set(img0, bm, k) implies !bit_set(img0, bm, k) by {
                    assert(block_at(fv, bm + k / 4096) == block_at(vn, bm + k / 4096));
                }
                crate::disk_inode::lemma_total_blocks_monotonic(ino.alloc_size as int, new_size as int);
            }
        }
        true
    }

    /// Writes `buf` into the file from byte `offset` on, growing it as
    /// needed, and flushes the cache. It returns the number of bytes
    /// written: all of `buf` when this is a well-formed file, the end
    /// `offset + buf.len()` is within the largest file size, and the data
    /// area has the blocks the growth needs; otherwise none, and nothing
    /// changes. The size becomes the larger of the old size and the end of
    /// the write. When the file's blocks are in order (see `well_kept`) and
    /// its inode lies before the data area, the content then holds `buf`
    /// from `offset` on and the old content everywhere else it reached; no
    /// byte changes outside the inode's slot, the data bitmap and the file's
    /// own blocks, and data bitmap bits only go from clear to set, one for
    /// each block taken.
    #[verifier::rlimit(100)]
    #[verifier::spinoff_prover]
    pub fn write<D: BlockDevice>(&self, fs: &mut FileSystem<D>, offset: usize, buf: &[u8]) -> (r: usize)
        requires
            old(fs).wf(),
            self.valid_in(old(fs)),
        ensures
            final(fs).wf(),
            final(fs).same_layout(old(fs)),
            ({
                let ino = self.disk(old(fs).view());
                let end = offset + buf@.len();
                let ok = {
                    &&& ino.type_ == DiskInodeType::File
                    &&& sane(ino)
                    &&& end <= MAX_FILE_SIZE
                    &&& room_for(ino, end, free_bits(old(fs).view(), old(fs).data_bitmap_start(), old(fs).data_area_len()))
                };
                &&& r == if ok { buf@.len() as int } else { 0 }
                &&& !ok ==> final(fs).view() == old(fs).view()
                &&& ok ==> {
                    let ino2 = self.disk(final(fs).view());
                    &&& ino2.size == vstd::math::max(ino.size as int, end)
                    &&& ino2.alloc_size == vstd::math::max(ino.alloc_size as int, end)
                    &&& ino2.type_ == DiskInodeType::File
                    &&& final(fs).synced()
                }
                &&& (ok && well_kept(ino, old(fs).view(), old(fs).data_area_start(), old(fs).data_area_len(), old(fs).data_bitmap_start())
                    && self.block() < old(fs).data_bitmap_start()) ==> {
                    let c2 = content(self.disk(final(fs).view()), final(fs).view());
                    let c = content(ino, old(fs).view());
                    &&& forall|i: int| offset <= i < end ==> #[trigger] c2[i] == buf@[i - offset]
                    &&& forall|i: int| 0 <= i < ino.size && !(offset <= i < end) ==> #[trigger] c2[i] == c[i]
                    &&& well_kept(self.disk(final(fs).view()), final(fs).view(), old(fs).data_area_start(), old(fs).data_area_len(), old(fs).data_bitmap_start())
                    &&& touches_only(
                        old(fs).view(),
                        final(fs).view(),
                        self.disk(final(fs).view()),
                        self.block(),
                        self.offset(),
                        old(fs).data_bitmap_start(),
                        old(fs).data_area_start(),
                    )
                    &&& forall|k: int| 0 <= k < old(fs).data_area_len() && #[trigger] bit_set(final(fs).view(), old(fs).data_bitmap_start(), k)
                        != bit_set(old(fs).view(), old(fs).data_bitmap_start(), k) ==> !bit_set(old(fs).view(), old(fs).data_bitmap_start(), k)
                    &&& free_bits(final(fs).view(), old(fs).data_bitmap_start(), old(fs).data_area_len()) == free_bits(
                        old(fs).view(),
                        old(fs).data_bitmap_start(),
                        old(fs).data_area_len(),
                    ) - (total_blocks_for(self.disk(final(fs).view()).alloc_size as int) - total_blocks_for(ino.alloc_size as int))
                }
            }),
    {
        let ghost f0 = *fs;
        let ghost img = fs.view();
        let ghost area = f0.data_area_start();
        let ghost len = f0.data_area_len();
        let ghost bm = f0.data_bitmap_start();
        let mut ino = self.read_disk_inode(fs);
        let ghost ino0 = ino;
        let ghost kept = well_kept(ino0, img, area, len, bm) && self.block() < bm;
        if !ino.is_file() || ino.size > ino.alloc_size || ino.alloc_size > MAX_FILE_SIZE as u32 {
            return 0;
        }
        if offset > MAX_FILE_SIZE || buf.len() > MAX_FILE_SIZE - offset {
            return 0;
        }
        let end = (offset + buf.len()) as u32;
        if !self.increase_size(end, &mut ino, fs) {
            return 0;
        }
        let ghost view2 = fs.view();
        let ghost ino1 = ino;
        proof {
            fs.lemma_cache_wf();
            f0.lemma_wf();
            if kept {
                if end <= ino0.alloc_size {
                    lemma_bytes_frame(ino0, img, view2, area, len, ino0.alloc_size as int);
                }
                assert(mapping_ok(ino1, view2));
                assert(in_area(ino1, view2, area, len)) by {
                    if end <= ino0.alloc_size {
                        lemma_bytes_frame(ino0, img, view2, area, len, 0);
                    }
                }
                assert(file_bytes(ino1, view2, ino0.alloc_size as int) == file_bytes(ino0, img, ino0.alloc_size as int));
            }
        }
        let ghost f1 = *fs;
        let n = ino.write_at(offset, buf, &mut fs.cache);
        let ghost view3 = fs.view();
        proof {
            f1.lemma_keep_wf(fs);
            if kept {
                assert forall|b: int| is_index_block(ino1, view2, b) implies #[trigger] block_at(view3, b) == block_at(view2, b) by {
                    if is_data_block(ino1, view2, b) {
                        let j = choose|j: int| 0 <= j < crate::disk_inode::data_blocks_for(ino1.alloc_size as int) && b == #[trigger] block_id_of(ino1, view2, j);
                        assert(!is_index_block(ino1, view2, block_id_of(ino1, view2, j)));
                    }
                }
                crate::disk_inode::lemma_mapping_stable(ino1, view2, view3);
                assert(in_area(ino1, view3, area, len)) by {
                    assert forall|b: int| #[trigger] is_data_block(ino1, view3, b) implies area <= b < area + len by {
                        let j = choose|j: int| 0 <= j < crate::disk_inode::data_blocks_for(ino1.alloc_size as int) && b == #[trigger] block_id_of(ino1, view3, j);
                        assert(block_id_of(ino1, view2, j) == b);
                        assert(is_data_block(ino1, view2, b));
                    }
                }
            }
        }
        if offset + n > ino.size as usize {
            ino.size = (offset + n) as u32;
        }
        let ghost ino2 = ino;
        self.write_disk_inode(fs, &ino);
        let ghost view4 = fs.view();
        fs.sync_all();
        proof {
            fs.lemma_wf();
            if kept {
                assert forall|b: int| b >= area implies #[trigger] block_at(view4, b) == block_at(view3, b) by {
                    let bytes4 = choose|bytes: Seq<u8>| bytes.len() == 128 && inode_in(bytes) == ino2 && view4 == write_in_block(view3, self.block(), self.offset(), bytes);
                    assert(b != self.block());
                }
                assert(in_area(ino2, view3, area, len)) by {
                    assert forall|b: int| #[trigger] is_data_block(ino2, view3, b) implies area <= b < area + len by {
                        let j = choose|j: int| 0 <= j < crate::disk_inode::data_blocks_for(ino2.alloc_size as int) && b == #[trigger] block_id_of(ino2, view3, j);
                        assert(block_id_of(ino1, view3, j) == b);
                        assert(is_data_block(ino1, view3, b));
                    }
                    assert forall|b: int| #[trigger] is_index_block(ino2, view3, b) implies area <= b < area + len by {
                        let d2 = crate::disk_inode::data_blocks_for(ino2.alloc_size as int);
                        if b != ino2.indirect1 && b != ino2.indirect2 {
                            let a = choose|a: int| 0 <= a < crate::disk_inode::sub_tables_for(d2) && b == #[trigger] crate::disk_inode::sub_table(ino2, view3, a);
                            assert(crate::disk_inode::sub_table(ino1, view3, a) == b);
                        }
                        assert(is_index_block(ino1, view3, b));
                    }
                }
                lemma_bytes_frame(ino2, view3, view4, area, len, ino2.size as int);
                let c2 = content(ino2, view4);
                let c = content(ino0, img);
                let w3 = file_bytes(ino1, view3, ino1.alloc_size as int);
                let w2 = file_bytes(ino1, view2, ino1.alloc_size as int);
                assert(n == buf@.len());
                assert(w3 == splice(w2, offset as int, buf@.subrange(0, n as int)));
                assert forall|i: int| 0 <= i < ino2.size implies #[trigger] c2[i] == w3[i] by {
                    assert(c2[i] == file_bytes(ino2, view3, ino2.size as int)[i]);
                }
                assert forall|i: int| offset <= i < end implies #[trigger] c2[i] == buf@[i - offset] by {
                    assert(w3[i] == buf@.subrange(0, n as int)[i - offset]);
                }
                assert forall|i: int| 0 <= i < ino0.size && !(offset <= i < end) implies #[trigger] c2[i] == c[i] by {
                    assert(w3[i] == w2[i]);
                    assert(w2[i] == file_bytes(ino1, view2, ino0.alloc_size as int)[i]);
                    assert(file_bytes(ino0, img, ino0.alloc_size as int)[i] == c[i]);
                }
                assert(well_kept(ino1, view2, area, len, bm)) by {
                    if end <= ino0.alloc_size {
                        assert(ino1 == ino0);
                    }
                }
                lemma_well_kept_write(ino1, view2, view3, area, len, bm);
                lemma_same_blocks(ino1, ino2, view3, area, len, bm);
                assert forall|b: int| b >= bm implies #[trigger] block_at(view4, b) == block_at(view3, b) by {
                    let bytes4 = choose|bytes: Seq<u8>| bytes.len() == 128 && inode_in(bytes) == ino2 && view4 == write_in_block(view3, self.block(), self.offset(), bytes);
                    assert(b != self.block());
                }
                lemma_well_kept_frame(ino2, view3, view4, area, len, bm);
                lemma_bytes_frame(ino2, view3, view4, area, len, 0);
                lemma_same_blocks(ino1, ino2, view3, area, len, bm);
                lemma_same_blocks(ino1, ino2, view2, area, len, bm);
                assert forall|b: int, i: int| 0 <= i < BLOCK_SIZE && #[trigger] block_at(view4, b)[i] != block_at(img, b)[i] implies {
                    ||| b == self.block() && self.offset() <= i < self.offset() + 128
                    ||| bm <= b < area
                    ||| is_data_block(ino2, view4, b)
                    ||| is_index_block(ino2, view4, b)
                } by {
                    let bytes4 = choose|bytes: Seq<u8>| bytes.len() == 128 && inode_in(bytes) == ino2 && view4 == write_in_block(view3, self.block(), self.offset(), bytes);
                    if !(b == self.block() && self.offset() <= i < self.offset() + 128) {
                        assert(block_at(view4, b)[i] == block_at(view3, b)[i]);
                        if block_at(view3, b) != block_at(view2, b) {
                            assert(is_data_block(ino1, view2, b));
                        } else if block_at(view2, b) != block_at(img, b) {
                            if end <= ino0.alloc_size {
                                assert(false);
                            }
                        } else {
                            assert(false);
                        }
                    }
                }
                // the data bitmap sits before the data area and apart from this inode's slot
                assert forall|k: int| 0 <= k < len implies #[trigger] block_at(view4, bm + k / 4096) == block_at(view2, bm + k / 4096) by {
                    crate::efs::lemma_region_block(k, area - bm);
                    let bytes4 = choose|bytes: Seq<u8>| bytes.len() == 128 && inode_in(bytes) == ino2 && view4 == write_in_block(view3, self.block(), self.offset(), bytes);
                    assert(block_at(view4, bm + k / 4096) == block_at(view3, bm + k / 4096));
                }
                crate::bitmap::lemma_free_bits_frame(view2, view4, bm, len);
                assert forall|k: int| 0 <= k < len && #[trigger] bit_set(view4, bm, k) != bit_set(img, bm, k) implies !bit_set(img, bm, k) by {
                    assert(block_at(view4, bm + k / 4096) == block_at(view2, bm + k / 4096));
                    assert(bit_set(view4, bm, k) == bit_set(view2, bm, k));
                    if end <= ino0.alloc_size {
                        assert(bit_set(view2, bm, k) == bit_set(img, bm, k));
                    } else {
                        assert(bit_set(view2, bm, k) != bit_set(img, bm, k));
                    }
                }
            }
        }
        n
    }
}

impl Inode {
    /// Creates `name` in this directory as a new, empty inode of kind
    /// `kind`, and flushes the cache. `None` when this is not a well-formed
    /// directory or already has an entry `name`, and also when no inode
    /// number or data block is left; otherwise the new handle. The new inode
    /// takes the lowest free inode number. When the directory's blocks are
    /// in order and its inode lies before the data bitmap, the directory then
    /// lists its old entries followed by `name` for the new inode, and no byte
    /// changes outside the two inode slots, the new inode's bitmap block, the
    /// data bitmap and the directory's own blocks.
    #[verifier::rlimit(100)]
    #[verifier::spinoff_prover]
    pub fn create<D: BlockDevice>(&self, fs: &mut FileSystem<D>, name: &str, kind: DiskInodeType) -> (r: Option<Inode>)
        requires
            old(fs).wf(),
            self.valid_in(old(fs)),
            name_fits(name.spec_bytes()),
        ensures
            final(fs).wf(),
            final(fs).same_layout(old(fs)),
            ({
                let dir = self.disk(old(fs).view());
                let img = old(fs).view();
                let kept = well_kept(dir, img, old(fs).data_area_start(), old(fs).data_area_len(), old(fs).data_bitmap_start())
                    && self.block() < old(fs).data_bitmap_start();
                &&& (dir.type_ != DiskInodeType::Directory || !sane(dir)) ==> r.is_none()
                &&& has_entry(dir, img, name.spec_bytes()) ==> r.is_none()
                &&& (dir.type_ == DiskInodeType::Directory && sane(dir) && !has_entry(dir, img, name.spec_bytes())
                    && dir.size + 32 <= MAX_FILE_SIZE
                    && free_bits(img, 1, old(fs).max_inodes()) >= 1
                    && room_for(dir, dir.size + 32, free_bits(img, old(fs).data_bitmap_start(), old(fs).data_area_len())))
                    ==> r.is_some()
                &&& r.is_none() && (dir.type_ != DiskInodeType::Directory || !sane(dir) || has_entry(dir, img, name.spec_bytes())) ==> final(fs).view() == img
                &&& r matches Some(c) ==> {
                    &&& dir.type_ == DiskInodeType::Directory
                    &&& !has_entry(dir, img, name.spec_bytes())
                    &&& c.valid_in(final(fs))
                    &&& c.disk(final(fs).view()).size == 0
                    &&& c.disk(final(fs).view()).alloc_size == 0
                    &&& c.disk(final(fs).view()).type_ == kind
                    &&& final(fs).synced()
                    &&& exists|id: int| {
                        &&& 0 <= id < old(fs).max_inodes()
                        &&& c.block() == old(fs).inode_area_start() + id / 4
                        &&& c.offset() == (id % 4) * 128
                        &&& !crate::bitmap::bit_set(img, 1, id)
                        &&& forall|j: int| 0 <= j < id ==> #[trigger] crate::bitmap::bit_set(img, 1, j)
                        &&& (c.block() != self.block() || c.offset() != self.offset()) ==> {
                            &&& self.disk(final(fs).view()).size == dir.size + 32
                            &&& self.disk(final(fs).view()).alloc_size >= dir.size + 32
                            &&& self.disk(final(fs).view()).type_ == DiskInodeType::Directory
                        }
                        &&& (kept && self.block() >= old(fs).inode_area_start()) ==> crate::bitmap::bit_set(final(fs).view(), 1, id)
                        &&& (kept && self.block() >= old(fs).inode_area_start() && (c.block() != self.block() || c.offset() != self.offset())) ==> {
                            let fv = final(fs).view();
                            let bm = old(fs).data_bitmap_start();
                            let len = old(fs).data_area_len();
                            let dir2 = self.disk(fv);
                            &&& forall|k: int| 0 <= k < old(fs).max_inodes() && k != id ==> #[trigger] bit_set(fv, 1, k) == bit_set(img, 1, k)
                            &&& forall|k: int| 0 <= k < len && #[trigger] bit_set(fv, bm, k) != bit_set(img, bm, k) ==> !bit_set(img, bm, k)
                            &&& free_bits(fv, bm, len) == free_bits(img, bm, len) - (total_blocks_for(dir2.alloc_size as int) - total_blocks_for(dir.alloc_size as int))
                            &&& forall|b: int, i: int|
                                0 <= i < BLOCK_SIZE && #[trigger] block_at(fv, b)[i] != block_at(img, b)[i] ==> {
                                    ||| b == self.block() && self.offset() <= i < self.offset() + 128
                                    ||| b == c.block() && c.offset() <= i < c.offset() + 128
                                    ||| b == 1 + id / 4096
                                    ||| bm <= b < old(fs).data_area_start()
                                    ||| is_data_block(dir2, fv, b)
                                    ||| is_index_block(dir2, fv, b)
                                }
                        }
                        &&& (kept && (c.block() != self.block() || c.offset() != self.offset())) ==> entry_added(
                            dir,
                            img,
                            self.disk(final(fs).view()),
                            final(fs).view(),
                            name.spec_bytes(),
                            id,
                        ) && well_kept(
                            self.disk(final(fs).view()),
                            final(fs).view(),
                            old(fs).data_area_start(),
                            old(fs).data_area_len(),
                            old(fs).data_bitmap_start(),
                        )
                    }
                }
            }),
    {
        let ghost f0 = *fs;
        let ghost img = fs.view();
        let ghost area = f0.data_area_start();
        let ghost len = f0.data_area_len();
        let ghost bm = f0.data_bitmap_start();
        let mut dir = self.read_disk_inode(fs);
        let ghost dir0 = dir;
        let ghost kept = well_kept(dir0, img, area, len, bm) && self.block() < bm;
        if !dir.is_dir() || dir.size > dir.alloc_size || dir.alloc_size > MAX_FILE_SIZE as u32 {
            return None;
        }
        if self.find_inode_id(name, &dir, fs).is_some() {
            return None;
        }
        let count = (dir.size as usize) / DIRENT_SIZE;
        if dir.size as usize + DIRENT_SIZE > MAX_FILE_SIZE {
            return None;
        }
        let new_size = dir.size + DIRENT_SIZE as u32;
        let ghost f_before = *fs;
        let new_id = match fs.alloc_inode() {
            Some(id) => id,
            None => {
                proof {
                    crate::bitmap::lemma_free_bits_zero(img, 1, f_before.max_inodes());
                }
                return None;
            },
        };
        let ghost view1 = fs.view();
        let (new_block, new_offset) = fs.get_disk_inode_pos(new_id);
        proof {
            fs.lemma_wf();
            f0.lemma_wf();
            fs.lemma_has_inodes();
            crate::efs::lemma_region_block(new_id as int, fs.inode_bitmap.blocks() as int);
            assert forall|k: int| 0 <= k < len implies #[trigger] block_at(view1, bm + k / 4096) == block_at(img, bm + k / 4096) by {
                assert(bm + k / 4096 != 1 + new_id / 4096);
            }
            crate::bitmap::lemma_free_bits_frame(img, view1, bm, len);
            if kept {
                assert forall|b: int| b >= bm implies #[trigger] block_at(view1, b) == block_at(img, b) by {
                    assert(b != 1 + new_id / 4096);
                }
                lemma_well_kept_frame(dir0, img, view1, area, len, bm);
            }
        }
        if !self.increase_size(new_size, &mut dir, fs) {
            proof {
                fs.lemma_wf();
                crate::bitmap::lemma_with_bit(old(fs).view(), 1, new_id as int, true, new_id as int);
            }
            fs.dealloc_inode(new_id);
            return None;
        }
        let ghost view2 = fs.view();
        let ghost dir1 = dir;
        proof {
            if kept {
                if new_size <= dir0.alloc_size {
                    lemma_bytes_frame(dir0, img, view1, area, len, dir0.alloc_size as int);
                } else {
                    assert(file_bytes(dir1, view2, dir0.alloc_size as int) == file_bytes(dir0, img, dir0.alloc_size as int));
                }
                assert(mapping_ok(dir1, view2));
                assert(in_area(dir1, view2, area, len)) by {
                    if new_size <= dir0.alloc_size {
                        lemma_bytes_frame(dir0, img, view1, area, len, 0);
                    }
                }
            }
        }
        let entry = DirEntry::new(name, new_id);
        let bytes = entry.as_bytes();
        proof {
            fs.lemma_cache_wf();
        }
        let ghost f1 = *fs;
        dir.write_at(count * DIRENT_SIZE, bytes.as_slice(), &mut fs.cache);
        let ghost view3 = fs.view();
        proof {
            f1.lemma_keep_wf(fs);
            fs.lemma_wf();
            if kept {
                assert forall|b: int| is_index_block(dir1, view2, b) implies #[trigger] block_at(view3, b) == block_at(view2, b) by {
                    if is_data_block(dir1, view2, b) {
                        let j = choose|j: int| 0 <= j < crate::disk_inode::data_blocks_for(dir1.alloc_size as int) && b == #[trigger] block_id_of(dir1, view2, j);
                        assert(!is_index_block(dir1, view2, block_id_of(dir1, view2, j)));
                    }
                }
                crate::disk_inode::lemma_mapping_stable(dir1, view2, view3);
                assert(in_area(dir1, view3, area, len)) by {
                    assert forall|b: int| #[trigger] is_data_block(dir1, view3, b) implies area <= b < area + len by {
                        let j = choose|j: int| 0 <= j < crate::disk_inode::data_blocks_for(dir1.alloc_size as int) && b == #[trigger] block_id_of(dir1, view3, j);
                        assert(block_id_of(dir1, view2, j) == b);
                        assert(is_data_block(dir1, view2, b));
                    }
                }
            }
        }
        dir.size = new_size;
        let ghost dir2 = dir;
        self.write_disk_inode(fs, &dir);
        let ghost view4 = fs.view();
        let new_inode = Inode::new(new_block, new_offset);
        let fresh = DiskInode::new(kind);
        new_inode.write_disk_inode(fs, &fresh);
        let ghost view5 = fs.view();
        fs.sync_all();
        proof {
            fs.lemma_wf();
            let bytes5 = choose|bytes: Seq<u8>| bytes.len() == 128 && inode_in(bytes) == fresh && view5 == write_in_block(view4, new_block as int, new_offset as int, bytes);
            let bytes4 = choose|bytes: Seq<u8>| bytes.len() == 128 && inode_in(bytes) == dir2 && view4 == write_in_block(view3, self.block(), self.offset(), bytes);
            crate::block_cache::lemma_write_keeps_wf(view3, self.block(), self.offset(), bytes4);
            if new_block != self.block() || new_offset != self.offset() {
                lemma_slot_kept(view4, self.block(), self.offset(), new_block as int, new_offset as int, bytes5);
                assert(self.disk(view5) == dir2);
            }
            if kept && self.block() >= f0.inode_area_start() {
                let bb = 1 + new_id / 4096;
                assert(bb < f0.inode_area_start());
                assert(block_at(view5, bb) == block_at(view4, bb));
                assert(block_at(view4, bb) == block_at(view3, bb));
                assert(block_at(view3, bb) == block_at(view2, bb)) by {
                    assert(!is_data_block(dir1, view2, bb));
                }
                assert(block_at(view2, bb) == block_at(view1, bb));
                crate::bitmap::lemma_with_bit(img, 1, new_id as int, true, new_id as int);
                assert(crate::bitmap::bit_set(view1, 1, new_id as int));
            }
            if kept && self.block() >= f0.inode_area_start() && (new_block != self.block() || new_offset != self.offset()) {
                f0.lemma_has_inodes();
                assert(f0.max_inodes() <= (f0.inode_area_start() - 1) * 4096);
                assert(well_kept(dir1, view2, area, len, bm)) by {
                    if new_size <= dir0.alloc_size {
                        assert(dir1 == dir0);
                    }
                }
                lemma_create_frame(
                    img, view1, view2, view3, view4, view5, dir0, dir1, dir2, new_id as int,
                    self.block(), self.offset(), new_block as int, new_offset as int, bytes4, bytes5,
                    f0.inode_area_start(), f0.max_inodes(), area, len, bm, new_size > dir0.alloc_size,
                );
            }
            if kept && (new_block != self.block() || new_offset != self.offset()) {
                assert(well_kept(dir1, view2, area, len, bm)) by {
                    if new_size <= dir0.alloc_size {
                        assert(dir1 == dir0);
                    }
                }
                assert(bytes@.subrange(0, 32) =~= bytes@);
                lemma_create_entry(
                    img, view2, view3, view4, view5, dir0, dir1, dir2, bytes@, entry.raw_name(), new_id,
                    self.block(), self.offset(), new_block as int, new_offset as int, bytes4, bytes5,
                    area, len, bm,
                );
            }
        }
        Some(new_inode)
    }

    /// Empties the file or directory: frees every data and index block it
    /// holds, sets both sizes to zero and every index pointer to zero, and
    /// flushes the cache. Each listed block of the data area is zeroed and
    /// its bit cleared; no other bit of either bitmap changes, and no byte
    /// outside the inode's slot, the data bitmap and those blocks. Nothing
    /// changes when the stored inode is malformed.
    #[verifier::spinoff_prover]
    pub fn clear<D: BlockDevice>(&self, fs: &mut FileSystem<D>)
        requires
            old(fs).wf(),
            self.valid_in(old(fs)),
        ensures
            final(fs).wf(),
            final(fs).same_layout(old(fs)),
            ({
                let ino = self.disk(old(fs).view());
                let ino2 = self.disk(final(fs).view());
                let img = old(fs).view();
                let img2 = final(fs).view();
                let area = old(fs).data_area_start();
                let len = old(fs).data_area_len();
                let bm = old(fs).data_bitmap_start();
                &&& !sane(ino) ==> img2 == img
                &&& sane(ino) ==> {
                    &&& ino2.size == 0
                    &&& ino2.alloc_size == 0
                    &&& ino2.direct@ == Seq::new(28, |i: int| 0u32)
                    &&& ino2.indirect1 == 0
                    &&& ino2.indirect2 == 0
                    &&& ino2.type_ == ino.type_
                    &&& final(fs).synced()
                }
                &&& (sane(ino) && old(fs).inode_area_start() <= self.block() < bm) ==> {
                    let owned = crate::disk_inode::owned_blocks(ino, img);
                    &&& forall|p: int|
                        0 <= p < owned.len() && area <= #[trigger] owned[p] < area + len ==> {
                            &&& !bit_set(img2, bm, owned[p] - area)
                            &&& block_at(img2, owned[p] as int) == crate::block_dev::zero_block()
                        }
                    &&& forall|k: int|
                        0 <= k < len && (forall|p: int| 0 <= p < owned.len() ==> owned[p] != area + k)
                            ==> #[trigger] bit_set(img2, bm, k) == bit_set(img, bm, k)
                    &&& forall|k: int| 0 <= k < old(fs).max_inodes() ==> #[trigger] bit_set(img2, 1, k) == bit_set(img, 1, k)
                    &&& forall|b: int, i: int|
                        0 <= i < BLOCK_SIZE && #[trigger] block_at(img2, b)[i] != block_at(img, b)[i] ==> {
                            ||| b == self.block() && self.offset() <= i < self.offset() + 128
                            ||| bm <= b < area
                            ||| exists|p: int| 0 <= p < owned.len() && owned[p] == b
                        }
                }
            }),
    {
        let ghost area = fs.data_area_start();
        let ghost len = fs.data_area_len();
        let ghost bm = fs.data_bitmap_start();
        let ghost img = fs.view();
        proof {
            fs.lemma_wf();
        }
        let mut ino = self.read_disk_inode(fs);
        if ino.size > ino.alloc_size || ino.alloc_size > MAX_FILE_SIZE as u32 {
            return;
        }
        proof {
            fs.lemma_cache_wf();
        }
        let ghost f1 = *fs;
        let freed = ino.clear_size(&mut fs.cache);
        proof {
            f1.lemma_keep_wf(fs);
        }
        let ghost f2 = *fs;
        let z = crate::layout::zeros(BLOCK_SIZE);
        let mut k: usize = 0;
        while k < freed.len()
            invariant
                k <= freed@.len(),
                fs.wf(),
                fs.same_layout(&f2),
                f2.same_layout(old(fs)),
                self.valid_in(old(fs)),
                ino.alloc_size == 0,
                z@ == crate::block_dev::zero_block(),
                area == f2.data_area_start(),
                len == f2.data_area_len(),
                bm == f2.data_bitmap_start(),
                bm <= area,
                len <= (area - bm) * 4096,
                area + len <= img.len(),
                img.len() == fs.view().len(),
                forall|p: int|
                    0 <= p < k && area <= #[trigger] freed@[p] < area + len ==> !bit_set(fs.view(), bm, freed@[p] - area)
                        && block_at(fs.view(), freed@[p] as int) == crate::block_dev::zero_block(),
                forall|k2: int|
                    0 <= k2 < len && (forall|p: int| 0 <= p < k ==> freed@[p] != area + k2) ==> #[trigger] bit_set(fs.view(), bm, k2)
                        == bit_set(img, bm, k2),
                forall|b: int| b < bm ==> #[trigger] block_at(fs.view(), b) == block_at(img, b),
                forall|b: int|
                    #[trigger] block_at(fs.view(), b) != block_at(img, b) ==> (bm <= b < area) || exists|p: int|
                        0 <= p < k && freed@[p] == b,
            decreases freed@.len() - k,
        {
            let b = freed[k];
            if fs.data_area_start_block <= b && (b as u64) < fs.data_area_start_block as u64 + fs.data_area_blocks as u64 {
                let ghost v0 = fs.view();
                proof {
                    fs.lemma_wf();
                    crate::efs::lemma_region_block(b - area, area - bm);
                }
                let in_use = fs.data_block_in_use(b);
                if in_use {
                    fs.dealloc_data(b);
                } else {
                    proof {
                        fs.lemma_cache_wf();
                    }
                    let ghost f3 = *fs;
                    fs.cache.write_bytes(b as usize, 0, z.as_slice());
                    proof {
                        f3.lemma_keep_wf(fs);
                    }
                }
                proof {
                    fs.lemma_wf();
                    let v = fs.view();
                    let v1 = write_in_block(v0, b as int, 0, crate::block_dev::zero_block());
                    crate::block_cache::lemma_write_keeps_wf(v0, b as int, 0, crate::block_dev::zero_block());
                    let kb = b - area;
                    assert(splice(block_at(v0, b as int), 0, crate::block_dev::zero_block()) =~= crate::block_dev::zero_block());
                    // the bit's block lies before the data area, the zeroed block in it
                    assert forall|x: int| 0 <= x < len implies #[trigger] bit_set(v, bm, x) == (if x == kb { false } else { bit_set(v0, bm, x) }) by {
                        crate::efs::lemma_region_block(x, area - bm);
                        assert(block_at(v1, bm + x / 4096) == block_at(v0, bm + x / 4096));
                        if in_use {
                            crate::bitmap::lemma_with_bit(v1, bm, kb, false, x);
                        } else {
                            assert(v == v1);
                        }
                    }
                    assert(block_at(v, b as int) == crate::block_dev::zero_block()) by {
                        if in_use {
                            assert(block_at(v, b as int) == block_at(v1, b as int));
                        }
                    }
                    assert forall|x: int| x != b && (x < bm || x >= area) implies #[trigger] block_at(v, x) == block_at(v0, x) by {
                        if in_use {
                            assert(block_at(v, x) == block_at(v1, x));
                        }
                    }
                    assert forall|x: int| #[trigger] block_at(v, x) != block_at(img, x) implies (bm <= x < area) || exists|p: int|
                        0 <= p < k + 1 && freed@[p] == x by {
                        if x == b {
                            assert(freed@[k as int] == x);
                        } else if !(bm <= x < area) {
                            assert(block_at(v, x) == block_at(v0, x));
                            let p = choose|p: int| 0 <= p < k && freed@[p] == x;
                            assert(0 <= p < k + 1 && freed@[p] == x);
                        }
                    }
                }
            }
            k += 1;
        }
        let ghost v5 = fs.view();
        proof {
            fs.lemma_wf();
        }
        self.write_disk_inode(fs, &ino);
        let ghost v6 = fs.view();
        fs.sync_all();
        proof {
            let lo = f2.inode_area_start();
            if lo <= self.block() < bm {
                fs.lemma_wf();
                let bytes6 = choose|bytes: Seq<u8>| bytes.len() == 128 && inode_in(bytes) == ino && v6 == write_in_block(v5, self.block(), self.offset(), bytes);
                assert forall|x: int| x != self.block() implies #[trigger] block_at(v6, x) == block_at(v5, x) by {}
                assert forall|p: int| 0 <= p < freed@.len() && area <= #[trigger] freed@[p] < area + len implies !bit_set(v6, bm, freed@[p] - area)
                    && block_at(v6, freed@[p] as int) == crate::block_dev::zero_block() by {
                    crate::efs::lemma_region_block(freed@[p] - area, area - bm);
                    assert(block_at(v6, bm + (freed@[p] - area) / 4096) == block_at(v5, bm + (freed@[p] - area) / 4096));
                }
                assert forall|k2: int| 0 <= k2 < len && (forall|p: int| 0 <= p < freed@.len() ==> freed@[p] != area + k2) implies #[trigger] bit_set(v6, bm, k2) == bit_set(img, bm, k2) by {
                    crate::efs::lemma_region_block(k2, area - bm);
                    assert(forall|p: int| 0 <= p < k ==> freed@[p] != area + k2);
                    assert(bit_set(v5, bm, k2) == bit_set(img, bm, k2));
                    assert(block_at(v6, bm + k2 / 4096) == block_at(v5, bm + k2 / 4096));
                }
                crate::block_cache::lemma_write_keeps_wf(v5, self.block(), self.offset(), bytes6);
                assert forall|b: int, i: int| 0 <= i < BLOCK_SIZE && #[trigger] block_at(v6, b)[i] != block_at(img, b)[i] implies {
                    ||| b == self.block() && self.offset() <= i < self.offset() + 128
                    ||| bm <= b < area
                    ||| exists|p: int| 0 <= p < freed@.len() && freed@[p] == b
                } by {
                    if !(b == self.block() && self.offset() <= i < self.offset() + 128) && !(bm <= b < area) {
                        assert(block_at(v6, b)[i] == block_at(v5, b)[i]);
                        assert(block_at(v5, b) != block_at(img, b));
                        let p = choose|p: int| 0 <= p < k && freed@[p] == b;
                        assert(0 <= p < freed@.len() && freed@[p] == b);
                    }
                }
                assert forall|k2: int| 0 <= k2 < f2.max_inodes() implies #[trigger] bit_set(v6, 1, k2) == bit_set(img, 1, k2) by {
                    fs.lemma_has_inodes();
                    crate::efs::lemma_region_block(k2, fs.inode_bitmap.blocks() as int);
                    assert(block_at(v6, 1 + k2 / 4096) == block_at(v5, 1 + k2 / 4096));
                    assert(block_at(v5, 1 + k2 / 4096) == block_at(img, 1 + k2 / 4096));
                }
            }
        }
    }

    /// Renames entry `old_name` of this directory to `new_name`, keeping its
    /// inode number. Nothing changes when no entry is named `old_name` or the
    /// stored inode is malformed.
    #[verifier::rlimit(100)]
    #[verifier::spinoff_prover]
    pub fn chname<D: BlockDevice>(&self, fs: &mut FileSystem<D>, old_name: &str, new_name: &str)
        requires
            old(fs).wf(),
            self.valid_in(old(fs)),
            name_fits(new_name.spec_bytes()),
        ensures
            final(fs).wf(),
            final(fs).same_layout(old(fs)),
            ({
                let dir = self.disk(old(fs).view());
                let img = old(fs).view();
                let img2 = final(fs).view();
                &&& (!sane(dir) || !has_entry(dir, img, old_name.spec_bytes())) ==> img2 == img
                &&& forall|b: int, i: int|
                    0 <= i < BLOCK_SIZE && #[trigger] block_at(img2, b)[i] != block_at(img, b)[i] ==> is_data_block(dir, img, b)
                &&& (sane(dir) && has_entry(dir, img, old_name.spec_bytes()) && well_kept(
                    dir,
                    img,
                    old(fs).data_area_start(),
                    old(fs).data_area_len(),
                    old(fs).data_bitmap_start(),
                ) && self.block() < old(fs).data_area_start()) ==> {
                    &&& self.disk(img2) == dir
                    &&& exists|k: int| {
                        &&& first_entry(dir, img, old_name.spec_bytes(), k)
                        &&& entry_name(dir, img2, k) == new_name.spec_bytes()
                        &&& entry_id(dir, img2, k) == entry_id(dir, img, k)
                        &&& forall|k2: int| 0 <= k2 < entry_count(dir) && k2 != k ==> {
                            &&& #[trigger] entry_name(dir, img2, k2) == entry_name(dir, img, k2)
                            &&& entry_id(dir, img2, k2) == entry_id(dir, img, k2)
                        }
                    }
                }
            }),
    {
        let ghost img = fs.view();
        let ghost area = fs.data_area_start();
        let mut dir = self.read_disk_inode(fs);
        let ghost dir0 = dir;
        if dir.size > dir.alloc_size || dir.alloc_size > MAX_FILE_SIZE as u32 {
            return;
        }
        match Self::entry_index(fs, &dir, old_name) {
            Some(k) => {
                let mut e = Self::read_entry(fs, &dir, k);
                let ghost e0 = e;
                e.chname(new_name);
                let bytes = e.as_bytes();
                proof {
                    fs.lemma_cache_wf();
                }
                let ghost f1 = *fs;
                dir.write_at(k * DIRENT_SIZE, bytes.as_slice(), &mut fs.cache);
                proof {
                    f1.lemma_keep_wf(fs);
                    let img2 = fs.view();
                    assert forall|b: int, i: int| 0 <= i < BLOCK_SIZE && #[trigger] block_at(img2, b)[i] != block_at(img, b)[i] implies is_data_block(dir0, img, b) by {
                        lemma_written_in_data(dir0, img, 32 * k, 32, b, i);
                    }
                    if well_kept(dir0, img, area, fs.data_area_len(), fs.data_bitmap_start()) && self.block() < area {
                        assert(!is_data_block(dir0, img, self.block()));
                        assert(block_at(img2, self.block()) == block_at(img, self.block()));
                        let c = content(dir0, img);
                        let c2 = content(dir0, img2);
                        let w = file_bytes(dir0, img, dir0.alloc_size as int);
                        let w2 = file_bytes(dir0, img2, dir0.alloc_size as int);
                        assert(bytes@.subrange(0, 32) =~= bytes@);
                        assert(w2 == splice(w, 32 * k, bytes@));
                        assert forall|i: int| 0 <= i < dir0.size implies #[trigger] c2[i] == w2[i] && c[i] == w[i] by {}
                        assert forall|k2: int| 0 <= k2 < entry_count(dir0) && k2 != k implies {
                            &&& #[trigger] entry_name(dir0, img2, k2) == entry_name(dir0, img, k2)
                            &&& entry_id(dir0, img2, k2) == entry_id(dir0, img, k2)
                        } by {
                            assert(c2.subrange(32 * k2, 32 * k2 + 28) =~= c.subrange(32 * k2, 32 * k2 + 28));
                            assert(c2.subrange(32 * k2 + 28, 32 * k2 + 32) =~= c.subrange(32 * k2 + 28, 32 * k2 + 32));
                        }
                        assert(c2.subrange(32 * k, 32 * k + 28) =~= e.raw_name());
                        assert(c2.subrange(32 * k + 28, 32 * k + 32) =~= crate::bytes::u32_le(e.id_spec()));
                        crate::bytes::lemma_le_u32_round_trip(e.id_spec());
                    }
                }
            },
            None => {},
        }
    }

    /// Removes entry `file_name` from directory `parent`: the entries after
    /// it move one slot forward, the last slot is zeroed, the size shrinks by
    /// one entry, and the cache is flushed. The inode the entry named is not
    /// touched. Nothing changes when `parent` has no such entry or its stored
    /// inode is malformed.
    #[verifier::rlimit(100)]
    #[verifier::spinoff_prover]
    pub fn rm_dir_entry<D: BlockDevice>(&self, fs: &mut FileSystem<D>, file_name: &str, parent: &Inode)
        requires
            old(fs).wf(),
            parent.valid_in(old(fs)),
        ensures
            final(fs).wf(),
            final(fs).same_layout(old(fs)),
            ({
                let dir = parent.disk(old(fs).view());
                let img = old(fs).view();
                let img2 = final(fs).view();
                let dir2 = parent.disk(img2);
                &&& (!sane(dir) || !has_entry(dir, img, file_name.spec_bytes())) ==> img2 == img
                &&& (sane(dir) && has_entry(dir, img, file_name.spec_bytes())) ==> {
                    &&& dir2.size == (entry_count(dir) - 1) * 32
                    &&& dir2.alloc_size == dir.alloc_size
                    &&& dir2.type_ == dir.type_
                    &&& final(fs).synced()
                }
                &&& (sane(dir) && has_entry(dir, img, file_name.spec_bytes()) && well_kept(
                    dir,
                    img,
                    old(fs).data_area_start(),
                    old(fs).data_area_len(),
                    old(fs).data_bitmap_start(),
                ) && parent.block() < old(fs).data_area_start()) ==> exists|p: int| {
                    &&& first_entry(dir, img, file_name.spec_bytes(), p)
                    &&& forall|k: int| 0 <= k < p ==> #[trigger] entry_at(dir2, img2, k) == entry_at(dir, img, k)
                    &&& forall|k: int| p <= k < entry_count(dir) - 1 ==> #[trigger] entry_at(dir2, img2, k) == entry_at(dir, img, k + 1)
                    &&& file_bytes(dir2, img2, dir2.alloc_size as int).subrange(
                        (entry_count(dir) - 1) * 32,
                        entry_count(dir) * 32,
                    ) == Seq::new(32, |i: int| 0u8)
                    &&& forall|b: int, i: int|
                        0 <= i < BLOCK_SIZE && #[trigger] block_at(img2, b)[i] != block_at(img, b)[i] ==> {
                            ||| b == parent.block() && parent.offset() <= i < parent.offset() + 128
                            ||| is_data_block(dir, img, b)
                        }
                }
            }),
    {
        let ghost img = fs.view();
        let ghost area = fs.data_area_start();
        let ghost len = fs.data_area_len();
        let ghost bm = fs.data_bitmap_start();
        let pos = match parent.dir_entry_pos(fs, file_name) {
            Some(p) => p,
            None => {
                return;
            },
        };
        let mut dir = parent.read_disk_inode(fs);
        let ghost dir0 = dir;
        let ghost kept = well_kept(dir0, img, area, len, bm) && parent.block() < area;
        let count = (dir.size as usize) / DIRENT_SIZE;
        let mut moved: Vec<DirEntry> = Vec::new();
        let mut i: usize = pos + 1;
        while i < count
            invariant
                pos < count,
                pos + 1 <= i <= count,
                moved@.len() == i - pos - 1,
                dir == parent.disk(old(fs).view()),
                dir == dir0,
                img == old(fs).view(),
                fs.view() == img,
                count == entry_count(dir),
                sane(dir),
                fs.wf(),
                fs.same_layout(old(fs)),
                parent.valid_in(old(fs)),
                forall|t: int| 0 <= t < moved@.len() ==> (#[trigger] moved@[t]).name_spec() == entry_name(dir0, img, pos + 1 + t)
                    && moved@[t].id_spec() == entry_id(dir0, img, pos + 1 + t),
            decreases count - i,
        {
            moved.push(Self::read_entry(fs, &dir, i));
            i += 1;
        }
        let mut j: usize = 0;
        while j < moved.len()
            invariant
                j <= moved@.len(),
                pos + moved@.len() + 1 == count,
                pos < count,
                dir == parent.disk(old(fs).view()),
                dir == dir0,
                img == old(fs).view(),
                count == entry_count(dir),
                sane(dir),
                fs.wf(),
                fs.same_layout(old(fs)),
                parent.valid_in(old(fs)),
                forall|t: int| 0 <= t < moved@.len() ==> (#[trigger] moved@[t]).name_spec() == entry_name(dir0, img, pos + 1 + t)
                    && moved@[t].id_spec() == entry_id(dir0, img, pos + 1 + t),
                kept ==> {
                    &&& mapping_ok(dir0, fs.view())
                    &&& in_area(dir0, fs.view(), area, len)
                    &&& forall|jj: int|
                        0 <= jj < crate::disk_inode::data_blocks_for(dir0.alloc_size as int) ==> #[trigger] block_id_of(dir0, fs.view(), jj)
                            == block_id_of(dir0, img, jj)
                    &&& forall|b: int, i: int|
                        0 <= i < BLOCK_SIZE && #[trigger] block_at(fs.view(), b)[i] != block_at(img, b)[i] ==> is_data_block(dir0, img, b)
                    &&& forall|k: int| 0 <= k < pos ==> #[trigger] entry_at(dir0, fs.view(), k) == entry_at(dir0, img, k)
                    &&& forall|k: int| pos <= k < pos + j ==> #[trigger] entry_at(dir0, fs.view(), k) == entry_at(dir0, img, k + 1)
                },
            decreases moved@.len() - j,
        {
            let bytes = moved[j].as_bytes();
            proof {
                fs.lemma_cache_wf();
            }
            let ghost f1 = *fs;
            let ghost v1 = fs.view();
            dir.write_at((pos + j) * DIRENT_SIZE, bytes.as_slice(), &mut fs.cache);
            proof {
                f1.lemma_keep_wf(fs);
                if kept {
                    lemma_entry_write_effect(dir0, v1, fs.view(), (pos + j) as int, moved@[j as int].raw_name(), moved@[j as int].id_spec(), bytes@, area, len);
                    assert(entry_at(dir0, fs.view(), pos + j) == entry_at(dir0, img, pos + j + 1));
                    lemma_data_step(dir0, img, v1, fs.view(), ((pos + j) * 32) as int, 32);
                }
            }
            j += 1;
        }
        let empty_entry = DirEntry::create_empty();
        let empty = empty_entry.as_bytes();
        proof {
            fs.lemma_cache_wf();
        }
        let ghost f2 = *fs;
        let ghost v2 = fs.view();
        dir.write_at((count - 1) * DIRENT_SIZE, empty.as_slice(), &mut fs.cache);
        let ghost v3 = fs.view();
        proof {
            f2.lemma_keep_wf(fs);
            fs.lemma_wf();
            if kept {
                lemma_entry_write_effect(dir0, v2, v3, (count - 1) as int, empty_entry.raw_name(), empty_entry.id_spec(), empty@, area, len);
                lemma_data_step(dir0, img, v2, v3, ((count - 1) * 32) as int, 32);
            }
        }
        dir.size = ((count - 1) * DIRENT_SIZE) as u32;
        let ghost dir2 = dir;
        parent.write_disk_inode(fs, &dir);
        let ghost v4 = fs.view();
        fs.sync_all();
        proof {
            fs.lemma_wf();
            if kept {
                assert forall|b: int| b >= area implies #[trigger] block_at(v4, b) == block_at(v3, b) by {
                    let bytes4 = choose|bytes: Seq<u8>| bytes.len() == 128 && inode_in(bytes) == dir2 && v4 == write_in_block(v3, parent.block(), parent.offset(), bytes);
                    assert(b != parent.block());
                }
                assert(in_area(dir2, v3, area, len)) by {
                    assert forall|b: int| #[trigger] is_data_block(dir2, v3, b) implies area <= b < area + len by {
                        let jj = choose|jj: int| 0 <= jj < crate::disk_inode::data_blocks_for(dir2.alloc_size as int) && b == #[trigger] block_id_of(dir2, v3, jj);
                        assert(block_id_of(dir0, v3, jj) == b);
                        assert(is_data_block(dir0, v3, b));
                    }
                    assert forall|b: int| #[trigger] is_index_block(dir2, v3, b) implies area <= b < area + len by {
                        let d2 = crate::disk_inode::data_blocks_for(dir2.alloc_size as int);
                        if b != dir2.indirect1 && b != dir2.indirect2 {
                            let a = choose|a: int| 0 <= a < crate::disk_inode::sub_tables_for(d2) && b == #[trigger] crate::disk_inode::sub_table(dir2, v3, a);
                            assert(crate::disk_inode::sub_table(dir0, v3, a) == b);
                        }
                        assert(is_index_block(dir0, v3, b));
                    }
                }
                lemma_bytes_frame(dir2, v3, v4, area, len, dir2.size as int);
                let c2 = content(dir2, v4);
                let c3 = content(dir0, v3);
                assert forall|i: int| 0 <= i < dir2.size implies #[trigger] c2[i] == c3[i] by {
                    assert(c2[i] == file_bytes(dir2, v3, dir2.size as int)[i]);
                }
                assert forall|k: int| 0 <= k < count - 1 implies #[trigger] entry_at(dir2, v4, k) == entry_at(dir0, v3, k) by {
                    assert(c2.subrange(32 * k, 32 * k + 28) =~= c3.subrange(32 * k, 32 * k + 28));
                    assert(c2.subrange(32 * k + 28, 32 * k + 32) =~= c3.subrange(32 * k + 28, 32 * k + 32));
                }
                assert(first_entry(dir0, img, file_name.spec_bytes(), pos as int));
                let last = (count - 1) * 32;
                assert(empty@ =~= Seq::new(32, |i: int| 0u8));
                assert(content(dir0, v3).subrange(last, last + 32) == empty@);
                lemma_same_blocks(dir0, dir2, v3, area, len, bm);
                lemma_bytes_frame(dir2, v3, v4, area, len, dir2.alloc_size as int);
                let f4 = file_bytes(dir2, v4, dir2.alloc_size as int);
                let f3 = file_bytes(dir0, v3, dir0.alloc_size as int);
                assert forall|t: int| 0 <= t < 32 implies #[trigger] f4[last + t] == 0u8 by {
                    assert(f4[last + t] == f3[last + t]);
                    assert(f3[last + t] == content(dir0, v3)[last + t]);
                    assert(content(dir0, v3).subrange(last, last + 32)[t] == empty@[t]);
                }
                assert(f4.subrange(last, last + 32) =~= Seq::new(32, |i: int| 0u8));
                let bytes4 = choose|bytes: Seq<u8>| bytes.len() == 128 && inode_in(bytes) == dir2 && v4 == write_in_block(v3, parent.block(), parent.offset(), bytes);
                assert forall|b: int, i: int| 0 <= i < BLOCK_SIZE && #[trigger] block_at(v4, b)[i] != block_at(img, b)[i] implies {
                    ||| b == parent.block() && parent.offset() <= i < parent.offset() + 128
                    ||| is_data_block(dir0, img, b)
                } by {
                    if !(b == parent.block() && parent.offset() <= i < parent.offset() + 128) {
                        assert(image_wf(v3));
                        assert(block_at(v4, b)[i] == block_at(v3, b)[i]);
                    }
                }
            }
        }
    }
}

/// The name and inode number of entry `k` of directory `dir`.
pub open spec fn entry_at(dir: DiskInode, img: Seq<Seq<u8>>, k: int) -> (Seq<u8>, int) {
    (entry_name(dir, img, k), entry_id(dir, img, k))
}

/// Writing one entry over slot `slot` of a directory whose blocks are in
/// order changes that entry and no other.
proof fn lemma_entry_write_effect(
    dir: DiskInode,
    v: Seq<Seq<u8>>,
    v2: Seq<Seq<u8>>,
    slot: int,
    raw: Seq<u8>,
    id: u32,
    bytes: Seq<u8>,
    area: int,
    len: int,
)
    requires
        mapping_ok(dir, v),
        in_area(dir, v, area, len),
        v2.len() == v.len(),
        sane(dir),
        0 <= slot < entry_count(dir),
        raw.len() == 28,
        bytes == crate::layout::dirent_bytes(raw, id),
        crate::disk_inode::written_at(dir, v, 32 * slot, bytes, 32, v2),
    ensures
        mapping_ok(dir, v2),
        in_area(dir, v2, area, len),
        forall|b: int| b < area ==> #[trigger] block_at(v2, b) == block_at(v, b),
        entry_at(dir, v2, slot) == (name_of(raw), id as int),
        content(dir, v2).subrange(32 * slot, 32 * slot + 32) == bytes,
        forall|k: int| 0 <= k < entry_count(dir) && k != slot ==> #[trigger] entry_at(dir, v2, k) == entry_at(dir, v, k),
{
    let d = crate::disk_inode::data_blocks_for(dir.alloc_size as int);
    assert forall|b: int| is_index_block(dir, v, b) implies #[trigger] block_at(v2, b) == block_at(v, b) by {
        if is_data_block(dir, v, b) {
            let j = choose|j: int| 0 <= j < d && b == #[trigger] block_id_of(dir, v, j);
            assert(!is_index_block(dir, v, block_id_of(dir, v, j)));
        }
    }
    crate::disk_inode::lemma_mapping_stable(dir, v, v2);
    assert forall|b: int| #[trigger] is_data_block(dir, v2, b) implies area <= b < area + len by {
        let j = choose|j: int| 0 <= j < d && b == #[trigger] block_id_of(dir, v2, j);
        assert(block_id_of(dir, v, j) == b);
        assert(is_data_block(dir, v, b));
    }
    assert forall|b: int| b < area implies #[trigger] block_at(v2, b) == block_at(v, b) by {
        assert(!is_data_block(dir, v, b));
    }
    let w = file_bytes(dir, v, dir.alloc_size as int);
    let w2 = file_bytes(dir, v2, dir.alloc_size as int);
    let c = content(dir, v);
    let c2 = content(dir, v2);
    assert(32 * slot + 32 <= dir.size);
    assert(bytes.subrange(0, 32) =~= bytes);
    assert(w2 == splice(w, 32 * slot, bytes));
    assert forall|i: int| 0 <= i < dir.size implies #[trigger] c2[i] == w2[i] && c[i] == w[i] by {}
    assert forall|k: int| 0 <= k < entry_count(dir) && k != slot implies #[trigger] entry_at(dir, v2, k) == entry_at(dir, v, k) by {
        assert(32 * k + 32 <= dir.size);
        assert(c2.subrange(32 * k, 32 * k + 28) =~= c.subrange(32 * k, 32 * k + 28));
        assert(c2.subrange(32 * k + 28, 32 * k + 32) =~= c.subrange(32 * k + 28, 32 * k + 32));
    }
    assert(c2.subrange(32 * slot, 32 * slot + 28) =~= raw);
    assert(c2.subrange(32 * slot + 28, 32 * slot + 32) =~= crate::bytes::u32_le(id));
    assert(c2.subrange(32 * slot, 32 * slot + 32) =~= bytes);
    crate::bytes::lemma_le_u32_round_trip(id);
}

/// The entry that `create` appends: after the directory has grown to
/// `dir1` over `view2`, the entry `bytes` has been written at its end, and
/// two inode slots before the data bitmap have been written, the directory
/// lists its old entries and then the new one, and its blocks stay in order.
proof fn lemma_create_entry(
    img: Seq<Seq<u8>>,
    view2: Seq<Seq<u8>>,
    view3: Seq<Seq<u8>>,
    view4: Seq<Seq<u8>>,
    view5: Seq<Seq<u8>>,
    dir0: DiskInode,
    dir1: DiskInode,
    dir2: DiskInode,
    bytes: Seq<u8>,
    raw: Seq<u8>,
    id: u32,
    sblk: int,
    soff: int,
    cblk: int,
    coff: int,
    bytes4: Seq<u8>,
    bytes5: Seq<u8>,
    area: int,
    len: int,
    bm: int,
)
    requires
        image_wf(view3),
        0 <= len <= (area - bm) * 4096,
        0 <= bm <= area,
        area + len <= view3.len(),
        view2.len() == view3.len(),
        sblk < bm,
        cblk < bm,
        0 <= soff,
        soff + 128 <= BLOCK_SIZE,
        0 <= coff,
        coff + 128 <= BLOCK_SIZE,
        bytes4.len() == 128,
        bytes5.len() == 128,
        view4 == write_in_block(view3, sblk, soff, bytes4),
        view5 == write_in_block(view4, cblk, coff, bytes5),
        well_kept(dir1, view2, area, len, bm),
        sane(dir0),
        dir0.type_ == DiskInodeType::Directory,
        dir1.type_ == dir0.type_,
        dir1.alloc_size >= dir0.size + 32,
        dir1.alloc_size <= MAX_FILE_SIZE,
        dir1.alloc_size >= dir0.alloc_size,
        file_bytes(dir1, view2, dir0.alloc_size as int) == file_bytes(dir0, img, dir0.alloc_size as int),
        crate::disk_inode::written_at(dir1, view2, (dir0.size / 32) * 32, bytes, 32, view3),
        forall|b: int| !is_data_block(dir1, view2, b) ==> #[trigger] block_at(view3, b) == block_at(view2, b),
        dir2.size == dir0.size + 32,
        dir2.alloc_size == dir1.alloc_size,
        dir2.direct == dir1.direct,
        dir2.indirect1 == dir1.indirect1,
        dir2.indirect2 == dir1.indirect2,
        dir2.type_ == dir1.type_,
        raw.len() == 28,
        bytes == crate::layout::dirent_bytes(raw, id),
    ensures
        entry_added(dir0, img, dir2, view5, name_of(raw), id as int),
        well_kept(dir2, view5, area, len, bm),
{
    let count = dir0.size / 32;
    let nb = count * 32;
    let new_size = dir2.size as int;
    lemma_well_kept_write(dir1, view2, view3, area, len, bm);
    lemma_same_blocks(dir1, dir2, view3, area, len, bm);
    assert forall|b: int| b >= bm implies #[trigger] block_at(view4, b) == block_at(view3, b) by {
        assert(b != sblk);
    }
    lemma_well_kept_frame(dir2, view3, view4, area, len, bm);
    lemma_bytes_frame(dir2, view3, view4, area, len, new_size);
    crate::block_cache::lemma_write_keeps_wf(view3, sblk, soff, bytes4);
    assert forall|b: int| b >= bm implies #[trigger] block_at(view5, b) == block_at(view4, b) by {
        assert(b != cblk);
    }
    lemma_well_kept_frame(dir2, view4, view5, area, len, bm);
    lemma_bytes_frame(dir2, view4, view5, area, len, new_size);
    let c5 = content(dir2, view5);
    let w3 = file_bytes(dir1, view3, dir1.alloc_size as int);
    let w2 = file_bytes(dir1, view2, dir1.alloc_size as int);
    assert(bytes.subrange(0, 32) =~= bytes);
    assert(w3 == splice(w2, nb, bytes));
    assert forall|i: int| 0 <= i < new_size implies #[trigger] c5[i] == w3[i] by {
        assert(c5[i] == file_bytes(dir2, view3, new_size)[i]);
    }
    assert forall|i: int| 0 <= i < nb implies #[trigger] c5[i] == content(dir0, img)[i] by {
        assert(w3[i] == w2[i]);
        assert(w2[i] == file_bytes(dir1, view2, dir0.alloc_size as int)[i]);
        assert(file_bytes(dir0, img, dir0.alloc_size as int)[i] == content(dir0, img)[i]);
    }
    assert forall|t: int| 0 <= t < 32 implies #[trigger] c5[nb + t] == bytes[t] by {
        assert(w3[nb + t] == bytes[t]);
    }
    assert forall|k: int| 0 <= k < count implies #[trigger] entry_name(dir2, view5, k) == entry_name(dir0, img, k) by {
        assert(c5.subrange(32 * k, 32 * k + 28) =~= content(dir0, img).subrange(32 * k, 32 * k + 28));
    }
    assert(c5.subrange(nb, nb + 28) =~= raw);
    assert(c5.subrange(nb + 28, nb + 32) =~= crate::bytes::u32_le(id));
    crate::bytes::lemma_le_u32_round_trip(id);
}

/// What `create` leaves outside the new entry: the steps it takes change
/// the inode bitmap at the new number only, set data bitmap bits only for
/// the blocks the directory takes, and change no byte but those of the two
/// inode slots, of the bitmap blocks involved, and of the directory's
/// blocks.
proof fn lemma_create_frame(
    img: Seq<Seq<u8>>,
    view1: Seq<Seq<u8>>,
    view2: Seq<Seq<u8>>,
    view3: Seq<Seq<u8>>,
    view4: Seq<Seq<u8>>,
    view5: Seq<Seq<u8>>,
    dir0: DiskInode,
    dir1: DiskInode,
    dir2: DiskInode,
    id: int,
    sblk: int,
    soff: int,
    cblk: int,
    coff: int,
    bytes4: Seq<u8>,
    bytes5: Seq<u8>,
    ilo: int,
    max_inodes: int,
    area: int,
    len: int,
    bm: int,
    grown: bool,
)
    requires
        image_wf(img),
        0 <= id < max_inodes,
        1 <= ilo,
        max_inodes <= (ilo - 1) * 4096,
        ilo <= sblk < bm,
        ilo <= cblk < bm,
        0 <= soff,
        soff + 128 <= BLOCK_SIZE,
        0 <= coff,
        coff + 128 <= BLOCK_SIZE,
        bytes4.len() == 128,
        bytes5.len() == 128,
        bm <= area,
        0 <= len <= (area - bm) * 4096,
        area + len <= img.len(),
        view1 == crate::bitmap::with_bit(img, 1, id, true),
        view2.len() == img.len(),
        view3.len() == img.len(),
        image_wf(view3),
        well_kept(dir1, view2, area, len, bm),
        grown ==> {
            &&& forall|b: int| #[trigger] block_at(view2, b) != block_at(view1, b) ==> (bm <= b < area) || is_index_block(dir1, view2, b)
            &&& forall|k: int| 0 <= k < len && #[trigger] bit_set(view2, bm, k) != bit_set(view1, bm, k) ==> !bit_set(view1, bm, k)
            &&& free_bits(view2, bm, len) == free_bits(view1, bm, len) - (total_blocks_for(dir1.alloc_size as int) - total_blocks_for(dir0.alloc_size as int))
        },
        !grown ==> view2 == view1 && dir1 == dir0,
        forall|b: int| !is_data_block(dir1, view2, b) ==> #[trigger] block_at(view3, b) == block_at(view2, b),
        view4 == write_in_block(view3, sblk, soff, bytes4),
        view5 == write_in_block(view4, cblk, coff, bytes5),
        dir2.alloc_size == dir1.alloc_size,
        dir2.direct == dir1.direct,
        dir2.indirect1 == dir1.indirect1,
        dir2.indirect2 == dir1.indirect2,
    ensures
        forall|k: int| 0 <= k < max_inodes && k != id ==> #[trigger] bit_set(view5, 1, k) == bit_set(img, 1, k),
        forall|k: int| 0 <= k < len && #[trigger] bit_set(view5, bm, k) != bit_set(img, bm, k) ==> !bit_set(img, bm, k),
        free_bits(view5, bm, len) == free_bits(img, bm, len) - (total_blocks_for(dir2.alloc_size as int) - total_blocks_for(dir0.alloc_size as int)),
        forall|b: int, i: int|
            0 <= i < BLOCK_SIZE && #[trigger] block_at(view5, b)[i] != block_at(img, b)[i] ==> {
                ||| b == sblk && soff <= i < soff + 128
                ||| b == cblk && coff <= i < coff + 128
                ||| b == 1 + id / 4096
                ||| bm <= b < area
                ||| is_data_block(dir2, view5, b)
                ||| is_index_block(dir2, view5, b)
            },
{
    let ib = 1 + id / 4096;
    crate::efs::lemma_region_block(id, ilo - 1);
    assert(ib < img.len());
    crate::block_cache::lemma_write_keeps_wf(view3, sblk, soff, bytes4);
    crate::block_cache::lemma_write_keeps_wf(view4, cblk, coff, bytes5);
    lemma_well_kept_write(dir1, view2, view3, area, len, bm);
    lemma_same_blocks(dir1, dir2, view3, area, len, bm);
    assert forall|b: int| b >= area implies #[trigger] block_at(view5, b) == block_at(view3, b) by {
        assert(block_at(view5, b) == block_at(view4, b));
    }
    lemma_bytes_frame(dir2, view3, view5, area, len, 0);
    // blocks before the data area change only at the slots, the inode bitmap block and the data bitmap
    assert forall|b: int| b < area && b != sblk && b != cblk && !(bm <= b < area) implies #[trigger] block_at(view5, b) == block_at(view1, b) by {
        assert(block_at(view5, b) == block_at(view3, b));
        assert(block_at(view3, b) == block_at(view2, b));
        if grown && block_at(view2, b) != block_at(view1, b) {
            assert(is_index_block(dir1, view2, b));
        }
    }
    assert forall|k: int| 0 <= k < max_inodes && k != id implies #[trigger] bit_set(view5, 1, k) == bit_set(img, 1, k) by {
        crate::efs::lemma_region_block(k, ilo - 1);
        assert(block_at(view5, 1 + k / 4096) == block_at(view1, 1 + k / 4096));
        crate::bitmap::lemma_with_bit(img, 1, id, true, k);
    }
    assert forall|k: int| 0 <= k < len implies #[trigger] block_at(view5, bm + k / 4096) == block_at(view2, bm + k / 4096)
        && block_at(view1, bm + k / 4096) == block_at(img, bm + k / 4096) by {
        crate::efs::lemma_region_block(k, area - bm);
        assert(block_at(view5, bm + k / 4096) == block_at(view3, bm + k / 4096));
        assert(block_at(view3, bm + k / 4096) == block_at(view2, bm + k / 4096));
    }
    crate::bitmap::lemma_free_bits_frame(view2, view5, bm, len);
    crate::bitmap::lemma_free_bits_frame(img, view1, bm, len);
    assert forall|k: int| 0 <= k < len && #[trigger] bit_set(view5, bm, k) != bit_set(img, bm, k) implies !bit_set(img, bm, k) by {
        assert(block_at(view5, bm + k / 4096) == block_at(view2, bm + k / 4096));
        assert(block_at(view1, bm + k / 4096) == block_at(img, bm + k / 4096));
        assert(bit_set(view5, bm, k) == bit_set(view2, bm, k));
        assert(bit_set(view1, bm, k) == bit_set(img, bm, k));
    }
    assert forall|b: int, i: int|
        0 <= i < BLOCK_SIZE && #[trigger] block_at(view5, b)[i] != block_at(img, b)[i] implies {
            ||| b == sblk && soff <= i < soff + 128
            ||| b == cblk && coff <= i < coff + 128
            ||| b == ib
            ||| bm <= b < area
            ||| is_data_block(dir2, view5, b)
            ||| is_index_block(dir2, view5, b)
        } by {
        if !(b == sblk && soff <= i < soff + 128) && !(b == cblk && coff <= i < coff + 128) && b != ib && !(bm <= b < area) {
            assert(block_at(view5, b)[i] == block_at(view4, b)[i]);
            assert(block_at(view4, b)[i] == block_at(view3, b)[i]);
            assert(block_at(view1, b) == block_at(img, b));
            if block_at(view3, b) != block_at(view2, b) {
                assert(is_data_block(dir1, view2, b));
                assert(is_data_block(dir1, view3, b));
            } else if block_at(view2, b) != block_at(view1, b) {
                assert(grown);
                assert(is_index_block(dir1, view2, b));
                assert(is_index_block(dir1, view3, b));
            } else {
                assert(false);
            }
        }
    }
}

/// An inode with nothing allocated, such as the root right after
/// formatting or a file right after `clear`, has its blocks in order.
pub proof fn lemma_empty_well_kept(ino: DiskInode, img: Seq<Seq<u8>>, area: int, len: int, bm: int)
    requires
        ino.alloc_size == 0,
    ensures
        well_kept(ino, img, area, len, bm),
{
    assert(crate::disk_inode::data_blocks_for(0) == 0);
    assert forall|b: int| !#[trigger] is_data_block(ino, img, b) by {}
    assert forall|b: int| !#[trigger] is_index_block(ino, img, b) by {}
}

/// Looking up a name just added to a directory finds the inode it was
/// added for: when `dir2` is `dir` with an entry for `name` and inode `id`
/// appended, and `dir` had no entry of that name, looking `name` up in
/// `dir2` gives the handle on inode `id`.
pub proof fn lemma_create_then_find(
    dir: DiskInode,
    img: Seq<Seq<u8>>,
    dir2: DiskInode,
    img2: Seq<Seq<u8>>,
    name: Seq<u8>,
    id: int,
    max_inodes: int,
    inode_area: int,
    found: Option<Inode>,
)
    requires
        !has_entry(dir, img, name),
        entry_added(dir, img, dir2, img2, name, id),
        0 <= id < max_inodes,
        find_result(dir2, img2, name, max_inodes, inode_area, found),
    ensures
        found matches Some(f) && f.block() == inode_area + id / 4 && f.offset() == (id % 4) * 128,
{
    let n = entry_count(dir);
    assert forall|k2: int| 0 <= k2 < n implies #[trigger] entry_name(dir2, img2, k2) != name by {
        assert(entry_name(dir2, img2, k2) == entry_name(dir, img, k2));
    }
    assert(first_entry(dir2, img2, name, n));
    match found {
        Some(f) => {
            let k = choose|k: int| {
                &&& first_entry(dir2, img2, name, k)
                &&& f.block() == inode_area + entry_id(dir2, img2, k) / 4
                &&& f.offset() == (entry_id(dir2, img2, k) % 4) * 128
            };
            if k < n {
                assert(entry_name(dir2, img2, k) != name);
            } else if k > n {
                assert(entry_name(dir2, img2, n) != name);
            }
        },
        None => {},
    }
}

} // verus!
