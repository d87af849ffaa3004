//! The file system as a whole: where each region of the image lies, the
//! allocation of inodes and data blocks, and formatting and opening an
//! image.

use vstd::prelude::*;

use crate::bitmap::{alloc_result, bit_set, free_bits, with_bit, Bitmap};
use crate::block_cache::{block_at, write_in_block, BlockCacheManager};
use crate::block_dev::{image_wf, zero_block, BlockDevice};
use crate::bytes::splice;
use crate::disk_inode::{inode_in, DiskInode, DiskInodeType};
use crate::layout::{word, zeros, SuperBlock};
use crate::{BLOCK_BITS, BLOCK_SIZE, DISK_INODE_SIZE, EASY_FS_MAGIC};

verus! {

/// Blocks of inode table for a bitmap of `ibm` blocks: one 128-byte inode
/// per bit, four to a block.
pub open spec fn inode_area_blocks_for(ibm: int) -> int {
    (ibm * 4096 * 128 + 511) / 512
}

/// Blocks of data bitmap for `rest` blocks left after the inode regions:
/// the least `x` with `rest - x <= 4096 * x`.
pub open spec fn data_bitmap_blocks_for(rest: int) -> int {
    (rest + 4096) / 4097
}

/// The region sizes that formatting `total` blocks with an inode bitmap of
/// `ibm` blocks gives, in the order of the super block: inode bitmap, inode
/// area, data bitmap, data area.
pub open spec fn layout_for(total: int, ibm: int) -> (int, int, int, int) {
    let ia = inode_area_blocks_for(ibm);
    let rest = total - 1 - ibm - ia;
    let dbm = data_bitmap_blocks_for(rest);
    (ibm, ia, dbm, rest - dbm)
}

/// Whether `sb_block` is a super block whose regions fit in `n` blocks:
/// the magic number is right, the inode area has room for every inode the
/// inode bitmap numbers, and the regions end within the device.
pub open spec fn super_block_ok(sb_block: Seq<u8>, n: int) -> bool {
    &&& word(sb_block, 0) == EASY_FS_MAGIC
    &&& word(sb_block, 2) >= 1
    &&& word(sb_block, 3) >= word(sb_block, 2) * 1024
    &&& 1 + word(sb_block, 2) + word(sb_block, 3) + word(sb_block, 4) + word(sb_block, 5) <= n
    &&& 1 + word(sb_block, 2) + word(sb_block, 3) + word(sb_block, 4) + word(sb_block, 5) <= u32::MAX
    &&& word(sb_block, 2) * 4096 <= u32::MAX
    &&& word(sb_block, 4) * 4096 <= u32::MAX
    &&& word(sb_block, 5) <= word(sb_block, 4) * 4096
}

/// `o` with its value widened.
pub open spec fn opt_usize(o: Option<u32>) -> Option<usize> {
    match o {
        Some(k) => Some(k as usize),
        None => None,
    }
}

/// The inode stored at byte `off` of block `blk`.
pub open spec fn stored_inode(img: Seq<Seq<u8>>, blk: int, off: int) -> DiskInode {
    inode_in(block_at(img, blk).subrange(off, off + 128))
}

/// A mounted image: the block cache in front of its device and where its
/// regions lie.
pub struct FileSystem<D: BlockDevice> {
    pub cache: BlockCacheManager<D>,
    pub inode_bitmap: Bitmap,
    pub data_bitmap: Bitmap,
    pub inode_area_start_block: u32,
    pub data_area_start_block: u32,
    pub data_area_blocks: u32,
}

impl<D: BlockDevice> FileSystem<D> {
    /// The image as the file system sees it.
    pub open spec fn view(&self) -> Seq<Seq<u8>> {
        self.cache.view()
    }

    /// What the device itself holds.
    pub closed spec fn device_image(&self) -> Seq<Seq<u8>> {
        self.cache.device_image()
    }

    /// Every change is on the device.
    pub closed spec fn synced(&self) -> bool {
        self.cache.all_clean()
    }

    /// First block of the inode table.
    pub open spec fn inode_area_start(&self) -> int {
        self.inode_area_start_block as int
    }

    /// First block of the data area.
    pub open spec fn data_area_start(&self) -> int {
        self.data_area_start_block as int
    }

    /// Number of blocks of the data area.
    pub open spec fn data_area_len(&self) -> int {
        self.data_area_blocks as int
    }

    /// Number of inodes the inode bitmap can number.
    pub open spec fn max_inodes(&self) -> int {
        self.inode_bitmap.max_bits() as int
    }

    /// First block of the data bitmap.
    pub open spec fn data_bitmap_start(&self) -> int {
        self.data_bitmap.start() as int
    }

    /// Number of bits of the data bitmap.
    pub open spec fn data_bitmap_bits(&self) -> int {
        self.data_bitmap.max_bits() as int
    }

    /// Both describe the same regions.
    pub open spec fn same_layout(&self, other: &Self) -> bool {
        &&& self.inode_bitmap == other.inode_bitmap
        &&& self.data_bitmap == other.data_bitmap
        &&& self.inode_area_start_block == other.inode_area_start_block
        &&& self.data_area_start_block == other.data_area_start_block
        &&& self.data_area_blocks == other.data_area_blocks
        &&& self.view().len() == other.view().len()
    }

    /// The cache is well formed and the regions follow one another as the
    /// super block lays them out, within the image.
    pub closed spec fn wf(&self) -> bool {
        &&& self.cache.wf()
        &&& self.inode_bitmap.start() == 1
        &&& self.inode_bitmap.blocks() >= 1
        &&& self.inode_area_start_block == 1 + self.inode_bitmap.blocks()
        &&& self.inode_area_start_block + self.inode_bitmap.blocks() * 1024 <= self.data_bitmap.start()
        &&& self.data_area_start_block == self.data_bitmap.start() + self.data_bitmap.blocks()
        &&& self.data_area_start_block + self.data_area_blocks <= self.cache.view().len()
        &&& self.inode_bitmap.max_bits() <= u32::MAX
        &&& self.data_bitmap.max_bits() <= u32::MAX
        &&& self.data_area_start_block + self.data_area_blocks <= u32::MAX
        &&& self.data_area_blocks <= self.data_bitmap.max_bits()
    }

    /// What a well-formed file system tells about its regions.
    pub proof fn lemma_wf(&self)
        requires
            self.wf(),
        ensures
            image_wf(self.view()),
            self.data_area_start() + self.data_area_len() <= u32::MAX,
            1 + self.max_inodes() / 4096 == self.inode_area_start(),
            self.inode_area_start() + self.max_inodes() / 4 <= self.data_bitmap_start(),
            self.data_bitmap_start() <= self.data_area_start(),
            self.data_area_start() + self.data_area_len() <= self.view().len(),
            self.data_bitmap_start() + self.data_bitmap_bits() / 4096 == self.data_area_start(),
            self.max_inodes() <= u32::MAX,
            self.data_bitmap_bits() <= u32::MAX,
            self.data_area_len() <= self.data_bitmap_bits(),
            self.data_bitmap_bits() == (self.data_area_start() - self.data_bitmap_start()) * 4096,
            self.data_bitmap_start() >= 1,
    {
        self.cache.lemma_view_wf();
    }

    /// Formats the first `total_blocks` blocks of `device`: zeroes them,
    /// writes the super block, and makes inode 0 an empty directory, the
    /// root. Everything is written through to the device.
    pub fn create(device: D, total_blocks: u32, inode_bitmap_blocks: u32) -> (fs: Self)
        requires
            image_wf(device.image()),
            total_blocks <= device.image().len(),
            inode_bitmap_blocks >= 1,
            inode_bitmap_blocks * 4096 <= u32::MAX,
            1 + inode_bitmap_blocks + inode_area_blocks_for(inode_bitmap_blocks as int)
                <= total_blocks,
        ensures
            fs.wf(),
            fs.synced(),
            fs.device_image() == fs.view(),
            fs.view().len() == device.image().len(),
            ({
                let sb = fs.view()[0];
                let (ibm, ia, dbm, da) = layout_for(total_blocks as int, inode_bitmap_blocks as int);
                &&& word(sb, 0) == EASY_FS_MAGIC
                &&& word(sb, 1) == total_blocks
                &&& word(sb, 2) == ibm
                &&& word(sb, 3) == ia
                &&& word(sb, 4) == dbm
                &&& word(sb, 5) == da
                &&& 1 + ibm + ia + dbm + da == total_blocks
            }),
            fs.inode_area_start() == 1 + inode_bitmap_blocks,
            ({
                let (ibm, ia, dbm, da) = layout_for(total_blocks as int, inode_bitmap_blocks as int);
                &&& fs.max_inodes() == ibm * 4096
                &&& fs.data_bitmap_start() == 1 + ibm + ia
                &&& fs.data_bitmap_bits() == dbm * 4096
                &&& fs.data_area_start() == 1 + ibm + ia + dbm
                &&& fs.data_area_len() == da
            }),
            bit_set(fs.view(), 1, 0),
            forall|k: int| 1 <= k < fs.max_inodes() ==> !#[trigger] bit_set(fs.view(), 1, k),
            forall|k: int| 0 <= k < fs.data_bitmap_bits() ==> !#[trigger] bit_set(fs.view(), fs.data_bitmap_start(), k),
            stored_inode(fs.view(), 1 + inode_bitmap_blocks, 0).size == 0,
            stored_inode(fs.view(), 1 + inode_bitmap_blocks, 0).alloc_size == 0,
            stored_inode(fs.view(), 1 + inode_bitmap_blocks, 0).type_ == DiskInodeType::Directory,
            stored_inode(fs.view(), 1 + inode_bitmap_blocks, 0).direct@ == Seq::new(28, |i: int| 0u32),
            stored_inode(fs.view(), 1 + inode_bitmap_blocks, 0).indirect1 == 0,
            stored_inode(fs.view(), 1 + inode_bitmap_blocks, 0).indirect2 == 0,
            fs.view()[1] == zero_block().update(0, 1u8),
            forall|i: int| 128 <= i < BLOCK_SIZE ==> #[trigger] fs.view()[1 + inode_bitmap_blocks][i] == 0,
            forall|b: int| 2 <= b < total_blocks && b != 1 + inode_bitmap_blocks ==> #[trigger] fs.view()[b] == zero_block(),
    {
        let ghost ibm = inode_bitmap_blocks as int;
        let (_, inode_area_blocks, data_bitmap_blocks, data_area_blocks) = compute_layout(total_blocks, inode_bitmap_blocks);
        let inode_bitmap = Bitmap::new(1, inode_bitmap_blocks as usize);
        let data_bitmap = Bitmap::new((1 + inode_bitmap_blocks + inode_area_blocks) as usize, data_bitmap_blocks as usize);
        let mut cache = BlockCacheManager::new(device);
        zero_blocks(&mut cache, total_blocks);
        let ghost zeroed = cache.view();
        let mut sb = SuperBlock::empty();
        sb.initialize(total_blocks, inode_bitmap_blocks, inode_area_blocks, data_bitmap_blocks, data_area_blocks);
        let sb_bytes = sb.to_bytes();
        cache.write_bytes(0, 0, sb_bytes.as_slice());
        let ghost after_sb = cache.view();
        proof {
            cache.lemma_view_wf();
            assert(splice(zeroed[0], 0, sb_bytes@) =~= sb_bytes@);
            lemma_zero_bits(after_sb, 1, ibm);
        }
        let mut fs = FileSystem {
            cache,
            inode_bitmap,
            data_bitmap,
            inode_area_start_block: 1 + inode_bitmap_blocks,
            data_area_start_block: 1 + inode_bitmap_blocks + inode_area_blocks + data_bitmap_blocks,
            data_area_blocks,
        };
        let root = fs.inode_bitmap.alloc_bit(&mut fs.cache);
        proof {
            match root {
                Some(k) => {
                    if k > 0 {
                        assert(bit_set(after_sb, 1, 0));
                    }
                },
                None => {
                    assert(bit_set(after_sb, 1, 0));
                },
            }
        }
        let ghost after_alloc = fs.cache.view();
        let root_bytes = DiskInode::new(DiskInodeType::Directory).to_bytes();
        let root_block = 1 + inode_bitmap_blocks;
        fs.cache.write_bytes(root_block as usize, 0, root_bytes.as_slice());
        fs.cache.sync_all();
        proof {
            let v = fs.cache.view();
            fs.cache.lemma_view_wf();
            assert(root == Some(0usize));
            assert(after_alloc == with_bit(after_sb, 1, 0, true));
            assert(v[0] == sb_bytes@);
            assert(block_at(v, root_block as int).subrange(0, 128) =~= root_bytes@);
            assert forall|k: int| 0 <= k < fs.inode_bitmap.max_bits() implies #[trigger] bit_set(v, 1, k) == (k == 0) by {
                crate::bitmap::lemma_with_bit(after_sb, 1, 0, true, k);
                lemma_region_block(k, ibm);
                assert(block_at(v, 1 + k / 4096) == block_at(after_alloc, 1 + k / 4096));
            }
            lemma_zero_bits(v, fs.data_bitmap.start() as int, data_bitmap_blocks as int);
            let rb = root_block as int;
            assert(after_sb[1] == zero_block());
            assert(block_at(after_sb, 1)[0] == 0u8);
            assert(0u8 | (1u8 << 0u8) == 1u8) by (bit_vector);
            assert(after_alloc[1] =~= zero_block().update(0, 1u8));
            assert(v[1] == after_alloc[1]);
            assert(after_alloc[rb] == zero_block());
            assert forall|i: int| 128 <= i < BLOCK_SIZE implies #[trigger] v[rb][i] == 0 by {}
            assert forall|b: int| 2 <= b < total_blocks && b != rb implies #[trigger] v[b] == zero_block() by {
                assert(after_alloc[b] == after_sb[b]);
            }
        }
        fs
    }
}

impl<D: BlockDevice> FileSystem<D> {
    /// What `sync_all` leaves: the same image, all of it on the device, and
    /// no device write at all when everything was on the device already.
    pub open spec fn sync_all_post(before: &Self, after: &Self) -> bool {
        &&& after.wf()
        &&& after.view() == before.view()
        &&& after.synced()
        &&& after.device_image() == after.view()
        &&& before.synced() ==> after.device_image() == before.device_image()
    }

    /// Mounts the image on `device`: `None` unless block 0 holds a valid
    /// super block whose regions fit on the device.
    pub fn open(device: D) -> (r: Option<Self>)
        requires
            image_wf(device.image()),
        ensures
            r.is_some() == (device.image().len() > 0 && super_block_ok(device.image()[0], device.image().len() as int)),
            r matches Some(fs) ==> {
                &&& fs.wf()
                &&& fs.view() == device.image()
                &&& fs.inode_area_start() == 1 + word(device.image()[0], 2)
                &&& fs.data_area_start() == 1 + word(device.image()[0], 2) + word(device.image()[0], 3) + word(device.image()[0], 4)
                &&& fs.data_area_len() == word(device.image()[0], 5)
                &&& fs.max_inodes() == word(device.image()[0], 2) * 4096
                &&& fs.data_bitmap_start() == 1 + word(device.image()[0], 2) + word(device.image()[0], 3)
                &&& fs.data_bitmap_bits() == word(device.image()[0], 4) * 4096
            },
    {
        let ghost img = device.image();
        let mut cache = BlockCacheManager::new(device);
        let n = cache.num_blocks();
        if n == 0 {
            return None;
        }
        let b = cache.read_block(0);
        let sb = SuperBlock::from_bytes(b.as_slice());
        if !sb.is_valid() {
            return None;
        }
        let ibm = sb.inode_bitmap_blocks as u64;
        let ia = sb.inode_area_blocks as u64;
        let dbm = sb.data_bitmap_blocks as u64;
        let da = sb.data_area_blocks as u64;
        let end = 1 + ibm + ia + dbm + da;
        if ibm == 0 || ia < ibm * 1024 || end > n as u64 || end > u32::MAX as u64 || ibm * 4096 > u32::MAX as u64
            || dbm * 4096 > u32::MAX as u64 || da > dbm * 4096 {
            return None;
        }
        let fs = FileSystem {
            cache,
            inode_bitmap: Bitmap::new(1, ibm as usize),
            data_bitmap: Bitmap::new((1 + ibm + ia) as usize, dbm as usize),
            inode_area_start_block: (1 + ibm) as u32,
            data_area_start_block: (1 + ibm + ia + dbm) as u32,
            data_area_blocks: da as u32,
        };
        Some(fs)
    }

    /// The super block of the image.
    pub fn super_block(&mut self) -> (sb: SuperBlock)
        requires
            old(self).wf(),
        ensures
            final(self).wf(),
            final(self).view() == old(self).view(),
            sb.magic == word(block_at(old(self).view(), 0), 0),
            sb.total_blocks == word(block_at(old(self).view(), 0), 1),
            sb.inode_bitmap_blocks == word(block_at(old(self).view(), 0), 2),
            sb.inode_area_blocks == word(block_at(old(self).view(), 0), 3),
            sb.data_bitmap_blocks == word(block_at(old(self).view(), 0), 4),
            sb.data_area_blocks == word(block_at(old(self).view(), 0), 5),
    {
        let b = self.cache.read_block(0);
        SuperBlock::from_bytes(b.as_slice())
    }

    /// Where inode `inode_id` is stored: its block, and its byte offset in
    /// that block.
    pub fn get_disk_inode_pos(&self, inode_id: u32) -> (r: (u32, usize))
        requires
            self.wf(),
            inode_id < self.max_inodes(),
        ensures
            r.0 == self.inode_area_start() + inode_id / 4,
            r.1 == (inode_id % 4) * 128,
            r.0 < self.data_bitmap_start(),
            r.0 < self.data_area_start(),
    {
        proof {
            self.lemma_wf();
        }
        let inode_size = DISK_INODE_SIZE as u32;
        let inodes_per_block = (BLOCK_SIZE as u32) / inode_size;
        let block_id = self.inode_area_start_block + inode_id / inodes_per_block;
        (block_id, ((inode_id % inodes_per_block) as usize) * DISK_INODE_SIZE)
    }

    /// The block id of the `data_block_id`-th block of the data area.
    pub fn get_data_block_id(&self, data_block_id: u32) -> (r: u32)
        requires
            self.wf(),
            data_block_id < self.data_area_len(),
        ensures
            r == self.data_area_start() + data_block_id,
    {
        self.data_area_start_block + data_block_id
    }

    /// Takes the lowest free inode number; `None` when every one is taken.
    pub fn alloc_inode(&mut self) -> (r: Option<u32>)
        requires
            old(self).wf(),
        ensures
            final(self).wf(),
            final(self).same_layout(old(self)),
            alloc_result(old(self).view(), 1, old(self).max_inodes(), opt_usize(r), final(self).view()),
    {
        match self.inode_bitmap.alloc_bit(&mut self.cache) {
            Some(k) => Some(k as u32),
            None => None,
        }
    }

    /// Takes the lowest free block of the data area and returns its block
    /// id; `None`, with nothing changed, when the data area is full.
    pub fn alloc_data(&mut self) -> (r: Option<u32>)
        requires
            old(self).wf(),
        ensures
            final(self).wf(),
            final(self).same_layout(old(self)),
            match r {
                Some(id) => {
                    &&& old(self).data_area_start() <= id < old(self).data_area_start() + old(self).data_area_len()
                    &&& alloc_result(
                        old(self).view(),
                        old(self).data_bitmap_start(),
                        old(self).data_area_len(),
                        Some((id - old(self).data_area_start()) as usize),
                        final(self).view(),
                    )
                },
                None => alloc_result(
                    old(self).view(),
                    old(self).data_bitmap_start(),
                    old(self).data_area_len(),
                    None,
                    final(self).view(),
                ),
            },
    {
        proof {
            self.lemma_wf();
        }
        let ghost img = self.cache.view();
        let ghost dstart = self.data_bitmap.start() as int;
        let ghost da = self.data_area_blocks as int;
        match self.data_bitmap.alloc_bit(&mut self.cache) {
            Some(k) => {
                if k < self.data_area_blocks as usize {
                    Some(k as u32 + self.data_area_start_block)
                } else {
                    proof {
                        crate::bitmap::lemma_with_bit(img, dstart, k as int, true, k as int);
                    }
                    self.data_bitmap.dealloc(&mut self.cache, k);
                    proof {
                        crate::bitmap::lemma_set_then_clear(img, dstart, k as int);
                    }
                    None
                }
            },
            None => {
                None
            },
        }
    }
}

impl<D: BlockDevice> FileSystem<D> {
    /// The file system stays well formed when only its cache changes, as
    /// long as the cache stays well formed and the image keeps its length.
    pub proof fn lemma_keep_wf(&self, other: &Self)
        requires
            self.wf(),
            other.cache.wf(),
            other.cache.view().len() == self.cache.view().len(),
            other.inode_bitmap == self.inode_bitmap,
            other.data_bitmap == self.data_bitmap,
            other.inode_area_start_block == self.inode_area_start_block,
            other.data_area_start_block == self.data_area_start_block,
            other.data_area_blocks == self.data_area_blocks,
        ensures
            other.wf(),
            other.same_layout(self),
            other.max_inodes() == self.max_inodes(),
            other.data_area_start() == self.data_area_start(),
            other.data_area_len() == self.data_area_len(),
            other.inode_area_start() == self.inode_area_start(),
    {
    }

    /// A well-formed file system has an inode bitmap of at least one block.
    pub proof fn lemma_has_inodes(&self)
        requires
            self.wf(),
        ensures
            self.inode_bitmap.blocks() >= 1,
    {
    }

    /// A well-formed file system has a well-formed cache.
    pub proof fn lemma_cache_wf(&self)
        requires
            self.wf(),
        ensures
            self.cache.wf(),
    {
    }

    /// Zeroes block `block_id` of the data area and frees it.
    pub fn dealloc_data(&mut self, block_id: u32)
        requires
            old(self).wf(),
            old(self).data_area_start() <= block_id < old(self).data_area_start() + old(self).data_area_len(),
            bit_set(old(self).view(), old(self).data_bitmap_start(), block_id - old(self).data_area_start()),
        ensures
            final(self).wf(),
            final(self).same_layout(old(self)),
            final(self).view() == with_bit(
                write_in_block(old(self).view(), block_id as int, 0, zero_block()),
                old(self).data_bitmap_start(),
                block_id - old(self).data_area_start(),
                false,
            ),
    {
        proof {
            self.lemma_wf();
        }
        let ghost img = self.cache.view();
        let z = zeros(BLOCK_SIZE);
        self.cache.write_bytes(block_id as usize, 0, z.as_slice());
        let bit = (block_id - self.data_area_start_block) as usize;
        proof {
            let dstart = self.data_bitmap.start() as int;
            lemma_region_block(bit as int, self.data_bitmap.blocks() as int);
            assert(block_at(self.cache.view(), dstart + bit / 4096) == block_at(img, dstart + bit / 4096));
            assert(splice(block_at(img, block_id as int), 0, z@) =~= zero_block());
        }
        self.data_bitmap.dealloc(&mut self.cache, bit);
    }

    /// Zeroes the inode `inode_id` and frees its number.
    pub fn dealloc_inode(&mut self, inode_id: u32)
        requires
            old(self).wf(),
            inode_id < old(self).max_inodes(),
            bit_set(old(self).view(), 1, inode_id as int),
        ensures
            final(self).wf(),
            final(self).same_layout(old(self)),
            final(self).view() == with_bit(
                write_in_block(
                    old(self).view(),
                    old(self).inode_area_start() + inode_id / 4,
                    (inode_id % 4) * 128,
                    Seq::new(128, |i: int| 0u8),
                ),
                1,
                inode_id as int,
                false,
            ),
    {
        proof {
            self.lemma_wf();
        }
        let ghost img = self.cache.view();
        let (block_id, offset) = self.get_disk_inode_pos(inode_id);
        let z = zeros(DISK_INODE_SIZE);
        self.cache.write_bytes(block_id as usize, offset, z.as_slice());
        proof {
            lemma_region_block(inode_id as int, self.inode_bitmap.blocks() as int);
            assert(block_at(self.cache.view(), 1 + inode_id / 4096) == block_at(img, 1 + inode_id / 4096));
            assert(z@ =~= Seq::new(128, |i: int| 0u8));
        }
        self.inode_bitmap.dealloc(&mut self.cache, inode_id as usize);
    }

    /// Writes every changed block back to the device.
    pub fn sync_all(&mut self)
        requires
            old(self).wf(),
        ensures
            Self::sync_all_post(old(self), final(self)),
            final(self).same_layout(old(self)),
    {
        self.cache.sync_all();
    }

    /// Writes every change back and hands over the device.
    pub fn into_device(self) -> (d: D)
        requires
            self.wf(),
        ensures
            d.image() == self.view(),
    {
        self.cache.into_device()
    }

    /// The device behind the file system.
    pub fn device(&self) -> (d: &D)
        ensures
            d.image() == self.device_image(),
    {
        self.cache.device()
    }
}

impl<D: BlockDevice> FileSystem<D> {
    /// Number of free blocks in the data area.
    pub fn free_data_blocks(&mut self) -> (r: usize)
        requires
            old(self).wf(),
        ensures
            final(self).wf(),
            final(self).same_layout(old(self)),
            final(self).view() == old(self).view(),
            r == free_bits(old(self).view(), old(self).data_bitmap_start(), old(self).data_area_len()),
    {
        proof {
            self.lemma_wf();
        }
        self.data_bitmap.count_free(&mut self.cache, self.data_area_blocks as usize)
    }

    /// Whether block `block_id` of the data area is marked in use.
    pub fn data_block_in_use(&mut self, block_id: u32) -> (r: bool)
        requires
            old(self).wf(),
            old(self).data_area_start() <= block_id < old(self).data_area_start() + old(self).data_area_len(),
        ensures
            final(self).wf(),
            final(self).same_layout(old(self)),
            final(self).view() == old(self).view(),
            r == bit_set(old(self).view(), old(self).data_bitmap_start(), block_id - old(self).data_area_start()),
    {
        proof {
            self.lemma_wf();
        }
        self.data_bitmap.is_set(&mut self.cache, (block_id - self.data_area_start_block) as usize)
    }

    /// When the data area has a free block, `alloc_data` succeeds, and it
    /// leaves one free block fewer.
    pub proof fn lemma_alloc_data_count(&self, r: Option<u32>, after: &Self)
        requires
            self.wf(),
            after.wf(),
            after.same_layout(self),
            match r {
                Some(id) => {
                    &&& self.data_area_start() <= id < self.data_area_start() + self.data_area_len()
                    &&& alloc_result(self.view(), self.data_bitmap_start(), self.data_area_len(), Some((id - self.data_area_start()) as usize), after.view())
                },
                None => alloc_result(self.view(), self.data_bitmap_start(), self.data_area_len(), None, after.view()),
            },
        ensures
            free_bits(self.view(), self.data_bitmap_start(), self.data_area_len()) >= 1 ==> r.is_some(),
            r.is_some() ==> free_bits(after.view(), self.data_bitmap_start(), self.data_area_len())
                == free_bits(self.view(), self.data_bitmap_start(), self.data_area_len()) - 1,
    {
        self.lemma_wf();
        let start = self.data_bitmap_start();
        let da = self.data_area_len();
        match r {
            Some(id) => {
                let k = id - self.data_area_start();
                lemma_region_block(k, self.data_bitmap.blocks() as int);
                crate::bitmap::lemma_free_bits_take(self.view(), start, k, da);
            },
            None => {
                crate::bitmap::lemma_free_bits_zero(self.view(), start, da);
            },
        }
    }
}

/// Flushing twice in a row writes nothing to the device the second time.
pub proof fn lemma_sync_all_twice<D: BlockDevice>(
    fs0: &FileSystem<D>,
    fs1: &FileSystem<D>,
    fs2: &FileSystem<D>,
)
    requires
        FileSystem::sync_all_post(fs0, fs1),
        FileSystem::sync_all_post(fs1, fs2),
    ensures
        fs2.device_image() == fs1.device_image(),
        fs2.view() == fs0.view(),
{
}

/// On a freshly formatted image, where no bit of the inode bitmap is set,
/// the first inode allocated is inode 0.
pub proof fn lemma_first_inode_is_zero(
    img: Seq<Seq<u8>>,
    max: int,
    r: Option<usize>,
    img2: Seq<Seq<u8>>,
)
    requires
        0 < max,
        forall|k: int| 0 <= k < max ==> !#[trigger] bit_set(img, 1, k),
        alloc_result(img, 1, max, r, img2),
    ensures
        r == Some(0usize),
{
    assert(!bit_set(img, 1, 0));
    match r {
        Some(k) => {
            if k > 0 {
                assert(bit_set(img, 1, 0));
            }
        },
        None => {
            assert(bit_set(img, 1, 0));
        },
    }
}

/// The region sizes for formatting `total_blocks` blocks with an inode
/// bitmap of `inode_bitmap_blocks` blocks.
fn compute_layout(total_blocks: u32, inode_bitmap_blocks: u32) -> (r: (u32, u32, u32, u32))
    requires
        inode_bitmap_blocks * 4096 <= u32::MAX,
        1 + inode_bitmap_blocks + inode_area_blocks_for(inode_bitmap_blocks as int) <= total_blocks,
    ensures
        (r.0 as int, r.1 as int, r.2 as int, r.3 as int) == layout_for(total_blocks as int, inode_bitmap_blocks as int),
        r.1 == inode_bitmap_blocks * 1024,
        1 + r.0 + r.1 + r.2 + r.3 == total_blocks,
        r.2 * 4096 <= u32::MAX,
        r.3 <= r.2 * 4096,
{
    let ghost ibm = inode_bitmap_blocks as int;
    let inode_bitmap = Bitmap::new(1, inode_bitmap_blocks as usize);
    let inode_num = inode_bitmap.maximum();
    let inode_area_blocks = (((inode_num as u64) * (DISK_INODE_SIZE as u64) + (BLOCK_SIZE as u64) - 1) / (BLOCK_SIZE as u64)) as u32;
    assert(inode_area_blocks == ibm * 1024) by (nonlinear_arith)
        requires
            inode_num == ibm * 4096,
            inode_area_blocks == (inode_num * 128 + 511) / 512,
    ;
    assert(inode_area_blocks_for(ibm) == ibm * 1024) by (nonlinear_arith);
    let inode_total_blocks = inode_area_blocks + inode_bitmap_blocks;
    let data_total_blocks = total_blocks - 1 - inode_total_blocks;
    let data_bitmap_blocks = ((data_total_blocks as u64 + 4096) / 4097) as u32;
    assert(data_bitmap_blocks <= data_total_blocks) by (nonlinear_arith)
        requires
            data_bitmap_blocks == (data_total_blocks + 4096) / 4097,
            data_total_blocks >= 0,
    ;
    let data_area_blocks = data_total_blocks - data_bitmap_blocks;
    assert(data_area_blocks <= data_bitmap_blocks * 4096) by (nonlinear_arith)
        requires
            data_bitmap_blocks == (data_total_blocks + 4096) / 4097,
            data_area_blocks == data_total_blocks - data_bitmap_blocks,
            data_total_blocks >= 0,
    ;
    assert(data_bitmap_blocks * 4096 <= u32::MAX) by (nonlinear_arith)
        requires
            data_bitmap_blocks == (data_total_blocks + 4096) / 4097,
            data_total_blocks <= u32::MAX,
    ;
    (inode_bitmap_blocks, inode_area_blocks, data_bitmap_blocks, data_area_blocks)
}

/// Zeroes the first `total` blocks.
fn zero_blocks<D: BlockDevice>(cache: &mut BlockCacheManager<D>, total: u32)
    requires
        old(cache).wf(),
        total <= old(cache).view().len(),
    ensures
        final(cache).wf(),
        final(cache).view().len() == old(cache).view().len(),
        forall|b: int| 0 <= b < total ==> #[trigger] final(cache).view()[b] == zero_block(),
{
    let ghost n = cache.view().len();
    let z = zeros(BLOCK_SIZE);
    let mut i: u32 = 0;
    while i < total
        invariant
            i <= total,
            total <= n,
            cache.wf(),
            cache.view().len() == n,
            z@ == zero_block(),
            forall|b: int| 0 <= b < i ==> #[trigger] cache.view()[b] == zero_block(),
        decreases total - i,
    {
        proof {
            cache.lemma_view_wf();
        }
        let ghost v0 = cache.view();
        cache.write_bytes(i as usize, 0, z.as_slice());
        proof {
            assert(splice(block_at(v0, i as int), 0, z@) =~= zero_block());
        }
        i += 1;
    }
}

/// Bit `k` of a region of `blocks` blocks lies in one of those blocks.
pub proof fn lemma_region_block(k: int, blocks: int)
    requires
        0 <= k < blocks * 4096,
    ensures
        0 <= k / 4096 < blocks,
{
    assert(k / 4096 < blocks) by (nonlinear_arith)
        requires
            0 <= k < blocks * 4096,
    ;
}

/// Every bit of a bitmap whose blocks are zero is clear.
proof fn lemma_zero_bits(img: Seq<Seq<u8>>, start: int, blocks: int)
    requires
        0 <= start,
        forall|b: int| start <= b < start + blocks ==> #[trigger] img[b] == zero_block(),
        start + blocks <= img.len(),
    ensures
        forall|k: int| 0 <= k < blocks * 4096 ==> !#[trigger] bit_set(img, start, k),
{
    assert forall|k: int| 0 <= k < blocks * 4096 implies !#[trigger] bit_set(img, start, k) by {
        lemma_region_block(k, blocks);
        let blk = start + k / 4096;
        assert(img[blk] == zero_block());
        let s = (k % 8) as u8;
        assert((0u8 >> s) & 1u8 == 0u8) by (bit_vector);
    }
}

} // verus!
