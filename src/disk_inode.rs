//! Inodes as stored on disk, and how a file's logical blocks map to blocks
//! of the image through the direct, single-indirect and double-indirect
//! indices.

use vstd::prelude::*;

use crate::block_cache::{block_at, write_in_block, BlockCacheManager};
use crate::block_dev::{image_wf, BlockDevice};
use crate::bytes::{decode_u32, encode_u32, le_u32, splice, u32_le};
use crate::layout::word;
use crate::{
    BLOCK_SIZE, DIRECT_BOUND, DISK_INODE_SIZE, INDIRECT1_BOUND, INDIRECT2_BOUND, INODE_DIRECT_COUNT,
    INODE_INDIRECT1_COUNT, MAX_FILE_SIZE,
};

verus! {

/// What an inode describes.
#[derive(PartialEq, Eq, Structural, Clone, Copy, Debug)]
pub enum DiskInodeType {
    File,
    Directory,
}

/// An inode: sizes, the block index, and the kind of node.
///
/// On disk it takes 128 bytes: `size`, then `alloc_size` with the kind in
/// its top bit (set for a directory), the 28 direct slots, `indirect1` and
/// `indirect2`, each a little-endian `u32`.
#[derive(Clone, Copy)]
pub struct DiskInode {
    /// Length of the content in bytes.
    pub size: u32,
    /// Length that the allocated blocks cover, in bytes.
    pub alloc_size: u32,
    /// Block ids of the first 28 logical blocks.
    pub direct: [u32; 28],
    /// Block id of the single-indirect table.
    pub indirect1: u32,
    /// Block id of the double-indirect table.
    pub indirect2: u32,
    pub type_: DiskInodeType,
}

/// Number of data blocks that hold `size` bytes.
pub open spec fn data_blocks_for(size: int) -> int {
    (size + 511) / 512
}

/// Number of index blocks needed for `d` data blocks.
pub open spec fn index_blocks_for(d: int) -> int {
    if d <= 28 {
        0
    } else if d <= 156 {
        1
    } else {
        2 + (d - 156 + 127) / 128
    }
}

/// Number of data and index blocks that a file of `size` bytes occupies.
pub open spec fn total_blocks_for(size: int) -> int {
    data_blocks_for(size) + index_blocks_for(data_blocks_for(size))
}

/// Entry `idx` of the index block `blk` of `img`.
pub open spec fn entry(img: Seq<Seq<u8>>, blk: int, idx: int) -> int {
    le_u32(block_at(img, blk).subrange(4 * idx, 4 * idx + 4))
}

/// Block id of the sub-table in column `a` of the double-indirect table.
pub open spec fn sub_table(ino: DiskInode, img: Seq<Seq<u8>>, a: int) -> int {
    entry(img, ino.indirect2 as int, a)
}

/// Block of the image that holds logical block `j` of the inode.
pub open spec fn block_id_of(ino: DiskInode, img: Seq<Seq<u8>>, j: int) -> int {
    if j < 28 {
        ino.direct[j] as int
    } else if j < 156 {
        entry(img, ino.indirect1 as int, j - 28)
    } else {
        entry(img, sub_table(ino, img, (j - 156) / 128), (j - 156) % 128)
    }
}

/// The first `len` bytes of the inode's blocks, in logical order.
pub open spec fn file_bytes(ino: DiskInode, img: Seq<Seq<u8>>, len: int) -> Seq<u8> {
    Seq::new(len as nat, |i: int| block_at(img, block_id_of(ino, img, i / 512))[i % 512])
}

/// The content of the inode: its first `size` bytes.
pub open spec fn content(ino: DiskInode, img: Seq<Seq<u8>>) -> Seq<u8> {
    file_bytes(ino, img, ino.size as int)
}

proof fn lemma_in_block(b: int, o: int, t: int)
    requires
        0 <= b,
        0 <= o,
        0 <= t,
        o + t < 512,
    ensures
        (b * 512 + o + t) / 512 == b,
        (b * 512 + o + t) % 512 == o + t,
{
    assert((b * 512 + o + t) / 512 == b) by (nonlinear_arith)
        requires
            0 <= b,
            0 <= o,
            0 <= t,
            o + t < 512,
    ;
    assert((b * 512 + o + t) % 512 == o + t) by (nonlinear_arith)
        requires
            0 <= b,
            0 <= o,
            0 <= t,
            o + t < 512,
    ;
}

impl DiskInode {
    /// An inode of kind `type_` with nothing allocated.
    pub fn new(type_: DiskInodeType) -> (ino: Self)
        ensures
            ino.size == 0,
            ino.alloc_size == 0,
            ino.direct@ == Seq::new(28, |i: int| 0u32),
            ino.indirect1 == 0,
            ino.indirect2 == 0,
            ino.type_ == type_,
    {
        let ino = DiskInode {
            size: 0,
            alloc_size: 0,
            direct: [0u32; 28],
            indirect1: 0,
            indirect2: 0,
            type_,
        };
        assert(ino.direct@ =~= Seq::new(28, |i: int| 0u32));
        ino
    }

    /// Resets the inode to kind `type_` with nothing allocated.
    pub fn initialize(&mut self, type_: DiskInodeType)
        ensures
            final(self).size == 0,
            final(self).alloc_size == 0,
            final(self).direct@ == Seq::new(28, |i: int| 0u32),
            final(self).indirect1 == 0,
            final(self).indirect2 == 0,
            final(self).type_ == type_,
    {
        *self = DiskInode::new(type_);
    }

    /// Whether the inode is a directory.
    pub fn is_dir(&self) -> (r: bool)
        ensures
            r == (self.type_ == DiskInodeType::Directory),
    {
        self.type_ == DiskInodeType::Directory
    }

    /// Whether the inode is a file.
    pub fn is_file(&self) -> (r: bool)
        ensures
            r == (self.type_ == DiskInodeType::File),
    {
        self.type_ == DiskInodeType::File
    }

    /// Number of data blocks that the allocated length covers.
    pub fn data_blocks(&self) -> (r: u32)
        ensures
            r == data_blocks_for(self.alloc_size as int),
    {
        Self::_data_blocks(self.alloc_size)
    }

    /// Number of data blocks that hold `size` bytes.
    pub fn _data_blocks(size: u32) -> (r: u32)
        ensures
            r == data_blocks_for(size as int),
    {
        size / 512 + if size % 512 != 0 {
            1u32
        } else {
            0u32
        }
    }

    /// Number of data and index blocks that a file of `size` bytes occupies.
    pub fn total_blocks(size: u32) -> (r: u32)
        ensures
            r == total_blocks_for(size as int),
    {
        let data_blocks = Self::_data_blocks(size);
        let mut total = data_blocks;
        if data_blocks > INODE_DIRECT_COUNT as u32 {
            total += 1;
        }
        if data_blocks > INDIRECT1_BOUND as u32 {
            total += 1;
            total += (data_blocks - INDIRECT1_BOUND as u32 + INODE_INDIRECT1_COUNT as u32 - 1)
                / INODE_INDIRECT1_COUNT as u32;
        }
        total
    }

    /// Number of blocks to add when the allocated length grows to
    /// `new_size`.
    pub fn blocks_num_needed(&self, new_size: u32) -> (r: u32)
        requires
            new_size >= self.alloc_size,
        ensures
            r == total_blocks_for(new_size as int) - total_blocks_for(self.alloc_size as int),
    {
        proof {
            lemma_total_blocks_monotonic(self.alloc_size as int, new_size as int);
        }
        Self::total_blocks(new_size) - Self::total_blocks(self.alloc_size)
    }

    /// The block of the image that holds logical block `inner_id`.
    pub fn get_block_id<D: BlockDevice>(&self, inner_id: u32, cache: &mut BlockCacheManager<D>) -> (r: u32)
        requires
            old(cache).wf(),
            inner_id < INDIRECT2_BOUND,
        ensures
            final(cache).wf(),
            final(cache).view() == old(cache).view(),
            r == block_id_of(*self, old(cache).view(), inner_id as int),
    {
        let inner_id = inner_id as usize;
        if inner_id < INODE_DIRECT_COUNT {
            self.direct[inner_id]
        } else if inner_id < INDIRECT1_BOUND {
            cache.read_u32(self.indirect1 as usize, (inner_id - INODE_DIRECT_COUNT) * 4)
        } else {
            let last = inner_id - INDIRECT1_BOUND;
            let indirect1 = cache.read_u32(self.indirect2 as usize, (last / INODE_INDIRECT1_COUNT) * 4);
            cache.read_u32(indirect1 as usize, (last % INODE_INDIRECT1_COUNT) * 4)
        }
    }

    /// Reads the content from byte `offset` on into `buf`, up to the end of
    /// the content or of `buf`, and returns how many bytes it read: none when
    /// `offset` is at or past the end.
    pub fn read_at<D: BlockDevice>(&self, offset: usize, buf: &mut [u8], cache: &mut BlockCacheManager<D>) -> (r: usize)
        requires
            old(cache).wf(),
            self.size <= MAX_FILE_SIZE,
        ensures
            final(cache).wf(),
            final(cache).view() == old(cache).view(),
            r == if offset >= self.size {
                0
            } else {
                vstd::math::min(old(buf)@.len() as int, self.size - offset)
            },
            offset < self.size ==> final(buf)@ == splice(
                old(buf)@,
                0,
                content(*self, old(cache).view()).subrange(offset as int, offset + r),
            ),
            offset >= self.size ==> final(buf)@ == old(buf)@,
            read_back(*self, old(cache).view(), offset as int, old(buf)@, final(buf)@, r as int),
    {
        proof {
            cache.lemma_view_wf();
        }
        let ghost img = cache.view();
        let ghost c = content(*self, img);
        let size = self.size as usize;
        if offset >= size {
            return 0;
        }
        let n = if buf.len() < size - offset {
            buf.len()
        } else {
            size - offset
        };
        let end = offset + n;
        let mut start = offset;
        while start < end
            invariant
                offset <= start <= end,
                end == offset + n,
                end <= size,
                size == self.size,
                size <= MAX_FILE_SIZE,
                n <= buf@.len(),
                buf@.len() == old(buf)@.len(),
                cache.wf(),
                cache.view() == img,
                img == old(cache).view(),
                image_wf(img),
                c == content(*self, img),
                buf@ == splice(old(buf)@, 0, c.subrange(offset as int, start as int)),
            decreases end - start,
        {
            let blk = start / BLOCK_SIZE;
            let in_off = start % BLOCK_SIZE;
            let chunk = if BLOCK_SIZE - in_off < end - start {
                BLOCK_SIZE - in_off
            } else {
                end - start
            };
            assert(blk < INDIRECT2_BOUND);
            let id = self.get_block_id(blk as u32, cache);
            let ghost before = buf@;
            cache.read_into(id as usize, in_off, chunk, buf, start - offset);
            proof {
                let piece = block_at(img, id as int).subrange(in_off as int, in_off + chunk);
                assert(block_at(img, id as int).len() == 512);
                assert forall|t: int| 0 <= t < chunk implies piece[t] == c[start + t] by {
                    lemma_in_block(blk as int, in_off as int, t);
                    assert(start == blk * 512 + in_off);
                    assert((start + t) / 512 == blk);
                    assert((start + t) % 512 == in_off + t);
                }
                assert(piece =~= c.subrange(start as int, start + chunk));
                assert(buf@ =~= splice(old(buf)@, 0, c.subrange(offset as int, start + chunk)));
            }
            start += chunk;
        }
        n
    }
}

/// Growing a file never shrinks the number of blocks it occupies.
pub proof fn lemma_total_blocks_monotonic(a: int, b: int)
    requires
        0 <= a <= b,
    ensures
        total_blocks_for(a) <= total_blocks_for(b),
{
    let da = data_blocks_for(a);
    let db = data_blocks_for(b);
    assert(da <= db) by (nonlinear_arith)
        requires
            0 <= a <= b,
            da == (a + 511) / 512,
            db == (b + 511) / 512,
    ;
    if da > 156 && db > 156 {
        assert((da - 156 + 127) / 128 <= (db - 156 + 127) / 128) by (nonlinear_arith)
            requires
                156 < da <= db,
        ;
    }
}

/// Number of sub-tables under the double-indirect table for `d` data
/// blocks.
pub open spec fn sub_tables_for(d: int) -> int {
    if d <= 156 {
        0
    } else {
        (d - 156 + 127) / 128
    }
}

/// Whether block `b` is one of the index blocks that the inode's allocated
/// length uses.
pub open spec fn is_index_block(ino: DiskInode, img: Seq<Seq<u8>>, b: int) -> bool {
    index_block_for(ino, img, data_blocks_for(ino.alloc_size as int), b)
}

/// Whether block `b` is one of the index blocks that `d` data blocks use.
pub open spec fn index_block_for(ino: DiskInode, img: Seq<Seq<u8>>, d: int, b: int) -> bool {
    ||| d > 28 && b == ino.indirect1
    ||| d > 156 && b == ino.indirect2
    ||| exists|a: int| 0 <= a < sub_tables_for(d) && b == #[trigger] sub_table(ino, img, a)
}

/// The index blocks that `d` data blocks use lie on the device and are
/// pairwise distinct.
pub open spec fn index_ok_for(ino: DiskInode, img: Seq<Seq<u8>>, d: int) -> bool {
    &&& d > 28 ==> 0 <= ino.indirect1 < img.len()
    &&& d > 156 ==> 0 <= ino.indirect2 < img.len() && ino.indirect2 != ino.indirect1
    &&& forall|a: int|
        0 <= a < sub_tables_for(d) ==> {
            &&& 0 <= #[trigger] sub_table(ino, img, a) < img.len()
            &&& sub_table(ino, img, a) != ino.indirect1
            &&& sub_table(ino, img, a) != ino.indirect2
        }
    &&& forall|a1: int, a2: int|
        0 <= a1 < sub_tables_for(d) && 0 <= a2 < sub_tables_for(d) && a1 != a2 ==> #[trigger] sub_table(ino, img, a1)
            != #[trigger] sub_table(ino, img, a2)
}

/// The index blocks of the inode's allocated length lie on the device and
/// are pairwise distinct.
pub open spec fn index_ok(ino: DiskInode, img: Seq<Seq<u8>>) -> bool {
    index_ok_for(ino, img, data_blocks_for(ino.alloc_size as int))
}

/// Whether block `b` holds one of the inode's allocated data blocks.
pub open spec fn is_data_block(ino: DiskInode, img: Seq<Seq<u8>>, b: int) -> bool {
    exists|j: int|
        0 <= j < data_blocks_for(ino.alloc_size as int) && b == #[trigger] block_id_of(ino, img, j)
}

/// The inode's allocated data blocks lie on the device, are pairwise
/// distinct, and none of them is one of its index blocks.
pub open spec fn mapping_ok(ino: DiskInode, img: Seq<Seq<u8>>) -> bool {
    let d = data_blocks_for(ino.alloc_size as int);
    &&& forall|j: int|
        0 <= j < d ==> 0 <= #[trigger] block_id_of(ino, img, j) < img.len() && !is_index_block(
            ino,
            img,
            block_id_of(ino, img, j),
        )
    &&& forall|j1: int, j2: int|
        0 <= j1 < d && 0 <= j2 < d && j1 != j2 ==> #[trigger] block_id_of(ino, img, j1)
            != #[trigger] block_id_of(ino, img, j2)
}

proof fn lemma_sub_table_in_range(d: int, j: int)
    requires
        156 <= j < d,
    ensures
        0 <= (j - 156) / 128 < sub_tables_for(d),
{
    assert((j - 156) / 128 < (d - 156 + 127) / 128) by (nonlinear_arith)
        requires
            156 <= j < d,
    ;
}

/// When no index block of the inode changes, neither does the map from
/// logical to physical blocks, nor the set of index blocks.
pub proof fn lemma_mapping_stable(ino: DiskInode, img: Seq<Seq<u8>>, img2: Seq<Seq<u8>>)
    requires
        img2.len() == img.len(),
        forall|b: int| is_index_block(ino, img, b) ==> #[trigger] block_at(img2, b) == block_at(img, b),
    ensures
        forall|j: int|
            0 <= j < data_blocks_for(ino.alloc_size as int) ==> #[trigger] block_id_of(ino, img2, j)
                == block_id_of(ino, img, j),
        forall|b: int| #[trigger] is_index_block(ino, img2, b) == is_index_block(ino, img, b),
        forall|a: int|
            0 <= a < sub_tables_for(data_blocks_for(ino.alloc_size as int)) ==> #[trigger] sub_table(ino, img2, a)
                == sub_table(ino, img, a),
{
    let d = data_blocks_for(ino.alloc_size as int);
    assert forall|a: int| 0 <= a < sub_tables_for(d) implies #[trigger] sub_table(ino, img2, a)
        == sub_table(ino, img, a) by {
        assert(is_index_block(ino, img, ino.indirect2 as int));
    }
    assert forall|j: int| 0 <= j < d implies #[trigger] block_id_of(ino, img2, j) == block_id_of(
        ino,
        img,
        j,
    ) by {
        if 28 <= j < 156 {
            assert(is_index_block(ino, img, ino.indirect1 as int));
        } else if j >= 156 {
            lemma_sub_table_in_range(d, j);
            let a = (j - 156) / 128;
            assert(is_index_block(ino, img, sub_table(ino, img, a)));
        }
    }
    assert forall|b: int| #[trigger] is_index_block(ino, img2, b) == is_index_block(ino, img, b) by {
        if is_index_block(ino, img2, b) && !(d > 28 && b == ino.indirect1) && !(d > 156 && b
            == ino.indirect2) {
            let a = choose|a: int| 0 <= a < sub_tables_for(d) && b == #[trigger] sub_table(ino, img2, a);
            assert(b == sub_table(ino, img, a));
        }
        if is_index_block(ino, img, b) && !(d > 28 && b == ino.indirect1) && !(d > 156 && b
            == ino.indirect2) {
            let a = choose|a: int| 0 <= a < sub_tables_for(d) && b == #[trigger] sub_table(ino, img, a);
            assert(b == sub_table(ino, img2, a));
        }
    }
}

/// Where byte `j` of the inode's blocks lies in `img`: its block and its
/// offset there.
pub open spec fn byte_pos_of(ino: DiskInode, img: Seq<Seq<u8>>, j: int) -> (int, int) {
    (block_id_of(ino, img, j / 512), j % 512)
}

/// Whether byte `i` of block `b` is where one of the bytes
/// `[offset, offset + r)` of the inode lies in `img`.
pub open spec fn written_pos(ino: DiskInode, img: Seq<Seq<u8>>, offset: int, r: int, b: int, i: int) -> bool {
    exists|j: int| offset <= j < offset + r && #[trigger] byte_pos_of(ino, img, j) == (b, i)
}

impl DiskInode {
    /// The blocks that hold logical blocks `first` to `first + count - 1`.
    fn block_ids<D: BlockDevice>(&self, first: usize, count: usize, cache: &mut BlockCacheManager<D>) -> (ids: Vec<u32>)
        requires
            old(cache).wf(),
            first + count <= INDIRECT2_BOUND,
        ensures
            final(cache).wf(),
            final(cache).view() == old(cache).view(),
            ids@.len() == count,
            forall|k: int| 0 <= k < count ==> #[trigger] ids@[k] == block_id_of(*self, old(cache).view(), first + k),
    {
        let mut ids: Vec<u32> = Vec::new();
        let mut k: usize = 0;
        while k < count
            invariant
                k <= count,
                first + count <= INDIRECT2_BOUND,
                cache.wf(),
                cache.view() == old(cache).view(),
                ids@.len() == k,
                forall|x: int| 0 <= x < k ==> #[trigger] ids@[x] == block_id_of(*self, old(cache).view(), first + x),
            decreases count - k,
        {
            let id = self.get_block_id((first + k) as u32, cache);
            ids.push(id);
            k += 1;
        }
        ids
    }
}

impl DiskInode {
    /// Writes `buf` into the allocated blocks from byte `offset` on, up to
    /// the allocated length, and returns how many bytes it wrote. The inode
    /// itself does not change: growing it first, and updating `size`, are
    /// the caller's part. No byte of the image changes but those where the
    /// written bytes lie, as the index stood before the write; an empty
    /// write changes nothing. When the inode's data blocks are distinct and
    /// apart from its index blocks, the allocated range then reads as the
    /// old bytes with `buf` written over them.
    pub fn write_at<D: BlockDevice>(&mut self, offset: usize, buf: &[u8], cache: &mut BlockCacheManager<D>) -> (r: usize)
        requires
            old(cache).wf(),
            old(self).alloc_size <= MAX_FILE_SIZE,
        ensures
            *final(self) == *old(self),
            final(cache).wf(),
            final(cache).view().len() == old(cache).view().len(),
            r == if offset >= old(self).alloc_size {
                0
            } else {
                vstd::math::min(buf@.len() as int, old(self).alloc_size - offset)
            },
            offset >= old(self).alloc_size ==> final(cache).view() == old(cache).view(),
            mapping_ok(*old(self), old(cache).view()) ==> {
                &&& mapping_ok(*old(self), final(cache).view())
                &&& forall|j: int|
                    0 <= j < data_blocks_for(old(self).alloc_size as int) ==> #[trigger] block_id_of(
                        *old(self),
                        final(cache).view(),
                        j,
                    ) == block_id_of(*old(self), old(cache).view(), j)
                &&& forall|b: int|
                    !is_data_block(*old(self), old(cache).view(), b) ==> #[trigger] block_at(
                        final(cache).view(),
                        b,
                    ) == block_at(old(cache).view(), b)
                &&& offset < old(self).alloc_size ==> file_bytes(
                    *old(self),
                    final(cache).view(),
                    old(self).alloc_size as int,
                ) == splice(
                    file_bytes(*old(self), old(cache).view(), old(self).alloc_size as int),
                    offset as int,
                    buf@.subrange(0, r as int),
                )
            },
            written_at(*old(self), old(cache).view(), offset as int, buf@, r as int, final(cache).view()),
            forall|b: int, i: int|
                0 <= i < BLOCK_SIZE && !written_pos(*old(self), old(cache).view(), offset as int, r as int, b, i)
                    ==> #[trigger] block_at(final(cache).view(), b)[i] == block_at(old(cache).view(), b)[i],
            r == 0 ==> final(cache).view() == old(cache).view(),
    {
        proof {
            cache.lemma_view_wf();
        }
        let ghost img = cache.view();
        let ghost ino = *self;
        let ghost alloc = self.alloc_size as int;
        let ghost d = data_blocks_for(alloc);
        let ghost fb = file_bytes(ino, img, alloc);
        let size = self.alloc_size as usize;
        if offset >= size {
            return 0;
        }
        let n = if buf.len() < size - offset {
            buf.len()
        } else {
            size - offset
        };
        let end = offset + n;
        if n == 0 {
            assert(splice(fb, offset as int, buf@.subrange(0, 0)) =~= fb);
            return 0;
        }
        let first = offset / BLOCK_SIZE;
        let count = (end - 1) / BLOCK_SIZE - first + 1;
        assert(first + count <= INDIRECT2_BOUND) by (nonlinear_arith)
            requires
                first == offset / 512,
                count == (end - 1) / 512 - first + 1,
                0 < end <= 16540 * 512,
                offset < end,
        ;
        let ids = self.block_ids(first, count, cache);
        let mut start = offset;
        while start < end
            invariant
                offset <= start <= end,
                end == offset + n,
                end <= size,
                n > 0,
                first == offset / 512,
                count == (end - 1) / 512 - first + 1,
                ids@.len() == count,
                forall|k: int| 0 <= k < count ==> #[trigger] ids@[k] == block_id_of(ino, img, first + k),
                forall|b: int, i: int|
                    0 <= i < BLOCK_SIZE && !written_pos(ino, img, offset as int, start - offset, b, i)
                        ==> #[trigger] block_at(cache.view(), b)[i] == block_at(img, b)[i],
                size == alloc,
                size <= MAX_FILE_SIZE,
                n <= buf@.len(),
                *self == ino,
                cache.wf(),
                image_wf(cache.view()),
                cache.view().len() == img.len(),
                img == old(cache).view(),
                ino == *old(self),
                alloc == ino.alloc_size,
                d == data_blocks_for(alloc),
                fb == file_bytes(ino, img, alloc),
                mapping_ok(ino, img) ==> {
                    &&& forall|b: int|
                        !is_data_block(ino, img, b) ==> #[trigger] block_at(cache.view(), b)
                            == block_at(img, b)
                    &&& file_bytes(ino, cache.view(), alloc) == splice(
                        fb,
                        offset as int,
                        buf@.subrange(0, start - offset),
                    )
                },
            decreases end - start,
        {
            let ghost v = cache.view();
            let blk = start / BLOCK_SIZE;
            let in_off = start % BLOCK_SIZE;
            let chunk = if BLOCK_SIZE - in_off < end - start {
                BLOCK_SIZE - in_off
            } else {
                end - start
            };
            assert(blk < INDIRECT2_BOUND);
            assert(first <= blk < first + count) by (nonlinear_arith)
                requires
                    first == offset / 512,
                    count == (end - 1) / 512 - first + 1,
                    blk == start / 512,
                    offset <= start < end,
            ;
            let id = ids[blk - first];
            assert(id == block_id_of(ino, img, blk as int));
            let data = slice_part(buf, start - offset, chunk);
            cache.write_bytes(id as usize, in_off, data.as_slice());
            proof {
                cache.lemma_view_wf();
                let v2 = cache.view();
                assert forall|b: int, i: int|
                    0 <= i < BLOCK_SIZE && !written_pos(ino, img, offset as int, start + chunk - offset, b, i)
                    implies #[trigger] block_at(v2, b)[i] == block_at(img, b)[i] by {
                    if written_pos(ino, img, offset as int, start - offset, b, i) {
                        let j = choose|j: int| offset <= j < start && #[trigger] byte_pos_of(ino, img, j) == (b, i);
                        assert(byte_pos_of(ino, img, j) == (b, i));
                    }
                    if b == id && in_off <= i < in_off + chunk {
                        let j = start + (i - in_off);
                        lemma_in_block(blk as int, in_off as int, i - in_off);
                        assert(start == blk * 512 + in_off);
                        assert(byte_pos_of(ino, img, j) == (b, i));
                    }
                    assert(block_at(v2, b)[i] == block_at(v, b)[i]);
                }
                if mapping_ok(ino, img) {
                    let v2 = cache.view();
                    assert(blk < d) by {
                        assert(start < alloc);
                        assert(blk == start / 512);
                        assert(blk < (alloc + 511) / 512) by (nonlinear_arith)
                            requires
                                blk == start / 512,
                                start < alloc,
                        ;
                    }
                    lemma_mapping_stable(ino, img, v);
                    assert(id == block_id_of(ino, img, blk as int));
                    assert(block_id_of(ino, img, blk as int) == id);
                    assert(is_data_block(ino, img, id as int));
                    assert forall|b: int| !is_data_block(ino, img, b) implies #[trigger] block_at(v2, b)
                        == block_at(img, b) by {
                        assert(b != id);
                        assert(block_at(v2, b) == block_at(v, b));
                    }
                    assert forall|b: int| is_index_block(ino, img, b) implies #[trigger] block_at(v2, b)
                        == block_at(img, b) by {
                        if is_data_block(ino, img, b) {
                            let j = choose|j: int|
                                0 <= j < d && b == #[trigger] block_id_of(ino, img, j);
                            assert(!is_index_block(ino, img, block_id_of(ino, img, j)));
                        }
                    }
                    lemma_mapping_stable(ino, img, v2);
                    let want = splice(fb, offset as int, buf@.subrange(0, start + chunk - offset));
                    let got = file_bytes(ino, v2, alloc);
                    let prev = file_bytes(ino, v, alloc);
                    let before = splice(fb, offset as int, buf@.subrange(0, start - offset));
                    assert(prev == before);
                    assert(data@ == buf@.subrange(start - offset, start - offset + chunk));
                    assert(block_at(v2, id as int) == splice(block_at(v, id as int), in_off as int, data@));
                    assert forall|i: int| 0 <= i < alloc implies got[i] == want[i] by {
                        let j = i / 512;
                        assert(0 <= j < d) by (nonlinear_arith)
                            requires
                                0 <= i < alloc,
                                j == i / 512,
                                d == (alloc + 511) / 512,
                        ;
                        assert(block_id_of(ino, v2, j) == block_id_of(ino, img, j));
                        assert(block_id_of(ino, v, j) == block_id_of(ino, img, j));
                        assert(prev[i] == before[i]);
                        assert(0 <= i % 512 < 512);
                        if start <= i < start + chunk {
                            lemma_in_block(blk as int, in_off as int, i - start);
                            assert(start == blk * 512 + in_off);
                            assert(j == blk);
                            assert(i % 512 == in_off + (i - start));
                            assert(got[i] == block_at(v2, id as int)[i % 512]);
                            assert(got[i] == data@[i - start]);
                            assert(want[i] == buf@[i - offset]);
                        } else {
                            if j == blk {
                                assert(i == blk * 512 + i % 512) by (nonlinear_arith)
                                    requires
                                        j == i / 512,
                                        j == blk,
                                ;
                                assert(start == blk * 512 + in_off);
                                assert(!(in_off <= i % 512 < in_off + chunk));
                                assert(got[i] == block_at(v, id as int)[i % 512]);
                            } else {
                                assert(block_id_of(ino, img, j) != block_id_of(ino, img, blk as int));
                                assert(got[i] == block_at(v, block_id_of(ino, img, j))[i % 512]);
                            }
                            assert(got[i] == prev[i]);
                            assert(want[i] == before[i]);
                        }
                    }
                    assert(got =~= want);
                }
            }
            start += chunk;
        }
        proof {
            if mapping_ok(ino, img) {
                let v = cache.view();
                lemma_mapping_stable(ino, img, v);
                assert(mapping_ok(ino, v)) by {
                    assert forall|j: int| 0 <= j < d implies !is_index_block(ino, v, #[trigger] block_id_of(ino, v, j)) by {
                        assert(block_id_of(ino, v, j) == block_id_of(ino, img, j));
                    }
                    assert forall|j1: int, j2: int|
                        0 <= j1 < d && 0 <= j2 < d && j1 != j2 implies #[trigger] block_id_of(ino, v, j1)
                        != #[trigger] block_id_of(ino, v, j2) by {
                        assert(block_id_of(ino, v, j1) == block_id_of(ino, img, j1));
                        assert(block_id_of(ino, v, j2) == block_id_of(ino, img, j2));
                    }
                }
            }
        }
        n
    }
}

/// A copy of the `len` bytes of `s` from `from` on.
pub fn slice_part(s: &[u8], from: usize, len: usize) -> (r: Vec<u8>)
    requires
        from + len <= s@.len(),
    ensures
        r@ == s@.subrange(from as int, from + len),
{
    let mut r: Vec<u8> = Vec::new();
    let n = s.len();
    let mut i: usize = 0;
    while i < len
        invariant
            i <= len,
            n == s@.len(),
            from + len <= s@.len(),
            r@ == s@.subrange(from as int, from + i),
        decreases len - i,
    {
        r.push(s[from + i]);
        i += 1;
        assert(r@ =~= s@.subrange(from as int, from + i));
    }
    r
}

/// The ids of the first `n` entries of index block `blk`.
pub open spec fn entries(img: Seq<Seq<u8>>, blk: int, n: int) -> Seq<u32> {
    Seq::new(n as nat, |k: int| entry(img, blk, k) as u32)
}

/// For each of the first `a` sub-tables, its 128 entries and then the
/// sub-table itself.
pub open spec fn full_sub_tables(ino: DiskInode, img: Seq<Seq<u8>>, a: int) -> Seq<u32> {
    Seq::new(
        (a * 129) as nat,
        |x: int|
            if x % 129 < 128 {
                entry(img, sub_table(ino, img, x / 129), x % 129) as u32
            } else {
                sub_table(ino, img, x / 129) as u32
            },
    )
}

/// The blocks that the inode's allocated length occupies, in the order
/// `clear_size` hands them back: the direct blocks; the single-indirect
/// table and its entries; the double-indirect table, then the entries of
/// each sub-table followed by the sub-table.
pub open spec fn owned_blocks(ino: DiskInode, img: Seq<Seq<u8>>) -> Seq<u32> {
    let d = data_blocks_for(ino.alloc_size as int);
    let direct = ino.direct@.subrange(0, vstd::math::min(d, 28));
    let single = if d > 28 {
        seq![ino.indirect1].add(entries(img, ino.indirect1 as int, vstd::math::min(d - 28, 128)))
    } else {
        Seq::empty()
    };
    let double = if d > 156 {
        let rest = d - 156;
        let a1 = rest / 128;
        let b1 = rest % 128;
        let last = if b1 > 0 {
            entries(img, sub_table(ino, img, a1), b1).push(sub_table(ino, img, a1) as u32)
        } else {
            Seq::empty()
        };
        seq![ino.indirect2].add(full_sub_tables(ino, img, a1)).add(last)
    } else {
        Seq::empty()
    };
    direct + single + double
}

/// Every entry of `blk` up to `n`, copied out of its bytes `b`.
fn read_entries(b: &Vec<u8>, n: usize, out: &mut Vec<u32>)
    requires
        b@.len() == BLOCK_SIZE,
        n <= 128,
    ensures
        final(out)@ == old(out)@ + Seq::new(
            n as nat,
            |k: int| le_u32(b@.subrange(4 * k, 4 * k + 4)) as u32,
        ),
{
    let ghost o = out@;
    let mut k: usize = 0;
    while k < n
        invariant
            k <= n,
            n <= 128,
            b@.len() == BLOCK_SIZE,
            out@ == o + Seq::new(k as nat, |x: int| le_u32(b@.subrange(4 * x, 4 * x + 4)) as u32),
        decreases n - k,
    {
        let v = crate::bytes::decode_u32(b.as_slice(), 4 * k);
        out.push(v);
        k += 1;
        assert(out@ =~= o + Seq::new(k as nat, |x: int| le_u32(b@.subrange(4 * x, 4 * x + 4)) as u32));
    }
}

proof fn lemma_owned_len(d: int)
    requires
        0 <= d <= INDIRECT2_BOUND,
    ensures
        vstd::math::min(d, 28) + (if d > 28 {
            1 + vstd::math::min(d - 28, 128)
        } else {
            0
        }) + (if d > 156 {
            1 + ((d - 156) / 128) * 129 + if (d - 156) % 128 > 0 {
                (d - 156) % 128 + 1
            } else {
                0
            }
        } else {
            0
        }) == d + index_blocks_for(d),
{
    if d > 156 {
        let rest = d - 156;
        assert(rest == (rest / 128) * 128 + rest % 128) by (nonlinear_arith)
            requires
                rest >= 0,
        ;
        if rest % 128 > 0 {
            assert((rest + 127) / 128 == rest / 128 + 1) by (nonlinear_arith)
                requires
                    rest >= 0,
                    rest % 128 > 0,
                    rest == (rest / 128) * 128 + rest % 128,
            ;
        } else {
            assert((rest + 127) / 128 == rest / 128) by (nonlinear_arith)
                requires
                    rest >= 0,
                    rest % 128 == 0,
                    rest == (rest / 128) * 128 + rest % 128,
            ;
        }
    }
}

impl DiskInode {
    /// Empties the inode: sets both sizes to zero, zeroes every index
    /// pointer, and returns every block the allocated length occupied, data
    /// and index alike, as many as `total_blocks` of that length.
    pub fn clear_size<D: BlockDevice>(&mut self, cache: &mut BlockCacheManager<D>) -> (r: Vec<u32>)
        requires
            old(cache).wf(),
            old(self).alloc_size <= MAX_FILE_SIZE,
        ensures
            final(cache).wf(),
            final(cache).view() == old(cache).view(),
            r@ == owned_blocks(*old(self), old(cache).view()),
            r@.len() == total_blocks_for(old(self).alloc_size as int),
            final(self).size == 0,
            final(self).alloc_size == 0,
            final(self).direct@ == Seq::new(28, |i: int| 0u32),
            final(self).indirect1 == 0,
            final(self).indirect2 == 0,
            final(self).type_ == old(self).type_,
    {
        let ghost ino = *self;
        let ghost img = cache.view();
        proof {
            cache.lemma_view_wf();
        }
        let mut v: Vec<u32> = Vec::new();
        let data_blocks = self.data_blocks() as usize;
        assert(data_blocks <= INDIRECT2_BOUND) by (nonlinear_arith)
            requires
                data_blocks == (ino.alloc_size + 511) / 512,
                ino.alloc_size <= MAX_FILE_SIZE,
        ;
        let direct_n = if data_blocks < INODE_DIRECT_COUNT {
            data_blocks
        } else {
            INODE_DIRECT_COUNT
        };
        let mut k: usize = 0;
        while k < direct_n
            invariant
                k <= direct_n,
                direct_n <= 28,
                *self == ino,
                v@ == ino.direct@.subrange(0, k as int),
            decreases direct_n - k,
        {
            v.push(self.direct[k]);
            k += 1;
            assert(v@ =~= ino.direct@.subrange(0, k as int));
        }
        let ghost direct_part = v@;
        if data_blocks > INODE_DIRECT_COUNT {
            v.push(self.indirect1);
            let n1 = if data_blocks - INODE_DIRECT_COUNT < INODE_INDIRECT1_COUNT {
                data_blocks - INODE_DIRECT_COUNT
            } else {
                INODE_INDIRECT1_COUNT
            };
            let b = cache.read_block(self.indirect1 as usize);
            read_entries(&b, n1, &mut v);
            assert(Seq::new(n1 as nat, |x: int| le_u32(b@.subrange(4 * x, 4 * x + 4)) as u32) =~= entries(img, ino.indirect1 as int, n1 as int));
        }
        let ghost single_part = v@.subrange(direct_part.len() as int, v@.len() as int);
        assert(v@ =~= direct_part + single_part);
        if data_blocks > INDIRECT1_BOUND {
            v.push(self.indirect2);
            let rest = data_blocks - INDIRECT1_BOUND;
            let a1 = rest / INODE_INDIRECT1_COUNT;
            let b1 = rest % INODE_INDIRECT1_COUNT;
            let table = cache.read_block(self.indirect2 as usize);
            let ghost head = v@;
            let mut a: usize = 0;
            while a < a1
                invariant
                    a <= a1,
                    a1 < 129,
                    *self == ino,
                    cache.wf(),
                    cache.view() == img,
                    table@ == block_at(img, ino.indirect2 as int),
                    table@.len() == BLOCK_SIZE,
                    v@ == head + full_sub_tables(ino, img, a as int),
                decreases a1 - a,
            {
                let sub = crate::bytes::decode_u32(table.as_slice(), 4 * a);
                let sb = cache.read_block(sub as usize);
                let ghost before = v@;
                read_entries(&sb, INODE_INDIRECT1_COUNT, &mut v);
                v.push(sub);
                proof {
                    assert(sub == sub_table(ino, img, a as int));
                    assert forall|x: int| 0 <= x < (a + 1) * 129 implies #[trigger] full_sub_tables(ino, img, a + 1)[x] == (full_sub_tables(ino, img, a as int) + entries(img, sub as int, 128).push(sub))[x] by {
                        if x >= a * 129 {
                            assert(x / 129 == a) by (nonlinear_arith)
                                requires
                                    a * 129 <= x < (a + 1) * 129,
                            ;
                            assert(x % 129 == x - a * 129) by (nonlinear_arith)
                                requires
                                    a * 129 <= x < (a + 1) * 129,
                            ;
                        }
                    }
                    assert((a + 1) * 129 == a * 129 + 129) by (nonlinear_arith);
                    assert(full_sub_tables(ino, img, a + 1) =~= full_sub_tables(ino, img, a as int) + entries(img, sub as int, 128).push(sub));
                    assert(Seq::new(128, |x: int| le_u32(sb@.subrange(4 * x, 4 * x + 4)) as u32) =~= entries(img, sub as int, 128));
                    assert(v@ =~= head + full_sub_tables(ino, img, a + 1));
                }
                a += 1;
            }
            if b1 > 0 {
                let sub = crate::bytes::decode_u32(table.as_slice(), 4 * a1);
                let sb = cache.read_block(sub as usize);
                read_entries(&sb, b1, &mut v);
                v.push(sub);
                assert(Seq::new(b1 as nat, |x: int| le_u32(sb@.subrange(4 * x, 4 * x + 4)) as u32) =~= entries(img, sub as int, b1 as int));
            }
        }
        proof {
            lemma_owned_len(data_blocks as int);
            assert(v@ =~= owned_blocks(ino, img));
        }
        self.size = 0;
        self.alloc_size = 0;
        self.direct = [0u32; 28];
        self.indirect1 = 0;
        self.indirect2 = 0;
        assert(self.direct@ =~= Seq::new(28, |i: int| 0u32));
        v
    }
}

/// Number of data and index blocks that `d` data blocks occupy.
pub open spec fn used_blocks(d: int) -> int {
    d + index_blocks_for(d)
}

/// How many index blocks the `j`-th data block brings with it: the
/// single-indirect table comes with block 28, the double-indirect table and
/// its first sub-table with block 156, and each later sub-table with the
/// first block of its column.
pub open spec fn new_index_blocks_at(j: int) -> int {
    if j == 28 {
        1
    } else if j == 156 {
        2
    } else if j > 156 && (j - 156) % 128 == 0 {
        1
    } else {
        0
    }
}

proof fn lemma_used_step(j: int)
    requires
        0 <= j,
    ensures
        used_blocks(j + 1) == used_blocks(j) + 1 + new_index_blocks_at(j),
{
    if j > 156 {
        let r = j - 156;
        assert(r == (r / 128) * 128 + r % 128) by (nonlinear_arith)
            requires
                r >= 0,
        ;
        if r % 128 == 0 {
            assert((r + 127) / 128 == r / 128) by (nonlinear_arith)
                requires
                    r >= 0,
                    r % 128 == 0,
                    r == (r / 128) * 128 + r % 128,
            ;
            assert((r + 1 + 127) / 128 == r / 128 + 1) by (nonlinear_arith)
                requires
                    r >= 0,
                    r % 128 == 0,
                    r == (r / 128) * 128 + r % 128,
            ;
        } else {
            assert((r + 127) / 128 == r / 128 + 1) by (nonlinear_arith)
                requires
                    r >= 0,
                    r % 128 > 0,
                    r == (r / 128) * 128 + r % 128,
            ;
            assert((r + 1 + 127) / 128 == r / 128 + 1) by (nonlinear_arith)
                requires
                    r >= 0,
                    r % 128 > 0,
                    r == (r / 128) * 128 + r % 128,
            ;
        }
    }
}

proof fn lemma_used_monotonic(a: int, b: int)
    requires
        0 <= a <= b,
    ensures
        used_blocks(a) <= used_blocks(b),
    decreases b - a,
{
    if a < b {
        lemma_used_step(a);
        lemma_used_monotonic(a + 1, b);
    }
}

/// First position in the list of new blocks that growing from `old_d` data
/// blocks uses for logical block `j`.
pub open spec fn step_lo(old_d: int, j: int) -> int {
    used_blocks(j) - used_blocks(old_d)
}

/// Position in the list of new blocks of the data block for logical block
/// `k`, when growing from `old_d` data blocks.
pub open spec fn data_slot(old_d: int, k: int) -> int {
    step_lo(old_d, k + 1) - 1
}

/// Position of the sub-table of column `a`.
pub open spec fn column_slot(old_d: int, a: int) -> int {
    step_lo(old_d, 156 + 128 * a) + if a == 0 {
        1int
    } else {
        0int
    }
}

/// The blocks handed to a growth can be used: pairwise distinct, on the
/// device, and none of them a data or index block of the inode already.
pub open spec fn fresh_blocks(ino: DiskInode, img: Seq<Seq<u8>>, nb: Seq<u32>) -> bool {
    &&& forall|p1: int, p2: int|
        0 <= p1 < nb.len() && 0 <= p2 < nb.len() && p1 != p2 ==> #[trigger] nb[p1] != #[trigger] nb[p2]
    &&& forall|p: int|
        0 <= p < nb.len() ==> {
            &&& 0 <= #[trigger] nb[p] < img.len()
            &&& !is_data_block(ino, img, nb[p] as int)
            &&& !is_index_block(ino, img, nb[p] as int)
        }
}

/// What a growth of `ino` with blocks `nb` may count on.
pub open spec fn grow_pre(ino: DiskInode, img: Seq<Seq<u8>>, nb: Seq<u32>) -> bool {
    &&& image_wf(img)
    &&& mapping_ok(ino, img)
    &&& index_ok(ino, img)
    &&& fresh_blocks(ino, img, nb)
}

/// Where logical block `k` lies once `ino` has grown with blocks `nb`.
pub open spec fn grown_block(ino: DiskInode, img: Seq<Seq<u8>>, nb: Seq<u32>, k: int) -> int {
    let old_d = data_blocks_for(ino.alloc_size as int);
    if k < old_d {
        block_id_of(ino, img, k)
    } else {
        nb[data_slot(old_d, k)] as int
    }
}

/// The single-indirect table once `ino` has grown with blocks `nb`.
pub open spec fn grown_indirect1(ino: DiskInode, nb: Seq<u32>) -> int {
    let old_d = data_blocks_for(ino.alloc_size as int);
    if old_d > 28 {
        ino.indirect1 as int
    } else {
        nb[step_lo(old_d, 28)] as int
    }
}

/// The double-indirect table once `ino` has grown with blocks `nb`.
pub open spec fn grown_indirect2(ino: DiskInode, nb: Seq<u32>) -> int {
    let old_d = data_blocks_for(ino.alloc_size as int);
    if old_d > 156 {
        ino.indirect2 as int
    } else {
        nb[step_lo(old_d, 156)] as int
    }
}

/// The sub-table of column `a` once `ino` has grown with blocks `nb`.
pub open spec fn grown_sub_table(ino: DiskInode, img: Seq<Seq<u8>>, nb: Seq<u32>, a: int) -> int {
    let old_d = data_blocks_for(ino.alloc_size as int);
    if a < sub_tables_for(old_d) {
        sub_table(ino, img, a)
    } else {
        nb[column_slot(old_d, a)] as int
    }
}

/// The state of a growth after logical blocks up to `j` are in place.
pub open spec fn grow_inv(
    ino: DiskInode,
    img: Seq<Seq<u8>>,
    nb: Seq<u32>,
    cur: DiskInode,
    v: Seq<Seq<u8>>,
    j: int,
) -> bool {
    &&& image_wf(v)
    &&& v.len() == img.len()
    &&& forall|k: int| 0 <= k < j ==> #[trigger] block_id_of(cur, v, k) == grown_block(ino, img, nb, k)
    &&& j > 28 ==> cur.indirect1 == grown_indirect1(ino, nb)
    &&& j > 156 ==> cur.indirect2 == grown_indirect2(ino, nb)
    &&& forall|a: int| 0 <= a < sub_tables_for(j) ==> #[trigger] sub_table(cur, v, a) == grown_sub_table(ino, img, nb, a)
    &&& forall|b: int| !index_block_for(cur, v, j, b) ==> #[trigger] block_at(v, b) == block_at(img, b)
}

/// Two different places in the order of consumption are different
/// positions: place `t` of step `s` is position `step_lo(s) + t`, and step
/// `s` takes `1 + new_index_blocks_at(s)` places.
proof fn lemma_slots_differ(old_d: int, s1: int, t1: int, s2: int, t2: int)
    requires
        0 <= old_d <= s1,
        0 <= old_d <= s2,
        0 <= t1 <= new_index_blocks_at(s1),
        0 <= t2 <= new_index_blocks_at(s2),
        s1 != s2 || t1 != t2,
    ensures
        step_lo(old_d, s1) + t1 != step_lo(old_d, s2) + t2,
{
    lemma_used_step(s1);
    lemma_used_step(s2);
    if s1 < s2 {
        lemma_used_monotonic(s1 + 1, s2);
    } else if s2 < s1 {
        lemma_used_monotonic(s2 + 1, s1);
    }
}

/// Places of step `s` lie within the positions of the growth to `new_d`.
proof fn lemma_slot_in_range(old_d: int, new_d: int, s: int, t: int)
    requires
        0 <= old_d <= s < new_d,
        0 <= t <= new_index_blocks_at(s),
    ensures
        0 <= step_lo(old_d, s) + t < used_blocks(new_d) - used_blocks(old_d),
{
    lemma_used_step(s);
    lemma_used_monotonic(old_d, s);
    lemma_used_monotonic(s + 1, new_d);
}

/// The column of each sub-table opened by a growth from `old_d` to `new_d`
/// starts within the growth.
proof fn lemma_column_step(old_d: int, new_d: int, a: int)
    requires
        0 <= old_d <= new_d,
        sub_tables_for(old_d) <= a < sub_tables_for(new_d),
    ensures
        old_d <= 156 + 128 * a < new_d,
        new_index_blocks_at(156 + 128 * a) == if a == 0 {
            2int
        } else {
            1int
        },
{
    if old_d > 156 {
        assert(156 + 128 * a >= old_d) by (nonlinear_arith)
            requires
                old_d > 156,
                a >= (old_d - 156 + 127) / 128,
        ;
    }
    assert(156 + 128 * a < new_d) by (nonlinear_arith)
        requires
            new_d > 156,
            a < (new_d - 156 + 127) / 128,
            a >= 0,
    ;
    assert((128 * a) % 128 == 0) by (nonlinear_arith);
}

/// The column of logical block `k >= 156` is below the number of sub-tables
/// that `k + 1` data blocks use, and its first block opens it.
proof fn lemma_column_of(k: int)
    requires
        k >= 156,
    ensures
        0 <= (k - 156) / 128 < sub_tables_for(k + 1),
        (k - 156) % 128 == 0 <==> k == 156 + 128 * ((k - 156) / 128),
        k >= 156 + 128 * ((k - 156) / 128),
{
    let r = k - 156;
    assert(r == 128 * (r / 128) + r % 128) by (nonlinear_arith)
        requires
            r >= 0,
    ;
    assert(r / 128 < (r + 1 + 127) / 128) by (nonlinear_arith)
        requires
            r >= 0,
    ;
}

/// Under the growth's assumptions, the blocks it ends with are distinct,
/// on the device, and data blocks are apart from index blocks.
proof fn lemma_grown_distinct(ino: DiskInode, img: Seq<Seq<u8>>, nb: Seq<u32>, new_d: int)
    requires
        grow_pre(ino, img, nb),
        data_blocks_for(ino.alloc_size as int) <= new_d <= INDIRECT2_BOUND,
        nb.len() == used_blocks(new_d) - used_blocks(data_blocks_for(ino.alloc_size as int)),
    ensures
        forall|k: int| 0 <= k < new_d ==> 0 <= #[trigger] grown_block(ino, img, nb, k) < img.len(),
        forall|k1: int, k2: int|
            0 <= k1 < new_d && 0 <= k2 < new_d && k1 != k2 ==> #[trigger] grown_block(ino, img, nb, k1)
                != #[trigger] grown_block(ino, img, nb, k2),
        new_d > 28 ==> 0 <= grown_indirect1(ino, nb) < img.len(),
        new_d > 156 ==> 0 <= grown_indirect2(ino, nb) < img.len() && grown_indirect2(ino, nb) != grown_indirect1(ino, nb),
        forall|k: int|
            0 <= k < new_d ==> {
                &&& (new_d > 28 ==> #[trigger] grown_block(ino, img, nb, k) != grown_indirect1(ino, nb))
                &&& (new_d > 156 ==> grown_block(ino, img, nb, k) != grown_indirect2(ino, nb))
            },
        forall|k: int, a: int|
            0 <= k < new_d && 0 <= a < sub_tables_for(new_d) ==> #[trigger] grown_block(ino, img, nb, k)
                != #[trigger] grown_sub_table(ino, img, nb, a),
        forall|a: int|
            0 <= a < sub_tables_for(new_d) ==> {
                &&& 0 <= #[trigger] grown_sub_table(ino, img, nb, a) < img.len()
                &&& grown_sub_table(ino, img, nb, a) != grown_indirect1(ino, nb)
                &&& grown_sub_table(ino, img, nb, a) != grown_indirect2(ino, nb)
            },
        forall|a1: int, a2: int|
            0 <= a1 < sub_tables_for(new_d) && 0 <= a2 < sub_tables_for(new_d) && a1 != a2
                ==> #[trigger] grown_sub_table(ino, img, nb, a1) != #[trigger] grown_sub_table(ino, img, nb, a2),
{
    let old_d = data_blocks_for(ino.alloc_size as int);
    let len = nb.len() as int;
    // where each new block sits in the list
    assert forall|k: int| old_d <= k < new_d implies 0 <= #[trigger] data_slot(old_d, k) < len by {
        lemma_used_step(k);
        lemma_slot_in_range(old_d, new_d, k, new_index_blocks_at(k));
    }
    assert forall|a: int| sub_tables_for(old_d) <= a < sub_tables_for(new_d) implies 0 <= #[trigger] column_slot(old_d, a) < len by {
        lemma_column_step(old_d, new_d, a);
        lemma_slot_in_range(old_d, new_d, 156 + 128 * a, if a == 0 { 1int } else { 0int });
    }
    if old_d <= 28 < new_d {
        lemma_slot_in_range(old_d, new_d, 28, 0);
    }
    if old_d <= 156 < new_d {
        lemma_slot_in_range(old_d, new_d, 156, 0);
    }
    // an old data block is none of the new blocks
    assert forall|k: int, p: int| 0 <= k < old_d && 0 <= p < len implies #[trigger] block_id_of(ino, img, k) != #[trigger] nb[p] by {
        if block_id_of(ino, img, k) == nb[p] {
            assert(is_data_block(ino, img, nb[p] as int));
        }
    }
    // an old index block is none of the new blocks
    assert forall|p: int| 0 <= p < len implies {
        &&& (old_d > 28 ==> ino.indirect1 != #[trigger] nb[p])
        &&& (old_d > 156 ==> ino.indirect2 != nb[p])
        &&& forall|a: int| 0 <= a < sub_tables_for(old_d) ==> #[trigger] sub_table(ino, img, a) != nb[p]
    } by {
        assert forall|a: int| 0 <= a < sub_tables_for(old_d) implies #[trigger] sub_table(ino, img, a) != nb[p] by {
            if sub_table(ino, img, a) == nb[p] {
                assert(is_index_block(ino, img, nb[p] as int));
            }
        }
        if old_d > 28 && ino.indirect1 == nb[p] {
            assert(is_index_block(ino, img, nb[p] as int));
        }
        if old_d > 156 && ino.indirect2 == nb[p] {
            assert(is_index_block(ino, img, nb[p] as int));
        }
    }
    // old data blocks are not old index blocks
    assert forall|k: int| 0 <= k < old_d implies !is_index_block(ino, img, #[trigger] block_id_of(ino, img, k)) by {}
    assert forall|k1: int, k2: int|
        0 <= k1 < new_d && 0 <= k2 < new_d && k1 != k2 implies #[trigger] grown_block(ino, img, nb, k1)
        != #[trigger] grown_block(ino, img, nb, k2) by {
        if k1 >= old_d && k2 >= old_d {
            lemma_slots_differ(old_d, k1, new_index_blocks_at(k1), k2, new_index_blocks_at(k2));
            lemma_used_step(k1);
            lemma_used_step(k2);
        }
    }
    assert forall|k: int| 0 <= k < new_d implies {
        &&& (new_d > 28 ==> #[trigger] grown_block(ino, img, nb, k) != grown_indirect1(ino, nb))
        &&& (new_d > 156 ==> grown_block(ino, img, nb, k) != grown_indirect2(ino, nb))
    } by {
        lemma_used_step(k);
        if k < old_d {
            assert(!is_index_block(ino, img, block_id_of(ino, img, k)));
        } else {
            if new_d > 28 && old_d <= 28 {
                lemma_slots_differ(old_d, k, new_index_blocks_at(k), 28, 0);
            }
            if new_d > 156 && old_d <= 156 {
                lemma_slots_differ(old_d, k, new_index_blocks_at(k), 156, 0);
            }
        }
    }
    assert forall|k: int, a: int|
        0 <= k < new_d && 0 <= a < sub_tables_for(new_d) implies #[trigger] grown_block(ino, img, nb, k)
        != #[trigger] grown_sub_table(ino, img, nb, a) by {
        lemma_used_step(k);
        if a < sub_tables_for(old_d) {
            if k < old_d {
                assert(!is_index_block(ino, img, block_id_of(ino, img, k)));
            }
        } else {
            lemma_column_step(old_d, new_d, a);
            if k >= old_d {
                lemma_slots_differ(old_d, k, new_index_blocks_at(k), 156 + 128 * a, if a == 0 { 1int } else { 0int });
            }
        }
    }
    assert forall|a: int| 0 <= a < sub_tables_for(new_d) implies {
        &&& 0 <= #[trigger] grown_sub_table(ino, img, nb, a) < img.len()
        &&& grown_sub_table(ino, img, nb, a) != grown_indirect1(ino, nb)
        &&& grown_sub_table(ino, img, nb, a) != grown_indirect2(ino, nb)
    } by {
        if a >= sub_tables_for(old_d) {
            lemma_column_step(old_d, new_d, a);
            if old_d <= 28 {
                lemma_slots_differ(old_d, 156 + 128 * a, if a == 0 { 1int } else { 0int }, 28, 0);
            }
            if old_d <= 156 {
                lemma_slots_differ(old_d, 156 + 128 * a, if a == 0 { 1int } else { 0int }, 156, 0);
            }
        } else {
            assert(old_d > 156);
        }
    }
    assert forall|a1: int, a2: int|
        0 <= a1 < sub_tables_for(new_d) && 0 <= a2 < sub_tables_for(new_d) && a1 != a2
        implies #[trigger] grown_sub_table(ino, img, nb, a1) != #[trigger] grown_sub_table(ino, img, nb, a2) by {
        if a1 >= sub_tables_for(old_d) && a2 >= sub_tables_for(old_d) {
            lemma_column_step(old_d, new_d, a1);
            lemma_column_step(old_d, new_d, a2);
            assert(156 + 128 * a1 != 156 + 128 * a2);
            lemma_slots_differ(old_d, 156 + 128 * a1, if a1 == 0 { 1int } else { 0int }, 156 + 128 * a2, if a2 == 0 { 1int } else { 0int });
        }
    }
    if new_d > 156 {
        if old_d <= 28 {
            lemma_slots_differ(old_d, 156, 0, 28, 0);
        }
    }
}

/// Writing a `u32` into an index block changes that entry and no other.
proof fn lemma_entry_write(img: Seq<Seq<u8>>, blk: int, off: int, val: u32, b2: int, idx: int)
    requires
        image_wf(img),
        0 <= blk < img.len(),
        0 <= off,
        off % 4 == 0,
        off + 4 <= 512,
        0 <= idx < 128,
    ensures
        entry(write_in_block(img, blk, off, u32_le(val)), b2, idx) == if b2 == blk && 4 * idx == off {
            val as int
        } else {
            entry(img, b2, idx)
        },
{
    let img2 = write_in_block(img, blk, off, u32_le(val));
    crate::bytes::lemma_le_u32_round_trip(val);
    if b2 == blk {
        let old_blk = img[blk];
        let new_blk = splice(old_blk, off, u32_le(val));
        assert(block_at(img2, b2) == new_blk);
        if 4 * idx == off {
            assert(new_blk.subrange(4 * idx, 4 * idx + 4) =~= u32_le(val));
        } else {
            assert(4 * idx + 4 <= off || off + 4 <= 4 * idx);
            assert(new_blk.subrange(4 * idx, 4 * idx + 4) =~= old_blk.subrange(4 * idx, 4 * idx + 4));
        }
    } else {
        assert(block_at(img2, b2) == block_at(img, b2));
    }
}

/// Before its first step, a growth has nothing to account for.
proof fn lemma_inv_start(ino: DiskInode, img: Seq<Seq<u8>>, nb: Seq<u32>)
    requires
        grow_pre(ino, img, nb),
    ensures
        grow_inv(ino, img, nb, ino, img, data_blocks_for(ino.alloc_size as int)),
{
}

/// A step of a growth that writes `val` at entry `idx` of index block `blk`
/// keeps every logical block below `j` in place, as long as that entry is
/// not one that those blocks are looked up through.
proof fn lemma_lookups_kept(cur: DiskInode, cur2: DiskInode, v: Seq<Seq<u8>>, blk: int, idx: int, val: u32, j: int)
    requires
        image_wf(v),
        0 <= blk < v.len(),
        0 <= idx < 128,
        0 <= j <= INDIRECT2_BOUND,
        cur2.direct == cur.direct,
        j > 28 ==> cur2.indirect1 == cur.indirect1,
        j > 156 ==> cur2.indirect2 == cur.indirect2,
        j > 28 ==> (blk != cur.indirect1 || idx >= j - 28),
        j > 156 ==> (blk != cur.indirect2 || idx >= sub_tables_for(j)),
        forall|a: int| 0 <= a < sub_tables_for(j) ==> (blk != #[trigger] sub_table(cur, v, a) || (a == (j - 156) / 128 && idx >= (j - 156) % 128)),
    ensures
        forall|k: int| 0 <= k < j ==> #[trigger] block_id_of(cur2, write_in_block(v, blk, 4 * idx, u32_le(val)), k) == block_id_of(cur, v, k),
        forall|a: int| 0 <= a < sub_tables_for(j) ==> #[trigger] sub_table(cur2, write_in_block(v, blk, 4 * idx, u32_le(val)), a) == sub_table(cur, v, a),
{
    let v2 = write_in_block(v, blk, 4 * idx, u32_le(val));
    lemma_sub_tables_bound(j);
    assert forall|a: int| 0 <= a < sub_tables_for(j) implies #[trigger] sub_table(cur2, v2, a) == sub_table(cur, v, a) by {
        lemma_entry_write(v, blk, 4 * idx, val, cur.indirect2 as int, a);
        assert(j > 156);
    }
    assert forall|k: int| 0 <= k < j implies #[trigger] block_id_of(cur2, v2, k) == block_id_of(cur, v, k) by {
        if 28 <= k < 156 {
            lemma_entry_write(v, blk, 4 * idx, val, cur.indirect1 as int, k - 28);
        } else if k >= 156 {
            lemma_column_of(k);
            lemma_column_of(j - 1);
            let a = (k - 156) / 128;
            assert(sub_tables_for(k + 1) <= sub_tables_for(j)) by {
                lemma_sub_tables_monotonic(k + 1, j);
            }
            lemma_entry_write(v, blk, 4 * idx, val, cur.indirect2 as int, a);
            lemma_entry_write(v, blk, 4 * idx, val, sub_table(cur, v, a), (k - 156) % 128);
            if blk == sub_table(cur, v, a) {
                assert(a == (j - 156) / 128);
                assert((k - 156) % 128 < (j - 156) % 128) by (nonlinear_arith)
                    requires
                        (k - 156) / 128 == (j - 156) / 128,
                        156 <= k < j,
                ;
            }
        }
    }
}

proof fn lemma_sub_tables_bound(j: int)
    requires
        j <= INDIRECT2_BOUND,
    ensures
        sub_tables_for(j) <= 128,
{
    if j > 156 {
        assert((j - 156 + 127) / 128 <= 128) by (nonlinear_arith)
            requires
                156 < j <= 16540,
        ;
    }
}

proof fn lemma_sub_tables_monotonic(a: int, b: int)
    requires
        a <= b,
    ensures
        sub_tables_for(a) <= sub_tables_for(b),
{
    if a > 156 {
        assert((a - 156 + 127) / 128 <= (b - 156 + 127) / 128) by (nonlinear_arith)
            requires
                156 < a <= b,
        ;
    }
}

/// A growth stands at logical block `j`: blocks below `j` are in place,
/// and `pos` is where the blocks of `j` start in `nb`.
pub open spec fn step_ready(
    ino: DiskInode,
    img: Seq<Seq<u8>>,
    nb: Seq<u32>,
    new_d: int,
    j: int,
    cur: DiskInode,
    v: Seq<Seq<u8>>,
) -> bool {
    let old_d = data_blocks_for(ino.alloc_size as int);
    &&& old_d <= j <= new_d <= INDIRECT2_BOUND
    &&& nb.len() == used_blocks(new_d) - used_blocks(old_d)
    &&& cur.type_ == ino.type_
    &&& cur.size == ino.size
    &&& cur.alloc_size == ino.alloc_size
    &&& old_d > 28 ==> cur.indirect1 == ino.indirect1
    &&& old_d > 156 ==> cur.indirect2 == ino.indirect2
    &&& forall|k: int|
        0 <= k < 28 ==> #[trigger] cur.direct@[k] == if old_d <= k < j {
            nb[data_slot(old_d, k)]
        } else {
            ino.direct@[k]
        }
    &&& v.len() == img.len()
    &&& grow_pre(ino, img, nb) ==> grow_inv(ino, img, nb, cur, v, j)
}

impl DiskInode {
    fn grow_direct<D: BlockDevice>(
        &mut self,
        j: usize,
        pos: usize,
        nb: &Vec<u32>,
        cache: &mut BlockCacheManager<D>,
        Ghost(ino): Ghost<DiskInode>,
        Ghost(img): Ghost<Seq<Seq<u8>>>,
        Ghost(new_d): Ghost<int>,
    ) -> (next: usize)
        requires
            old(cache).wf(),
            step_ready(ino, img, nb@, new_d, j as int, *old(self), old(cache).view()),
            j < new_d,
            pos == step_lo(data_blocks_for(ino.alloc_size as int), j as int),
            j < 28,
        ensures
            final(cache).wf(),
            next == step_lo(data_blocks_for(ino.alloc_size as int), j + 1),
            step_ready(ino, img, nb@, new_d, j + 1, *final(self), final(cache).view()),
    {
        let ghost old_d = data_blocks_for(ino.alloc_size as int);
        let ghost cur0 = *self;
        let ghost v0 = cache.view();
        let ghost pre = grow_pre(ino, img, nb@);
        proof {
            lemma_used_step(j as int);
            lemma_used_monotonic(j as int + 1, new_d);
            lemma_used_monotonic(old_d, j as int);
            cache.lemma_view_wf();
            if pre {
                lemma_grown_distinct(ino, img, nb@, new_d);
                lemma_sub_tables_bound(new_d);
                lemma_sub_tables_monotonic(j as int, j as int + 1);
                lemma_sub_tables_monotonic(j as int + 1, new_d);
            }
        }
            self.direct[j] = nb[pos];
            proof {
                if pre {
                    assert forall|k: int| 0 <= k < j + 1 implies #[trigger] block_id_of(*self, v0, k) == grown_block(ino, img, nb@, k) by {
                        if k < j {
                            assert(block_id_of(*self, v0, k) == block_id_of(cur0, v0, k));
                        }
                    }
                    assert forall|b: int| !index_block_for(*self, v0, j + 1, b) implies #[trigger] block_at(v0, b) == block_at(img, b) by {
                        assert(!index_block_for(cur0, v0, j as int, b));
                    }
                }
            }
            pos + 1
    }

    fn grow_open_single<D: BlockDevice>(
        &mut self,
        j: usize,
        pos: usize,
        nb: &Vec<u32>,
        cache: &mut BlockCacheManager<D>,
        Ghost(ino): Ghost<DiskInode>,
        Ghost(img): Ghost<Seq<Seq<u8>>>,
        Ghost(new_d): Ghost<int>,
    ) -> (next: usize)
        requires
            old(cache).wf(),
            step_ready(ino, img, nb@, new_d, j as int, *old(self), old(cache).view()),
            j < new_d,
            pos == step_lo(data_blocks_for(ino.alloc_size as int), j as int),
            j == 28,
        ensures
            final(cache).wf(),
            next == step_lo(data_blocks_for(ino.alloc_size as int), j + 1),
            step_ready(ino, img, nb@, new_d, j + 1, *final(self), final(cache).view()),
    {
        let ghost old_d = data_blocks_for(ino.alloc_size as int);
        let ghost cur0 = *self;
        let ghost v0 = cache.view();
        let ghost pre = grow_pre(ino, img, nb@);
        proof {
            lemma_used_step(j as int);
            lemma_used_monotonic(j as int + 1, new_d);
            lemma_used_monotonic(old_d, j as int);
            cache.lemma_view_wf();
            if pre {
                lemma_grown_distinct(ino, img, nb@, new_d);
                lemma_sub_tables_bound(new_d);
                lemma_sub_tables_monotonic(j as int, j as int + 1);
                lemma_sub_tables_monotonic(j as int + 1, new_d);
            }
        }
            let root = nb[pos];
            let id = nb[pos + 1];
            self.indirect1 = root;
            proof {
                if pre {
                    assert(root == grown_indirect1(ino, nb@));
                    lemma_lookups_kept(cur0, *self, v0, root as int, 0, id, j as int);
                }
            }
            cache.write_u32(root as usize, 0, id);
            proof {
                if pre {
                    let v1 = cache.view();
                    lemma_entry_write(v0, root as int, 0, id, root as int, 0);
                    assert(block_id_of(*self, v1, 28) == id);
                    assert forall|b: int| !index_block_for(*self, v1, j + 1, b) implies #[trigger] block_at(v1, b) == block_at(img, b) by {
                        assert(b != root);
                        assert(!index_block_for(cur0, v0, j as int, b));
                        assert(block_at(v1, b) == block_at(v0, b));
                    }
                    assert(forall|k: int| 0 <= k < j ==> #[trigger] block_id_of(*self, v1, k) == block_id_of(cur0, v0, k));
                    assert forall|k: int| 0 <= k < j + 1 implies #[trigger] block_id_of(*self, v1, k) == grown_block(ino, img, nb@, k) by {
                        if k < j {
                            assert(block_id_of(*self, v1, k) == block_id_of(cur0, v0, k));
                        }
                    }
                }
            }
            pos + 2
    }

    fn grow_single<D: BlockDevice>(
        &mut self,
        j: usize,
        pos: usize,
        nb: &Vec<u32>,
        cache: &mut BlockCacheManager<D>,
        Ghost(ino): Ghost<DiskInode>,
        Ghost(img): Ghost<Seq<Seq<u8>>>,
        Ghost(new_d): Ghost<int>,
    ) -> (next: usize)
        requires
            old(cache).wf(),
            step_ready(ino, img, nb@, new_d, j as int, *old(self), old(cache).view()),
            j < new_d,
            pos == step_lo(data_blocks_for(ino.alloc_size as int), j as int),
            28 < j < 156,
        ensures
            final(cache).wf(),
            next == step_lo(data_blocks_for(ino.alloc_size as int), j + 1),
            step_ready(ino, img, nb@, new_d, j + 1, *final(self), final(cache).view()),
    {
        let ghost old_d = data_blocks_for(ino.alloc_size as int);
        let ghost cur0 = *self;
        let ghost v0 = cache.view();
        let ghost pre = grow_pre(ino, img, nb@);
        proof {
            lemma_used_step(j as int);
            lemma_used_monotonic(j as int + 1, new_d);
            lemma_used_monotonic(old_d, j as int);
            cache.lemma_view_wf();
            if pre {
                lemma_grown_distinct(ino, img, nb@, new_d);
                lemma_sub_tables_bound(new_d);
                lemma_sub_tables_monotonic(j as int, j as int + 1);
                lemma_sub_tables_monotonic(j as int + 1, new_d);
            }
        }
            let id = nb[pos];
            proof {
                if pre {
                    lemma_lookups_kept(cur0, *self, v0, self.indirect1 as int, j - 28, id, j as int);
                }
            }
            cache.write_u32(self.indirect1 as usize, (j - INODE_DIRECT_COUNT) * 4, id);
            proof {
                if pre {
                    let v1 = cache.view();
                    lemma_entry_write(v0, self.indirect1 as int, 4 * (j - 28), id, self.indirect1 as int, j - 28);
                    assert forall|b: int| !index_block_for(*self, v1, j + 1, b) implies #[trigger] block_at(v1, b) == block_at(img, b) by {
                        assert(b != self.indirect1);
                        assert(!index_block_for(cur0, v0, j as int, b));
                        assert(block_at(v1, b) == block_at(v0, b));
                    }
                    assert forall|k: int| 0 <= k < j + 1 implies #[trigger] block_id_of(*self, v1, k) == grown_block(ino, img, nb@, k) by {
                        if k < j {
                            assert(block_id_of(*self, v1, k) == block_id_of(cur0, v0, k));
                        }
                    }
                }
            }
            pos + 1
    }

    fn grow_open_double<D: BlockDevice>(
        &mut self,
        j: usize,
        pos: usize,
        nb: &Vec<u32>,
        cache: &mut BlockCacheManager<D>,
        Ghost(ino): Ghost<DiskInode>,
        Ghost(img): Ghost<Seq<Seq<u8>>>,
        Ghost(new_d): Ghost<int>,
    ) -> (next: usize)
        requires
            old(cache).wf(),
            step_ready(ino, img, nb@, new_d, j as int, *old(self), old(cache).view()),
            j < new_d,
            pos == step_lo(data_blocks_for(ino.alloc_size as int), j as int),
            j == 156,
        ensures
            final(cache).wf(),
            next == step_lo(data_blocks_for(ino.alloc_size as int), j + 1),
            step_ready(ino, img, nb@, new_d, j + 1, *final(self), final(cache).view()),
    {
        let ghost old_d = data_blocks_for(ino.alloc_size as int);
        let ghost cur0 = *self;
        let ghost v0 = cache.view();
        let ghost pre = grow_pre(ino, img, nb@);
        proof {
            lemma_used_step(j as int);
            lemma_used_monotonic(j as int + 1, new_d);
            lemma_used_monotonic(old_d, j as int);
            cache.lemma_view_wf();
            if pre {
                lemma_grown_distinct(ino, img, nb@, new_d);
                lemma_sub_tables_bound(new_d);
                lemma_sub_tables_monotonic(j as int, j as int + 1);
                lemma_sub_tables_monotonic(j as int + 1, new_d);
            }
        }
            let root = nb[pos];
            let sub = nb[pos + 1];
            let id = nb[pos + 2];
            self.indirect2 = root;
            let ghost cur1 = *self;
            proof {
                if pre {
                    assert(root == grown_indirect2(ino, nb@));
                    assert(sub == grown_sub_table(ino, img, nb@, 0));
                    lemma_lookups_kept(cur0, cur1, v0, root as int, 0, sub, j as int);
                }
            }
            cache.write_u32(root as usize, 0, sub);
            let ghost v1 = cache.view();
            proof {
                if pre {
                    lemma_entry_write(v0, root as int, 0, sub, root as int, 0);
                    assert(sub_table(cur1, v1, 0) == sub);
                    lemma_lookups_kept(cur1, cur1, v1, sub as int, 0, id, j as int);
                }
            }
            cache.write_u32(sub as usize, 0, id);
            proof {
                if pre {
                    let v2 = cache.view();
                    lemma_entry_write(v1, sub as int, 0, id, root as int, 0);
                    lemma_entry_write(v1, sub as int, 0, id, sub as int, 0);
                    assert(sub_table(cur1, v2, 0) == sub);
                    assert(block_id_of(cur1, v2, 156) == id);
                    assert forall|a: int| 0 <= a < sub_tables_for(j + 1) implies #[trigger] sub_table(cur1, v2, a) == grown_sub_table(ino, img, nb@, a) by {
                        assert(a == 0);
                    }
                    assert forall|b: int| !index_block_for(cur1, v2, j + 1, b) implies #[trigger] block_at(v2, b) == block_at(img, b) by {
                        assert(b != root);
                        assert(b != sub) by {
                            if b == sub {
                                assert(sub_table(cur1, v2, 0) == b);
                            }
                        }
                        assert(!index_block_for(cur0, v0, j as int, b));
                        assert(block_at(v2, b) == block_at(v0, b));
                    }
                    assert forall|k: int| 0 <= k < j + 1 implies #[trigger] block_id_of(cur1, v2, k) == grown_block(ino, img, nb@, k) by {
                        if k < j {
                            assert(block_id_of(cur1, v2, k) == block_id_of(cur1, v1, k));
                            assert(block_id_of(cur1, v1, k) == block_id_of(cur0, v0, k));
                        }
                    }
                }
            }
            pos + 3
    }

    fn grow_open_column<D: BlockDevice>(
        &mut self,
        j: usize,
        pos: usize,
        nb: &Vec<u32>,
        cache: &mut BlockCacheManager<D>,
        Ghost(ino): Ghost<DiskInode>,
        Ghost(img): Ghost<Seq<Seq<u8>>>,
        Ghost(new_d): Ghost<int>,
    ) -> (next: usize)
        requires
            old(cache).wf(),
            step_ready(ino, img, nb@, new_d, j as int, *old(self), old(cache).view()),
            j < new_d,
            pos == step_lo(data_blocks_for(ino.alloc_size as int), j as int),
            j > 156 && (j - 156) % 128 == 0,
        ensures
            final(cache).wf(),
            next == step_lo(data_blocks_for(ino.alloc_size as int), j + 1),
            step_ready(ino, img, nb@, new_d, j + 1, *final(self), final(cache).view()),
    {
        let ghost old_d = data_blocks_for(ino.alloc_size as int);
        let ghost cur0 = *self;
        let ghost v0 = cache.view();
        let ghost pre = grow_pre(ino, img, nb@);
        proof {
            lemma_used_step(j as int);
            lemma_used_monotonic(j as int + 1, new_d);
            lemma_used_monotonic(old_d, j as int);
            cache.lemma_view_wf();
            if pre {
                lemma_grown_distinct(ino, img, nb@, new_d);
                lemma_sub_tables_bound(new_d);
                lemma_sub_tables_monotonic(j as int, j as int + 1);
                lemma_sub_tables_monotonic(j as int + 1, new_d);
            }
        }
            let column = (j - INDIRECT1_BOUND) / INODE_INDIRECT1_COUNT;
            let sub = nb[pos];
            let id = nb[pos + 1];
            proof {
                lemma_column_of(j as int);
                assert(j == 156 + 128 * column);
                assert(sub_tables_for(j as int) == column) by (nonlinear_arith)
                    requires
                        j == 156 + 128 * column,
                        column >= 1,
                ;
                assert(sub_tables_for(j + 1) == column + 1) by (nonlinear_arith)
                    requires
                        j == 156 + 128 * column,
                        column >= 1,
                ;
                if pre {
                    assert(sub == grown_sub_table(ino, img, nb@, column as int)) by {
                        assert(column >= sub_tables_for(old_d)) by {
                            if column < sub_tables_for(old_d) {
                                assert(old_d > 156);
                                assert(old_d > j) by (nonlinear_arith)
                                    requires
                                        column < (old_d - 156 + 127) / 128,
                                        j == 156 + 128 * column,
                                        old_d > 156,
                                ;
                            }
                        }
                    }
                    lemma_lookups_kept(cur0, cur0, v0, self.indirect2 as int, column as int, sub, j as int);
                }
            }
            cache.write_u32(self.indirect2 as usize, column * 4, sub);
            let ghost v1 = cache.view();
            proof {
                if pre {
                    lemma_entry_write(v0, self.indirect2 as int, 4 * column, sub, self.indirect2 as int, column as int);
                    assert(sub_table(cur0, v1, column as int) == sub);
                    lemma_lookups_kept(cur0, cur0, v1, sub as int, 0, id, j as int);
                }
            }
            cache.write_u32(sub as usize, 0, id);
            proof {
                if pre {
                    let v2 = cache.view();
                    lemma_entry_write(v1, sub as int, 0, id, self.indirect2 as int, column as int);
                    lemma_entry_write(v1, sub as int, 0, id, sub as int, 0);
                    assert(block_id_of(cur0, v2, j as int) == id);
                    assert forall|a: int| 0 <= a < sub_tables_for(j + 1) implies #[trigger] sub_table(cur0, v2, a) == grown_sub_table(ino, img, nb@, a) by {
                        if a < column {
                            assert(sub_table(cur0, v2, a) == sub_table(cur0, v1, a));
                            assert(sub_table(cur0, v1, a) == sub_table(cur0, v0, a));
                        } else {
                            assert(a == column);
                        }
                    }
                    assert forall|b: int| !index_block_for(cur0, v2, j + 1, b) implies #[trigger] block_at(v2, b) == block_at(img, b) by {
                        assert(b != self.indirect2);
                        assert(b != sub) by {
                            if b == sub {
                                assert(sub_table(cur0, v2, column as int) == b);
                            }
                        }
                        assert(!index_block_for(cur0, v0, j as int, b)) by {
                            if index_block_for(cur0, v0, j as int, b) && b != cur0.indirect1 && b != cur0.indirect2 {
                                let a = choose|a: int| 0 <= a < sub_tables_for(j as int) && b == #[trigger] sub_table(cur0, v0, a);
                                assert(sub_table(cur0, v2, a) == sub_table(cur0, v1, a));
                                assert(sub_table(cur0, v1, a) == sub_table(cur0, v0, a));
                            }
                        }
                        assert(block_at(v2, b) == block_at(v0, b));
                    }
                    assert forall|k: int| 0 <= k < j + 1 implies #[trigger] block_id_of(cur0, v2, k) == grown_block(ino, img, nb@, k) by {
                        if k < j {
                            assert(block_id_of(cur0, v2, k) == block_id_of(cur0, v1, k));
                            assert(block_id_of(cur0, v1, k) == block_id_of(cur0, v0, k));
                        }
                    }
                }
            }
            pos + 2
    }

    fn grow_double<D: BlockDevice>(
        &mut self,
        j: usize,
        pos: usize,
        nb: &Vec<u32>,
        cache: &mut BlockCacheManager<D>,
        Ghost(ino): Ghost<DiskInode>,
        Ghost(img): Ghost<Seq<Seq<u8>>>,
        Ghost(new_d): Ghost<int>,
    ) -> (next: usize)
        requires
            old(cache).wf(),
            step_ready(ino, img, nb@, new_d, j as int, *old(self), old(cache).view()),
            j < new_d,
            pos == step_lo(data_blocks_for(ino.alloc_size as int), j as int),
            j > 156 && (j - 156) % 128 != 0,
        ensures
            final(cache).wf(),
            next == step_lo(data_blocks_for(ino.alloc_size as int), j + 1),
            step_ready(ino, img, nb@, new_d, j + 1, *final(self), final(cache).view()),
    {
        let ghost old_d = data_blocks_for(ino.alloc_size as int);
        let ghost cur0 = *self;
        let ghost v0 = cache.view();
        let ghost pre = grow_pre(ino, img, nb@);
        proof {
            lemma_used_step(j as int);
            lemma_used_monotonic(j as int + 1, new_d);
            lemma_used_monotonic(old_d, j as int);
            cache.lemma_view_wf();
            if pre {
                lemma_grown_distinct(ino, img, nb@, new_d);
                lemma_sub_tables_bound(new_d);
                lemma_sub_tables_monotonic(j as int, j as int + 1);
                lemma_sub_tables_monotonic(j as int + 1, new_d);
            }
        }
            let last = j - INDIRECT1_BOUND;
            let column = last / INODE_INDIRECT1_COUNT;
            let row = last % INODE_INDIRECT1_COUNT;
            let id = nb[pos];
            proof {
                lemma_column_of(j as int);
                assert(column < sub_tables_for(j as int)) by (nonlinear_arith)
                    requires
                        column == (j - 156) / 128,
                        (j - 156) % 128 != 0,
                        j > 156,
                ;
                assert(sub_tables_for(j + 1) == sub_tables_for(j as int)) by (nonlinear_arith)
                    requires
                        (j - 156) % 128 != 0,
                        j > 156,
                ;
            }
            let sub = cache.read_u32(self.indirect2 as usize, column * 4);
            proof {
                if pre {
                    assert(sub == sub_table(cur0, v0, column as int));
                    lemma_lookups_kept(cur0, cur0, v0, sub as int, row as int, id, j as int);
                }
            }
            cache.write_u32(sub as usize, row * 4, id);
            proof {
                if pre {
                    let v1 = cache.view();
                    lemma_entry_write(v0, sub as int, 4 * row, id, sub as int, row as int);
                    assert(sub_table(cur0, v1, column as int) == sub);
                    assert(block_id_of(cur0, v1, j as int) == id);
                    assert forall|a: int| 0 <= a < sub_tables_for(j + 1) implies #[trigger] sub_table(cur0, v1, a) == grown_sub_table(ino, img, nb@, a) by {
                        assert(sub_table(cur0, v1, a) == sub_table(cur0, v0, a));
                    }
                    assert forall|b: int| !index_block_for(cur0, v1, j + 1, b) implies #[trigger] block_at(v1, b) == block_at(img, b) by {
                        assert(b != sub) by {
                            if b == sub {
                                assert(sub_table(cur0, v1, column as int) == b);
                            }
                        }
                        assert(!index_block_for(cur0, v0, j as int, b)) by {
                            if index_block_for(cur0, v0, j as int, b) && b != cur0.indirect1 && b != cur0.indirect2 {
                                let a = choose|a: int| 0 <= a < sub_tables_for(j as int) && b == #[trigger] sub_table(cur0, v0, a);
                                assert(sub_table(cur0, v1, a) == sub_table(cur0, v0, a));
                            }
                        }
                        assert(block_at(v1, b) == block_at(v0, b));
                    }
                    assert forall|k: int| 0 <= k < j + 1 implies #[trigger] block_id_of(cur0, v1, k) == grown_block(ino, img, nb@, k) by {
                        if k < j {
                            assert(block_id_of(cur0, v1, k) == block_id_of(cur0, v0, k));
                        }
                    }
                }
            }
            pos + 1
    }

}

impl DiskInode {
    /// Grows the allocated length to `new_size`, taking the blocks it needs
    /// from `new_blocks` in order: for each new logical block, first any
    /// index block that it opens (the single-indirect table at block 28, the
    /// double-indirect table and its first sub-table at block 156, a new
    /// sub-table at the first block of each later column), then the data
    /// block itself. Both `size` and `alloc_size` become `new_size`. When the
    /// inode's blocks are in order and the new blocks are fresh, the old
    /// logical blocks stay where they were, the new ones lie in the blocks
    /// handed in, all of them stay distinct and apart from the index blocks,
    /// and no block but an index block changes.
    pub fn increase_size<D: BlockDevice>(
        &mut self,
        new_size: u32,
        new_blocks: Vec<u32>,
        cache: &mut BlockCacheManager<D>,
    )
        requires
            old(cache).wf(),
            old(self).alloc_size <= new_size <= MAX_FILE_SIZE,
            new_blocks@.len() == total_blocks_for(new_size as int) - total_blocks_for(
                old(self).alloc_size as int,
            ),
        ensures
            final(cache).wf(),
            final(cache).view().len() == old(cache).view().len(),
            final(self).size == new_size,
            final(self).alloc_size == new_size,
            final(self).type_ == old(self).type_,
            forall|j: int|
                0 <= j < 28 ==> #[trigger] final(self).direct@[j] == if data_blocks_for(
                    old(self).alloc_size as int,
                ) <= j < data_blocks_for(new_size as int) {
                    new_blocks@[data_slot(data_blocks_for(old(self).alloc_size as int), j)]
                } else {
                    old(self).direct@[j]
                },
            data_blocks_for(old(self).alloc_size as int) > 28 ==> final(self).indirect1
                == old(self).indirect1,
            data_blocks_for(old(self).alloc_size as int) > 156 ==> final(self).indirect2
                == old(self).indirect2,
            grow_pre(*old(self), old(cache).view(), new_blocks@) ==> {
                &&& mapping_ok(*final(self), final(cache).view())
                &&& index_ok(*final(self), final(cache).view())
                &&& forall|k: int|
                    0 <= k < data_blocks_for(new_size as int) ==> #[trigger] block_id_of(
                        *final(self),
                        final(cache).view(),
                        k,
                    ) == grown_block(*old(self), old(cache).view(), new_blocks@, k)
                &&& forall|b: int|
                    !is_index_block(*final(self), final(cache).view(), b) ==> #[trigger] block_at(
                        final(cache).view(),
                        b,
                    ) == block_at(old(cache).view(), b)
                &&& forall|b: int|
                    #[trigger] is_index_block(*final(self), final(cache).view(), b) ==> is_index_block(
                        *old(self),
                        old(cache).view(),
                        b,
                    ) || exists|p: int| 0 <= p < new_blocks@.len() && b == new_blocks@[p]
            },
            grown_to(*old(self), old(cache).view(), new_size as int, new_blocks@, *final(self), final(cache).view()),
    {
        let ghost ino = *self;
        let ghost img = cache.view();
        let old_d = self.data_blocks() as usize;
        let new_d = Self::_data_blocks(new_size) as usize;
        proof {
            assert(old_d <= new_d) by (nonlinear_arith)
                requires
                    old_d == (ino.alloc_size + 511) / 512,
                    new_d == (new_size + 511) / 512,
                    ino.alloc_size <= new_size,
            ;
            assert(new_d <= INDIRECT2_BOUND) by (nonlinear_arith)
                requires
                    new_d == (new_size + 511) / 512,
                    new_size <= MAX_FILE_SIZE,
            ;
            if grow_pre(ino, img, new_blocks@) {
                lemma_inv_start(ino, img, new_blocks@);
            }
        }
        let mut pos: usize = 0;
        let mut j: usize = old_d;
        while j < new_d
            invariant
                old_d == data_blocks_for(ino.alloc_size as int),
                new_d == data_blocks_for(new_size as int),
                step_ready(ino, img, new_blocks@, new_d as int, j as int, *self, cache.view()),
                pos == step_lo(old_d as int, j as int),
                cache.wf(),
            decreases new_d - j,
        {
            pos = if j < INODE_DIRECT_COUNT {
                self.grow_direct(j, pos, &new_blocks, cache, Ghost(ino), Ghost(img), Ghost(new_d as int))
            } else if j == DIRECT_BOUND {
                self.grow_open_single(j, pos, &new_blocks, cache, Ghost(ino), Ghost(img), Ghost(new_d as int))
            } else if j < INDIRECT1_BOUND {
                self.grow_single(j, pos, &new_blocks, cache, Ghost(ino), Ghost(img), Ghost(new_d as int))
            } else if j == INDIRECT1_BOUND {
                self.grow_open_double(j, pos, &new_blocks, cache, Ghost(ino), Ghost(img), Ghost(new_d as int))
            } else if (j - INDIRECT1_BOUND) % INODE_INDIRECT1_COUNT == 0 {
                self.grow_open_column(j, pos, &new_blocks, cache, Ghost(ino), Ghost(img), Ghost(new_d as int))
            } else {
                self.grow_double(j, pos, &new_blocks, cache, Ghost(ino), Ghost(img), Ghost(new_d as int))
            };
            j += 1;
        }
        let ghost cur = *self;
        self.size = new_size;
        self.alloc_size = new_size;
        proof {
            let fin = *self;
            let v = cache.view();
            let nb = new_blocks@;
            if grow_pre(ino, img, nb) {
                lemma_grown_distinct(ino, img, nb, new_d as int);
                assert forall|k: int| 0 <= k < new_d implies #[trigger] block_id_of(fin, v, k) == grown_block(ino, img, nb, k) by {
                    assert(block_id_of(fin, v, k) == block_id_of(cur, v, k));
                }
                assert forall|a: int| 0 <= a < sub_tables_for(new_d as int) implies #[trigger] sub_table(fin, v, a) == grown_sub_table(ino, img, nb, a) by {
                    assert(sub_table(fin, v, a) == sub_table(cur, v, a));
                }
                assert forall|b: int| #[trigger] is_index_block(fin, v, b) == index_block_for(cur, v, new_d as int, b) by {
                    if index_block_for(cur, v, new_d as int, b) && b != cur.indirect1 && b != cur.indirect2 {
                        let a = choose|a: int| 0 <= a < sub_tables_for(new_d as int) && b == #[trigger] sub_table(cur, v, a);
                        assert(sub_table(fin, v, a) == sub_table(cur, v, a));
                    }
                    if is_index_block(fin, v, b) && b != fin.indirect1 && b != fin.indirect2 {
                        let a = choose|a: int| 0 <= a < sub_tables_for(new_d as int) && b == #[trigger] sub_table(fin, v, a);
                        assert(sub_table(fin, v, a) == sub_table(cur, v, a));
                    }
                }
                let old_d2 = data_blocks_for(ino.alloc_size as int);
                assert forall|b: int| #[trigger] is_index_block(fin, v, b) implies is_index_block(ino, img, b) || exists|p: int| 0 <= p < nb.len() && b == nb[p] by {
                    if b == fin.indirect1 && new_d > 28 {
                        if old_d2 <= 28 {
                            lemma_slot_in_range(old_d2, new_d as int, 28, 0);
                            assert(b == nb[step_lo(old_d2, 28)]);
                        }
                    } else if b == fin.indirect2 && new_d > 156 {
                        if old_d2 <= 156 {
                            lemma_slot_in_range(old_d2, new_d as int, 156, 0);
                            assert(b == nb[step_lo(old_d2, 156)]);
                        }
                    } else {
                        let a = choose|a: int| 0 <= a < sub_tables_for(new_d as int) && b == #[trigger] sub_table(fin, v, a);
                        assert(b == grown_sub_table(ino, img, nb, a));
                        if a < sub_tables_for(old_d2) {
                            assert(is_index_block(ino, img, b));
                        } else {
                            lemma_column_step(old_d2, new_d as int, a);
                            lemma_slot_in_range(old_d2, new_d as int, 156 + 128 * a, if a == 0 { 1int } else { 0int });
                            assert(b == nb[column_slot(old_d2, a)]);
                        }
                    }
                }
                assert forall|k: int| 0 <= k < new_d implies !is_index_block(fin, v, #[trigger] block_id_of(fin, v, k)) by {
                    let bk = block_id_of(fin, v, k);
                    if is_index_block(fin, v, bk) && bk != fin.indirect1 && bk != fin.indirect2 {
                        let a = choose|a: int| 0 <= a < sub_tables_for(new_d as int) && bk == #[trigger] sub_table(fin, v, a);
                        assert(grown_block(ino, img, nb, k) != grown_sub_table(ino, img, nb, a));
                    }
                }
                assert forall|k1: int, k2: int|
                    0 <= k1 < new_d && 0 <= k2 < new_d && k1 != k2 implies #[trigger] block_id_of(fin, v, k1)
                    != #[trigger] block_id_of(fin, v, k2) by {
                    assert(grown_block(ino, img, nb, k1) != grown_block(ino, img, nb, k2));
                }
                assert(mapping_ok(fin, v));
                assert forall|a: int| 0 <= a < sub_tables_for(new_d as int) implies {
                    &&& 0 <= #[trigger] sub_table(fin, v, a) < v.len()
                    &&& sub_table(fin, v, a) != fin.indirect1
                    &&& sub_table(fin, v, a) != fin.indirect2
                } by {
                    assert(sub_table(fin, v, a) == grown_sub_table(ino, img, nb, a));
                }
                assert forall|a1: int, a2: int|
                    0 <= a1 < sub_tables_for(new_d as int) && 0 <= a2 < sub_tables_for(new_d as int) && a1 != a2
                    implies #[trigger] sub_table(fin, v, a1) != #[trigger] sub_table(fin, v, a2) by {
                    assert(grown_sub_table(ino, img, nb, a1) != grown_sub_table(ino, img, nb, a2));
                }
                assert(index_ok(fin, v));
            }
        }
    }
}

/// Whether the 128 bytes `b` hold `ino`.
pub open spec fn decodes_to(b: Seq<u8>, ino: DiskInode) -> bool {
    &&& ino.size == word(b, 0)
    &&& ino.alloc_size == word(b, 1) % 0x8000_0000
    &&& (ino.type_ == DiskInodeType::Directory) == (word(b, 1) >= 0x8000_0000)
    &&& forall|k: int| 0 <= k < 28 ==> #[trigger] ino.direct@[k] == word(b, 2 + k)
    &&& ino.indirect1 == word(b, 30)
    &&& ino.indirect2 == word(b, 31)
}

/// The inode that the 128 bytes `b` hold.
pub open spec fn inode_in(b: Seq<u8>) -> DiskInode {
    choose|ino: DiskInode| decodes_to(b, ino)
}

proof fn lemma_arrays_equal(a: [u32; 28], b: [u32; 28])
    requires
        a@ == b@,
    ensures
        a == b,
{
}

proof fn lemma_decodes_unique(b: Seq<u8>, x: DiskInode)
    requires
        decodes_to(b, x),
    ensures
        inode_in(b) == x,
{
    let y = inode_in(b);
    assert(decodes_to(b, y));
    assert(x.direct@ =~= y.direct@);
    lemma_arrays_equal(x.direct, y.direct);
    assert(x.type_ == y.type_) by {
        match x.type_ {
            DiskInodeType::File => {},
            DiskInodeType::Directory => {},
        }
        match y.type_ {
            DiskInodeType::File => {},
            DiskInodeType::Directory => {},
        }
    }
}

impl DiskInode {
    /// The inode held in the 128 bytes of `b` from `off` on.
    pub fn from_bytes(b: &[u8], off: usize) -> (ino: Self)
        requires
            off + DISK_INODE_SIZE <= b@.len(),
        ensures
            ino == inode_in(b@.subrange(off as int, off + 128)),
    {
        let ghost bytes = b@.subrange(off as int, off + 128);
        let n = b.len();
        let w1 = decode_u32(b, off + 4);
        let mut direct = [0u32; 28];
        let mut k: usize = 0;
        while k < 28
            invariant
                k <= 28,
                n == b@.len(),
                off + DISK_INODE_SIZE <= b@.len(),
                bytes == b@.subrange(off as int, off + 128),
                forall|x: int| 0 <= x < k ==> #[trigger] direct@[x] == word(bytes, 2 + x),
            decreases 28 - k,
        {
            direct[k] = decode_u32(b, off + 8 + 4 * k);
            assert(b@.subrange(off + 8 + 4 * k, off + 8 + 4 * k + 4) =~= bytes.subrange(4 * (2 + k), 4 * (2 + k) + 4));
            k += 1;
        }
        let size = decode_u32(b, off);
        let indirect1 = decode_u32(b, off + 120);
        let indirect2 = decode_u32(b, off + 124);
        assert(b@.subrange(off as int, off + 4) =~= bytes.subrange(0, 4));
        assert(b@.subrange(off + 4, off + 8) =~= bytes.subrange(4, 8));
        assert(b@.subrange(off + 120, off + 124) =~= bytes.subrange(120, 124));
        assert(b@.subrange(off + 124, off + 128) =~= bytes.subrange(124, 128));
        let ino = DiskInode {
            size,
            alloc_size: w1 % 0x8000_0000,
            direct,
            indirect1,
            indirect2,
            type_: if w1 >= 0x8000_0000 {
                DiskInodeType::Directory
            } else {
                DiskInodeType::File
            },
        };
        proof {
            lemma_decodes_unique(bytes, ino);
        }
        ino
    }

    /// The 128 bytes that hold the inode.
    pub fn to_bytes(&self) -> (r: Vec<u8>)
        requires
            self.alloc_size < 0x8000_0000,
        ensures
            r@.len() == DISK_INODE_SIZE,
            inode_in(r@) == *self,
    {
        let mut r: Vec<u8> = crate::layout::zeros(DISK_INODE_SIZE);
        let w1: u32 = if self.type_ == DiskInodeType::Directory {
            self.alloc_size + 0x8000_0000
        } else {
            self.alloc_size
        };
        encode_u32(r.as_mut_slice(), 0, self.size);
        encode_u32(r.as_mut_slice(), 4, w1);
        let ghost head = r@.subrange(0, 8);
        let mut k: usize = 0;
        while k < 28
            invariant
                k <= 28,
                r@.len() == 128,
                r@.subrange(0, 8) == head,
                forall|x: int| 0 <= x < k ==> #[trigger] r@.subrange(8 + 4 * x, 12 + 4 * x) == u32_le(self.direct@[x]),
            decreases 28 - k,
        {
            let ghost before = r@;
            encode_u32(r.as_mut_slice(), 8 + 4 * k, self.direct[k]);
            assert(r@.subrange(0, 8) =~= before.subrange(0, 8));
            assert forall|x: int| 0 <= x < k + 1 implies #[trigger] r@.subrange(8 + 4 * x, 12 + 4 * x) == u32_le(self.direct@[x]) by {
                if x < k {
                    assert(r@.subrange(8 + 4 * x, 12 + 4 * x) =~= before.subrange(8 + 4 * x, 12 + 4 * x));
                } else {
                    assert(r@.subrange(8 + 4 * x, 12 + 4 * x) =~= u32_le(self.direct@[x]));
                }
            }
            k += 1;
        }
        let ghost mid = r@;
        encode_u32(r.as_mut_slice(), 120, self.indirect1);
        encode_u32(r.as_mut_slice(), 124, self.indirect2);
        proof {
            let b = r@;
            crate::bytes::lemma_le_u32_round_trip(self.size);
            crate::bytes::lemma_le_u32_round_trip(w1);
            crate::bytes::lemma_le_u32_round_trip(self.indirect1);
            crate::bytes::lemma_le_u32_round_trip(self.indirect2);
            assert(b.subrange(0, 8) =~= head);
            assert(head.subrange(0, 4) =~= u32_le(self.size));
            assert(head.subrange(4, 8) =~= u32_le(w1));
            assert(b.subrange(0, 4) =~= u32_le(self.size));
            assert(b.subrange(4, 8) =~= u32_le(w1));
            assert(b.subrange(120, 124) =~= u32_le(self.indirect1));
            assert(b.subrange(124, 128) =~= u32_le(self.indirect2));
            assert forall|x: int| 0 <= x < 28 implies #[trigger] self.direct@[x] == word(b, 2 + x) by {
                assert(b.subrange(8 + 4 * x, 12 + 4 * x) =~= mid.subrange(8 + 4 * x, 12 + 4 * x));
                crate::bytes::lemma_le_u32_round_trip(self.direct@[x]);
                assert(b.subrange(4 * (2 + x), 4 * (2 + x) + 4) =~= b.subrange(8 + 4 * x, 12 + 4 * x));
            }
            assert(word(b, 1) == w1);
            lemma_decodes_unique(b, *self);
        }
        r
    }
}

/// What `read_at(offset, buf)` on `ino` over `img` leaves: `r` bytes of
/// the content from `offset` on at the front of the buffer.
pub open spec fn read_back(ino: DiskInode, img: Seq<Seq<u8>>, offset: int, buf0: Seq<u8>, buf1: Seq<u8>, r: int) -> bool {
    &&& r == if offset >= ino.size {
        0
    } else {
        vstd::math::min(buf0.len() as int, ino.size - offset)
    }
    &&& offset < ino.size ==> buf1 == splice(buf0, 0, content(ino, img).subrange(offset, offset + r))
    &&& offset >= ino.size ==> buf1 == buf0
}

/// What `write_at(offset, data)` on `ino` over `img` leaves as `img2`, when
/// the inode's blocks are in order: the allocated bytes with `data` written
/// over them from `offset` on.
pub open spec fn written_at(ino: DiskInode, img: Seq<Seq<u8>>, offset: int, data: Seq<u8>, r: int, img2: Seq<Seq<u8>>) -> bool {
    &&& r == if offset >= ino.alloc_size {
        0
    } else {
        vstd::math::min(data.len() as int, ino.alloc_size - offset)
    }
    &&& mapping_ok(ino, img) ==> mapping_ok(ino, img2)
    &&& mapping_ok(ino, img) ==> forall|j: int|
        0 <= j < data_blocks_for(ino.alloc_size as int) ==> #[trigger] block_id_of(ino, img2, j) == block_id_of(ino, img, j)
    &&& mapping_ok(ino, img) ==> forall|b: int|
        !is_data_block(ino, img, b) ==> #[trigger] block_at(img2, b) == block_at(img, b)
    &&& (mapping_ok(ino, img) && offset < ino.alloc_size) ==> file_bytes(ino, img2, ino.alloc_size as int) == splice(
        file_bytes(ino, img, ino.alloc_size as int),
        offset,
        data.subrange(0, r),
    )
}

/// What `increase_size(new_size, nb)` on `ino` over `img` leaves as `ino2`
/// over `img2`.
pub open spec fn grown_to(ino: DiskInode, img: Seq<Seq<u8>>, new_size: int, nb: Seq<u32>, ino2: DiskInode, img2: Seq<Seq<u8>>) -> bool {
    &&& ino2.size == new_size
    &&& ino2.alloc_size == new_size
    &&& ino2.type_ == ino.type_
    &&& grow_pre(ino, img, nb) ==> {
        &&& mapping_ok(ino2, img2)
        &&& index_ok(ino2, img2)
    }
}

/// Growing an empty inode needs nothing of the new blocks but that they are
/// distinct and on the device.
pub proof fn lemma_grow_empty(ino: DiskInode, img: Seq<Seq<u8>>, nb: Seq<u32>)
    requires
        image_wf(img),
        ino.alloc_size == 0,
        forall|p1: int, p2: int|
            0 <= p1 < nb.len() && 0 <= p2 < nb.len() && p1 != p2 ==> #[trigger] nb[p1] != #[trigger] nb[p2],
        forall|p: int| 0 <= p < nb.len() ==> #[trigger] nb[p] < img.len(),
    ensures
        grow_pre(ino, img, nb),
{
    assert(data_blocks_for(0) == 0);
}

/// Round trip: after a file is emptied and grown to the length of a byte
/// string `s` with distinct blocks of the device, writing `s` at offset 0 and
/// reading from offset 0 into a buffer at least as long gives `s` back.
pub proof fn lemma_write_read_round_trip(
    ino1: DiskInode,
    img1: Seq<Seq<u8>>,
    s: Seq<u8>,
    nb: Seq<u32>,
    ino2: DiskInode,
    img2: Seq<Seq<u8>>,
    w: int,
    img3: Seq<Seq<u8>>,
    buf0: Seq<u8>,
    buf1: Seq<u8>,
    r: int,
)
    requires
        image_wf(img1),
        ino1.alloc_size == 0,
        s.len() <= MAX_FILE_SIZE,
        forall|p1: int, p2: int|
            0 <= p1 < nb.len() && 0 <= p2 < nb.len() && p1 != p2 ==> #[trigger] nb[p1] != #[trigger] nb[p2],
        forall|p: int| 0 <= p < nb.len() ==> #[trigger] nb[p] < img1.len(),
        grown_to(ino1, img1, s.len() as int, nb, ino2, img2),
        written_at(ino2, img2, 0, s, w, img3),
        read_back(ino2, img3, 0, buf0, buf1, r),
        buf0.len() >= s.len(),
    ensures
        r == s.len(),
        buf1.subrange(0, s.len() as int) == s,
{
    lemma_grow_empty(ino1, img1, nb);
    if s.len() > 0 {
        let c = content(ino2, img3);
        assert(c == file_bytes(ino2, img3, ino2.alloc_size as int));
        assert(s.subrange(0, w) =~= s);
        assert(c =~= s);
        assert(buf1.subrange(0, s.len() as int) =~= s);
    } else {
        assert(buf1.subrange(0, 0) =~= s);
    }
}

/// The data block of a new logical block is within the list of new blocks.
pub proof fn lemma_grown_slot(old_d: int, new_d: int, j: int)
    requires
        0 <= old_d <= j < new_d,
    ensures
        0 <= data_slot(old_d, j) < used_blocks(new_d) - used_blocks(old_d),
{
    lemma_used_step(j);
    lemma_slot_in_range(old_d, new_d, j, new_index_blocks_at(j));
}

} // verus!
