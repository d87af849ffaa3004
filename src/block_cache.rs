//! A bounded set of in-memory copies of device blocks. Every access to the
//! image goes through it; a changed copy reaches the device when it is
//! evicted or flushed. Copies are kept in the order they were read in. No
//! copy is held by a caller beyond one call, so when the cache is full the
//! oldest copy is always free to go, and it goes. The cache belongs to one
//! file system and its one device, so copies are told apart by block
//! index alone.

use std::collections::VecDeque;

use vstd::prelude::*;

use crate::block_dev::{image_wf, zero_block, BlockDevice};
use crate::bytes::{le_u32, splice, u32_le};
use crate::{BLOCK_CACHE_SIZE, BLOCK_SIZE};

verus! {

/// The block `id` of `img`; blocks past the end read as zeros.
pub open spec fn block_at(img: Seq<Seq<u8>>, id: int) -> Seq<u8> {
    if 0 <= id < img.len() {
        img[id]
    } else {
        zero_block()
    }
}

/// `img` with `data` written into block `id` from byte `off` on; a block past
/// the end is left alone.
pub open spec fn write_in_block(img: Seq<Seq<u8>>, id: int, off: int, data: Seq<u8>) -> Seq<
    Seq<u8>,
> {
    if 0 <= id < img.len() {
        img.update(id, splice(img[id], off, data))
    } else {
        img
    }
}

/// The in-memory copy of one block.
pub struct BlockCache {
    /// Index of the block on the device.
    pub block_id: usize,
    /// The block's bytes.
    pub cache: Vec<u8>,
    /// Whether `cache` differs from what was last read or written.
    pub modified: bool,
}

impl BlockCache {
    /// Reads block `block_id` from `device`.
    pub fn new<D: BlockDevice>(block_id: usize, device: &D) -> (c: Self)
        requires
            block_id < device.image().len(),
            device.image()[block_id as int].len() == BLOCK_SIZE,
        ensures
            c.block_id == block_id,
            c.cache@ == device.image()[block_id as int],
            !c.modified,
    {
        let mut cache: Vec<u8> = Vec::new();
        let mut i: usize = 0;
        while i < BLOCK_SIZE
            invariant
                i <= BLOCK_SIZE,
                cache@.len() == i,
            decreases BLOCK_SIZE - i,
        {
            cache.push(0u8);
            i += 1;
        }
        device.read_block(block_id, cache.as_mut_slice());
        BlockCache { block_id, cache, modified: false }
    }

    /// Writes the copy back to `device` if it changed, and marks it clean.
    pub fn sync<D: BlockDevice>(&mut self, device: &mut D)
        requires
            old(self).block_id < old(device).image().len(),
            old(self).cache@.len() == BLOCK_SIZE,
        ensures
            final(self).block_id == old(self).block_id,
            final(self).cache@ == old(self).cache@,
            !final(self).modified,
            final(device).image() == if old(self).modified {
                old(device).image().update(old(self).block_id as int, old(self).cache@)
            } else {
                old(device).image()
            },
    {
        if self.modified {
            device.write_block(self.block_id, self.cache.as_slice());
            self.modified = false;
        }
    }
}

/// No two copies are of the same block.
pub open spec fn ids_unique(q: Seq<BlockCache>) -> bool {
    forall|a: int, b: int|
        0 <= a < q.len() && 0 <= b < q.len() && a != b ==> q[a].block_id != q[b].block_id
}

/// Some copy in `q` is of block `i`.
pub open spec fn is_cached(q: Seq<BlockCache>, i: int) -> bool {
    exists|j: int| 0 <= j < q.len() && q[j].block_id == i
}

/// The image as seen through the copies in `q`.
pub open spec fn overlay(img: Seq<Seq<u8>>, q: Seq<BlockCache>) -> Seq<Seq<u8>> {
    Seq::new(
        img.len(),
        |i: int|
            if is_cached(q, i) {
                q[choose|j: int| 0 <= j < q.len() && q[j].block_id == i].cache@
            } else {
                img[i]
            },
    )
}

proof fn lemma_overlay_cached(img: Seq<Seq<u8>>, q: Seq<BlockCache>, j: int)
    requires
        ids_unique(q),
        0 <= j < q.len(),
        q[j].block_id < img.len(),
    ensures
        overlay(img, q)[q[j].block_id as int] == q[j].cache@,
{
    let i = q[j].block_id as int;
    assert(is_cached(q, i));
    let k = choose|k: int| 0 <= k < q.len() && q[k].block_id == i;
    assert(k == j);
}

proof fn lemma_overlay_uncached(img: Seq<Seq<u8>>, q: Seq<BlockCache>, i: int)
    requires
        0 <= i < img.len(),
        !is_cached(q, i),
    ensures
        overlay(img, q)[i] == img[i],
{
}

/// The bounded set of block copies in front of one device.
pub struct BlockCacheManager<D: BlockDevice> {
    device: D,
    queue: VecDeque<BlockCache>,
}

impl<D: BlockDevice> BlockCacheManager<D> {
    /// The image as the file system sees it: the device with the cached
    /// copies laid over it.
    pub closed spec fn view(&self) -> Seq<Seq<u8>> {
        overlay(self.device.image(), self.queue@)
    }

    /// What the device itself holds.
    pub closed spec fn device_image(&self) -> Seq<Seq<u8>> {
        self.device.image()
    }

    /// No copy holds a change that the device lacks.
    pub closed spec fn all_clean(&self) -> bool {
        forall|j: int| 0 <= j < self.queue@.len() ==> !(#[trigger] self.queue@[j]).modified
    }

    /// Number of copies held.
    pub closed spec fn cached_count(&self) -> nat {
        self.queue@.len()
    }

    /// The device holds blocks of the block size; the cache holds at most
    /// `BLOCK_CACHE_SIZE` copies, of distinct blocks on the device, each of
    /// the block size, and a clean copy equals the device's block.
    pub closed spec fn wf(&self) -> bool {
        let img = self.device.image();
        let q = self.queue@;
        &&& image_wf(img)
        &&& q.len() <= BLOCK_CACHE_SIZE
        &&& ids_unique(q)
        &&& forall|j: int|
            0 <= j < q.len() ==> {
                &&& (#[trigger] q[j]).block_id < img.len()
                &&& q[j].cache@.len() == BLOCK_SIZE
                &&& !q[j].modified ==> q[j].cache@ == img[q[j].block_id as int]
            }
    }

    /// The image seen through a well-formed cache has blocks of the block
    /// size, as many as the device.
    pub proof fn lemma_view_wf(&self)
        requires
            self.wf(),
        ensures
            image_wf(self.view()),
            self.view().len() == self.device_image().len(),
            self.cached_count() <= BLOCK_CACHE_SIZE,
    {
        let img = self.device.image();
        let q = self.queue@;
        assert forall|i: int| 0 <= i < self.view().len() implies (#[trigger] self.view()[i]).len()
            == BLOCK_SIZE by {
            if is_cached(q, i) {
                let j = choose|j: int| 0 <= j < q.len() && q[j].block_id == i;
                lemma_overlay_cached(img, q, j);
            }
        }
    }

    /// Puts an empty cache in front of `device`.
    pub fn new(device: D) -> (m: Self)
        requires
            image_wf(device.image()),
        ensures
            m.wf(),
            m.view() == device.image(),
            m.device_image() == device.image(),
            m.all_clean(),
            m.cached_count() == 0,
    {
        let m = BlockCacheManager { device, queue: VecDeque::new() };
        assert(m.view() =~= m.device.image());
        m
    }

    /// Number of blocks of the image.
    pub fn num_blocks(&self) -> (n: usize)
        requires
            self.wf(),
        ensures
            n == self.view().len(),
    {
        self.device.num_blocks()
    }

    /// Writes every change back and hands over the device.
    pub fn into_device(self) -> (d: D)
        requires
            self.wf(),
        ensures
            d.image() == self.view(),
    {
        let mut m = self;
        m.sync_all();
        m.device
    }

    /// The device behind the cache.
    pub fn device(&self) -> (d: &D)
        ensures
            d.image() == self.device_image(),
    {
        &self.device
    }

    /// Position in the queue of the copy of `block_id`. On a hit nothing
    /// changes. On a miss, when the queue is full, the oldest copy (the front)
    /// is dropped, written back first if it changed; then the block is read
    /// from the device into a clean copy appended at the back.
    fn get_block_cache(&mut self, block_id: usize) -> (idx: usize)
        requires
            old(self).wf(),
            block_id < old(self).view().len(),
        ensures
            final(self).wf(),
            final(self).view() == old(self).view(),
            idx < final(self).queue@.len(),
            final(self).queue@[idx as int].block_id == block_id,
            old(self).all_clean() ==> final(self).all_clean() && final(self).device_image()
                == old(self).device_image(),
            is_cached(old(self).queue@, block_id as int) ==> final(self).queue@ == old(self).queue@
                && final(self).device.image() == old(self).device.image(),
            !is_cached(old(self).queue@, block_id as int) ==> {
                let q0 = old(self).queue@;
                let full = q0.len() == BLOCK_CACHE_SIZE;
                let kept = if full {
                    q0.subrange(1, q0.len() as int)
                } else {
                    q0
                };
                let img = if full && q0[0].modified {
                    old(self).device.image().update(q0[0].block_id as int, q0[0].cache@)
                } else {
                    old(self).device.image()
                };
                &&& final(self).device.image() == img
                &&& final(self).queue@.len() == kept.len() + 1
                &&& forall|j: int| 0 <= j < kept.len() ==> final(self).queue@[j] == kept[j]
                &&& idx == kept.len()
                &&& final(self).queue@[idx as int].cache@ == img[block_id as int]
                &&& !final(self).queue@[idx as int].modified
            },
    {
        let ghost v0 = self.view();
        let mut i: usize = 0;
        while i < self.queue.len()
            invariant
                i <= self.queue@.len(),
                self.wf(),
                self.view() == v0,
                self.queue@ == old(self).queue@,
                self.device.image() == old(self).device.image(),
                self.all_clean() == old(self).all_clean(),
                self.device_image() == old(self).device_image(),
                forall|k: int| 0 <= k < i ==> (#[trigger] self.queue@[k]).block_id != block_id,
            decreases self.queue@.len() - i,
        {
            if self.queue[i].block_id == block_id {
                return i;
            }
            assert(self.queue@[i as int].block_id != block_id);
            i += 1;
        }
        assert(!is_cached(self.queue@, block_id as int));
        if self.queue.len() == BLOCK_CACHE_SIZE {
            self.evict_oldest();
            assert(!is_cached(self.queue@, block_id as int)) by {
                if is_cached(self.queue@, block_id as int) {
                    let j = choose|j: int|
                        0 <= j < self.queue@.len() && self.queue@[j].block_id == block_id;
                    assert(self.queue@[j] == old(self).queue@[j + 1]);
                }
            }
        }
        let c = BlockCache::new(block_id, &self.device);
        let ghost img = self.device.image();
        let ghost q0 = self.queue@;
        assert(!is_cached(q0, block_id as int));
        self.queue.push_back(c);
        let ghost q1 = self.queue@;
        proof {
            let oq = old(self).queue@;
            if oq.len() == BLOCK_CACHE_SIZE {
                assert(q0 =~= oq.subrange(1, oq.len() as int));
            }
        }
        assert forall|a: int, b: int|
            0 <= a < q1.len() && 0 <= b < q1.len() && a != b implies q1[a].block_id
            != q1[b].block_id by {
            if a == q1.len() - 1 {
                assert(q1[b] == q0[b]);
            } else if b == q1.len() - 1 {
                assert(q1[a] == q0[a]);
            } else {
                assert(q1[a] == q0[a]);
                assert(q1[b] == q0[b]);
            }
        }
        assert forall|k: int| 0 <= k < img.len() implies overlay(img, q1)[k] == overlay(
            img,
            q0,
        )[k] by {
            if k == block_id {
                lemma_overlay_cached(img, q1, q1.len() - 1);
                lemma_overlay_uncached(img, q0, k);
            } else if is_cached(q0, k) {
                let j = choose|j: int| 0 <= j < q0.len() && q0[j].block_id == k;
                lemma_overlay_cached(img, q0, j);
                assert(q1[j] == q0[j]);
                lemma_overlay_cached(img, q1, j);
            } else {
                assert(!is_cached(q1, k)) by {
                    if is_cached(q1, k) {
                        let j = choose|j: int| 0 <= j < q1.len() && q1[j].block_id == k;
                        assert(q1[j] == q0[j]);
                    }
                }
                lemma_overlay_uncached(img, q0, k);
                lemma_overlay_uncached(img, q1, k);
            }
        }
        assert(self.view() =~= v0);
        self.queue.len() - 1
    }

    /// Drops the oldest copy, writing it back first if it changed.
    fn evict_oldest(&mut self)
        requires
            old(self).wf(),
            old(self).queue@.len() > 0,
        ensures
            final(self).wf(),
            final(self).view() == old(self).view(),
            final(self).queue@.len() == old(self).queue@.len() - 1,
            forall|j: int|
                0 <= j < final(self).queue@.len() ==> final(self).queue@[j] == old(self).queue@[j
                    + 1],
            old(self).all_clean() ==> final(self).all_clean() && final(self).device_image()
                == old(self).device_image(),
            final(self).device.image() == if old(self).queue@[0].modified {
                old(self).device.image().update(old(self).queue@[0].block_id as int, old(self).queue@[0].cache@)
            } else {
                old(self).device.image()
            },
    {
        let ghost v0 = self.view();
        let ghost img0 = self.device.image();
        let ghost q0 = self.queue@;
        let mut c = match self.queue.pop_front() {
            Some(c) => c,
            None => {
                proof {
                    assert(false);
                }
                return;
            },
        };
        let ghost id = c.block_id as int;
        c.sync(&mut self.device);
        let ghost img1 = self.device.image();
        let ghost q1 = self.queue@;
        assert(img1[id] == q0[0].cache@);
        assert forall|j: int| 0 <= j < q1.len() implies q1[j] == q0[j + 1] by {}
        assert forall|a: int, b: int|
            0 <= a < q1.len() && 0 <= b < q1.len() && a != b implies q1[a].block_id
            != q1[b].block_id by {
            assert(q1[a] == q0[a + 1]);
            assert(q1[b] == q0[b + 1]);
        }
        assert forall|j: int| 0 <= j < q1.len() implies {
            &&& (#[trigger] q1[j]).block_id < img1.len()
            &&& q1[j].cache@.len() == BLOCK_SIZE
            &&& !q1[j].modified ==> q1[j].cache@ == img1[q1[j].block_id as int]
        } by {
            assert(q1[j] == q0[j + 1]);
            assert(q0[j + 1].block_id != q0[0].block_id);
        }
        assert forall|k: int| 0 <= k < img1.len() implies (#[trigger] img1[k]).len()
            == BLOCK_SIZE by {}
        assert forall|k: int| 0 <= k < img1.len() implies overlay(img1, q1)[k] == v0[k] by {
            if k == id {
                lemma_overlay_cached(img0, q0, 0);
                assert(!is_cached(q1, k)) by {
                    if is_cached(q1, k) {
                        let j = choose|j: int| 0 <= j < q1.len() && q1[j].block_id == k;
                        assert(q1[j] == q0[j + 1]);
                    }
                }
                lemma_overlay_uncached(img1, q1, k);
            } else if is_cached(q1, k) {
                let j = choose|j: int| 0 <= j < q1.len() && q1[j].block_id == k;
                lemma_overlay_cached(img1, q1, j);
                assert(q1[j] == q0[j + 1]);
                lemma_overlay_cached(img0, q0, j + 1);
            } else {
                assert(!is_cached(q0, k)) by {
                    if is_cached(q0, k) {
                        let j = choose|j: int| 0 <= j < q0.len() && q0[j].block_id == k;
                        assert(j != 0);
                        assert(q1[j - 1] == q0[j]);
                    }
                }
                lemma_overlay_uncached(img1, q1, k);
                lemma_overlay_uncached(img0, q0, k);
            }
        }
        assert(self.view() =~= v0);
        proof {
            if old(self).all_clean() {
                assert(!q0[0].modified);
            }
        }
    }
}


proof fn lemma_overlay_replace(img: Seq<Seq<u8>>, q: Seq<BlockCache>, idx: int, c: BlockCache)
    requires
        ids_unique(q),
        0 <= idx < q.len(),
        q[idx].block_id < img.len(),
        c.block_id == q[idx].block_id,
    ensures
        ids_unique(q.update(idx, c)),
        overlay(img, q.update(idx, c)) == overlay(img, q).update(
            q[idx].block_id as int,
            c.cache@,
        ),
{
    let q1 = q.update(idx, c);
    let id = q[idx].block_id as int;
    assert forall|a: int, b: int|
        0 <= a < q1.len() && 0 <= b < q1.len() && a != b implies q1[a].block_id
        != q1[b].block_id by {
        assert(q1[a].block_id == q[a].block_id);
        assert(q1[b].block_id == q[b].block_id);
    }
    assert forall|k: int| 0 <= k < img.len() implies overlay(img, q1)[k] == overlay(
        img,
        q,
    ).update(id, c.cache@)[k] by {
        if k == id {
            lemma_overlay_cached(img, q1, idx);
        } else if is_cached(q, k) {
            let j = choose|j: int| 0 <= j < q.len() && q[j].block_id == k;
            lemma_overlay_cached(img, q, j);
            lemma_overlay_cached(img, q1, j);
        } else {
            assert(!is_cached(q1, k)) by {
                if is_cached(q1, k) {
                    let j = choose|j: int| 0 <= j < q1.len() && q1[j].block_id == k;
                    assert(q1[j].block_id == q[j].block_id);
                }
            }
            lemma_overlay_uncached(img, q, k);
            lemma_overlay_uncached(img, q1, k);
        }
    }
    assert(overlay(img, q1) =~= overlay(img, q).update(id, c.cache@));
}

impl<D: BlockDevice> BlockCacheManager<D> {
    /// A copy of block `block_id`.
    pub fn read_block(&mut self, block_id: usize) -> (r: Vec<u8>)
        requires
            old(self).wf(),
        ensures
            final(self).wf(),
            final(self).view() == old(self).view(),
            r@ == block_at(old(self).view(), block_id as int),
            r@.len() == BLOCK_SIZE,
    {
        proof {
            self.lemma_view_wf();
        }
        let mut r: Vec<u8> = Vec::new();
        if block_id >= self.device.num_blocks() {
            let mut i: usize = 0;
            while i < BLOCK_SIZE
                invariant
                    i <= BLOCK_SIZE,
                    r@ == Seq::new(i as nat, |k: int| 0u8),
                decreases BLOCK_SIZE - i,
            {
                r.push(0u8);
                i += 1;
                assert(r@ =~= Seq::new(i as nat, |k: int| 0u8));
            }
            assert(r@ =~= zero_block());
            return r;
        }
        let idx = self.get_block_cache(block_id);
        proof {
            lemma_overlay_cached(self.device.image(), self.queue@, idx as int);
        }
        let ghost want = self.queue@[idx as int].cache@;
        let mut i: usize = 0;
        while i < BLOCK_SIZE
            invariant
                i <= BLOCK_SIZE,
                idx < self.queue@.len(),
                want == self.queue@[idx as int].cache@,
                want.len() == BLOCK_SIZE,
                r@ == want.subrange(0, i as int),
            decreases BLOCK_SIZE - i,
        {
            r.push(self.queue[idx].cache[i]);
            i += 1;
            assert(r@ =~= want.subrange(0, i as int));
        }
        assert(r@ =~= want);
        r
    }

    /// The little-endian `u32` at `offset` in block `block_id`.
    pub fn read_u32(&mut self, block_id: usize, offset: usize) -> (r: u32)
        requires
            old(self).wf(),
            offset + 4 <= BLOCK_SIZE,
        ensures
            final(self).wf(),
            final(self).view() == old(self).view(),
            r == le_u32(block_at(old(self).view(), block_id as int).subrange(offset as int, offset + 4)),
    {
        let b = self.read_block(block_id);
        crate::bytes::decode_u32(b.as_slice(), offset)
    }

    /// Copies `len` bytes from `offset` in block `block_id` into `buf` at
    /// `start`.
    pub fn read_into(&mut self, block_id: usize, offset: usize, len: usize, buf: &mut [u8], start: usize)
        requires
            old(self).wf(),
            offset + len <= BLOCK_SIZE,
            start + len <= old(buf)@.len(),
        ensures
            final(self).wf(),
            final(self).view() == old(self).view(),
            final(buf)@ == splice(
                old(buf)@,
                start as int,
                block_at(old(self).view(), block_id as int).subrange(offset as int, offset + len),
            ),
    {
        let b = self.read_block(block_id);
        let ghost src = b@.subrange(offset as int, offset + len);
        let n = buf.len();
        let mut i: usize = 0;
        while i < len
            invariant
                i <= len,
                offset + len <= BLOCK_SIZE,
                start + len <= buf@.len(),
                buf@.len() == old(buf)@.len(),
                n == buf@.len(),
                b@.len() == BLOCK_SIZE,
                src == b@.subrange(offset as int, offset + len),
                buf@ == splice(old(buf)@, start as int, src.subrange(0, i as int)),
            decreases len - i,
        {
            buf[start + i] = b[offset + i];
            i += 1;
            assert(buf@ =~= splice(old(buf)@, start as int, src.subrange(0, i as int)));
        }
        assert(src.subrange(0, len as int) =~= src);
    }

    /// Writes `data` into block `block_id` from `offset` on. Blocks past the
    /// end of the device ignore writes.
    pub fn write_bytes(&mut self, block_id: usize, offset: usize, data: &[u8])
        requires
            old(self).wf(),
            offset + data@.len() <= BLOCK_SIZE,
        ensures
            final(self).wf(),
            final(self).view() == write_in_block(old(self).view(), block_id as int, offset as int, data@),
            final(self).device_image() == old(self).device_image() || !old(self).all_clean(),
    {
        proof {
            self.lemma_view_wf();
        }
        if block_id >= self.device.num_blocks() {
            return;
        }
        let idx = self.get_block_cache(block_id);
        let ghost v1 = self.view();
        let ghost img = self.device.image();
        let ghost q = self.queue@;
        proof {
            lemma_overlay_cached(img, q, idx as int);
        }
        let ghost old_bytes = q[idx as int].cache@;
        let mut c = BlockCache { block_id, cache: Vec::new(), modified: true };
        let mut i: usize = 0;
        while i < BLOCK_SIZE
            invariant
                i <= BLOCK_SIZE,
                idx < self.queue@.len(),
                self.queue@ == q,
                old_bytes == q[idx as int].cache@,
                old_bytes.len() == BLOCK_SIZE,
                offset + data@.len() <= BLOCK_SIZE,
                c.block_id == block_id,
                c.modified,
                c.cache@ == splice(old_bytes, offset as int, data@).subrange(0, i as int),
            decreases BLOCK_SIZE - i,
        {
            if offset <= i && i < offset + data.len() {
                c.cache.push(data[i - offset]);
            } else {
                c.cache.push(self.queue[idx].cache[i]);
            }
            i += 1;
            assert(c.cache@ =~= splice(old_bytes, offset as int, data@).subrange(0, i as int));
        }
        assert(c.cache@ =~= splice(old_bytes, offset as int, data@));
        proof {
            lemma_overlay_replace(img, q, idx as int, c);
        }
        let ghost c_new = c;
        let _ = self.queue.remove(idx);
        self.queue.insert(idx, c);
        assert(self.queue@ =~= q.update(idx as int, c_new));
        assert(self.view() =~= write_in_block(v1, block_id as int, offset as int, data@));
    }

    /// Stores `v` as four little-endian bytes at `offset` in block `block_id`.
    pub fn write_u32(&mut self, block_id: usize, offset: usize, v: u32)
        requires
            old(self).wf(),
            offset + 4 <= BLOCK_SIZE,
        ensures
            final(self).wf(),
            final(self).view() == write_in_block(old(self).view(), block_id as int, offset as int, u32_le(v)),
    {
        let mut b: Vec<u8> = Vec::new();
        b.push(0u8);
        b.push(0u8);
        b.push(0u8);
        b.push(0u8);
        crate::bytes::encode_u32(b.as_mut_slice(), 0, v);
        assert(b@ =~= u32_le(v));
        self.write_bytes(block_id, offset, b.as_slice());
    }

    /// Writes every changed copy back to the device. The image seen through
    /// the cache does not change; afterwards the device holds it and every
    /// copy is clean. When every copy was clean already, the device is not
    /// written at all.
    pub fn sync_all(&mut self)
        requires
            old(self).wf(),
        ensures
            final(self).wf(),
            final(self).view() == old(self).view(),
            final(self).all_clean(),
            final(self).device_image() == final(self).view(),
            final(self).cached_count() == old(self).cached_count(),
            old(self).all_clean() ==> final(self).device_image() == old(self).device_image(),
    {
        let ghost v0 = self.view();
        let ghost q0 = self.queue@;
        let ghost img0 = self.device.image();
        let mut i: usize = 0;
        while i < self.queue.len()
            invariant
                i <= self.queue@.len(),
                self.wf(),
                self.view() == v0,
                self.queue@.len() == q0.len(),
                forall|j: int| 0 <= j < i ==> !(#[trigger] self.queue@[j]).modified,
                forall|j: int| 0 <= j < self.queue@.len() ==> (#[trigger] self.queue@[j]).block_id == q0[j].block_id,
                old(self).all_clean() ==> self.device.image() == img0 && self.all_clean(),
            decreases self.queue@.len() - i,
        {
            let ghost q = self.queue@;
            let ghost img = self.device.image();
            let mut c = match self.queue.remove(i) {
                Some(c) => c,
                None => {
                    proof {
                        assert(false);
                    }
                    return;
                },
            };
            assert(c == q[i as int]);
            c.sync(&mut self.device);
            let ghost img1 = self.device.image();
            proof {
                lemma_overlay_cached(img, q, i as int);
                lemma_overlay_replace(img, q, i as int, c);
            }
            let ghost c_synced = c;
            self.queue.insert(i, c);
            let ghost q1 = self.queue@;
            assert(q1 =~= q.update(i as int, c_synced));
            assert(q1 == q.update(i as int, q1[i as int]));
            assert forall|k: int| 0 <= k < img1.len() implies overlay(img1, q1)[k] == overlay(img, q1)[k] by {
                if is_cached(q1, k) {
                    let j = choose|j: int| 0 <= j < q1.len() && q1[j].block_id == k;
                    lemma_overlay_cached(img1, q1, j);
                    lemma_overlay_cached(img, q1, j);
                } else {
                    assert(k != q[i as int].block_id);
                    lemma_overlay_uncached(img1, q1, k);
                    lemma_overlay_uncached(img, q1, k);
                }
            }
            assert(overlay(img1, q1) =~= overlay(img, q1));
            assert(q1[i as int].cache@ == q[i as int].cache@);
            assert(overlay(img, q) =~= overlay(img, q).update(q[i as int].block_id as int, q[i as int].cache@));
            assert forall|j: int| 0 <= j < q1.len() implies {
                &&& (#[trigger] q1[j]).block_id < img1.len()
                &&& q1[j].cache@.len() == BLOCK_SIZE
                &&& !q1[j].modified ==> q1[j].cache@ == img1[q1[j].block_id as int]
            } by {
                if j != i {
                    assert(q1[j] == q[j]);
                    assert(q[j].block_id != q[i as int].block_id);
                }
            }
            assert forall|k: int| 0 <= k < img1.len() implies (#[trigger] img1[k]).len() == BLOCK_SIZE by {}
            i += 1;
        }
        let ghost img = self.device.image();
        let ghost q = self.queue@;
        assert forall|k: int| 0 <= k < img.len() implies overlay(img, q)[k] == img[k] by {
            if is_cached(q, k) {
                let j = choose|j: int| 0 <= j < q.len() && q[j].block_id == k;
                lemma_overlay_cached(img, q, j);
            }
        }
        assert(self.view() =~= self.device.image());
    }
}

/// Writing bytes within a block keeps every block at the block size.
pub proof fn lemma_write_keeps_wf(img: Seq<Seq<u8>>, id: int, off: int, data: Seq<u8>)
    requires
        image_wf(img),
        0 <= off,
        off + data.len() <= BLOCK_SIZE,
    ensures
        image_wf(write_in_block(img, id, off, data)),
        write_in_block(img, id, off, data).len() == img.len(),
{
    let img2 = write_in_block(img, id, off, data);
    assert forall|i: int| 0 <= i < img2.len() implies (#[trigger] img2[i]).len() == BLOCK_SIZE by {
        if 0 <= id < img.len() && i == id {
            assert(img2[i] == splice(img[id], off, data));
        }
    }
}

} // verus!
