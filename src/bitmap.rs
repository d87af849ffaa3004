//! Allocation of single bits in a run of bitmap blocks. Bit `k` of the
//! region is bit `k % 8` of byte `(k % 4096) / 8` of the region's block
//! `k / 4096`; read as 64 little-endian 64-bit groups per block this is bit
//! `k % 64` of group `(k % 4096) / 64`.

use vstd::prelude::*;

use crate::block_cache::{block_at, write_in_block, BlockCacheManager};
use crate::block_dev::{image_wf, BlockDevice};
use crate::{BLOCK_BITS, BLOCK_SIZE};

verus! {

/// Whether bit `k` of the bitmap region starting at block `start` is set in
/// `img`.
pub open spec fn bit_set(img: Seq<Seq<u8>>, start: int, k: int) -> bool {
    (block_at(img, start + k / 4096)[(k % 4096) / 8] >> ((k % 8) as u8)) & 1u8 == 1u8
}

/// `img` with bit `k` of the region at `start` set to `value`.
pub open spec fn with_bit(img: Seq<Seq<u8>>, start: int, k: int, value: bool) -> Seq<Seq<u8>> {
    let blk = start + k / 4096;
    let byte = block_at(img, blk)[(k % 4096) / 8];
    let mask = 1u8 << ((k % 8) as u8);
    write_in_block(
        img,
        blk,
        (k % 4096) / 8,
        seq![if value { byte | mask } else { byte & !mask }],
    )
}

/// The result `r` of an allocation on `old_img` that left `new_img`: the
/// lowest clear bit below `max` was set, or there was none and nothing
/// changed.
pub open spec fn alloc_result(
    old_img: Seq<Seq<u8>>,
    start: int,
    max: int,
    r: Option<usize>,
    new_img: Seq<Seq<u8>>,
) -> bool {
    match r {
        Some(k) => {
            &&& k < max
            &&& !bit_set(old_img, start, k as int)
            &&& forall|j: int| 0 <= j < k ==> #[trigger] bit_set(old_img, start, j)
            &&& new_img == with_bit(old_img, start, k as int, true)
        },
        None => {
            &&& forall|j: int| 0 <= j < max ==> #[trigger] bit_set(old_img, start, j)
            &&& new_img == old_img
        },
    }
}

proof fn lemma_bit_pos(b: int, i: int, j: int)
    requires
        0 <= b,
        0 <= i < 512,
        0 <= j < 8,
    ensures
        (b * 4096 + i * 8 + j) / 4096 == b,
        ((b * 4096 + i * 8 + j) % 4096) / 8 == i,
        (b * 4096 + i * 8 + j) % 8 == j,
{
    assert((b * 4096 + i * 8 + j) / 4096 == b) by (nonlinear_arith)
        requires
            0 <= b,
            0 <= i < 512,
            0 <= j < 8,
    ;
    assert((b * 4096 + i * 8 + j) % 4096 == i * 8 + j) by (nonlinear_arith)
        requires
            0 <= b,
            0 <= i < 512,
            0 <= j < 8,
    ;
    assert((b * 4096 + i * 8 + j) % 8 == j) by (nonlinear_arith)
        requires
            0 <= b,
            0 <= i < 512,
            0 <= j < 8,
    ;
}

proof fn lemma_bit_split(k: int)
    requires
        0 <= k,
    ensures
        k == (k / 4096) * 4096 + ((k % 4096) / 8) * 8 + k % 8,
        0 <= (k % 4096) / 8 < 512,
        0 <= k % 8 < 8,
{
    assert(k == (k / 4096) * 4096 + ((k % 4096) / 8) * 8 + k % 8) by (nonlinear_arith)
        requires
            0 <= k,
    ;
}

proof fn lemma_byte_bits(b: u8, m: u8, j: u8)
    requires
        j < 8,
    ensures
        b == 0xffu8 ==> (b >> j) & 1u8 == 1u8,
        m < 8 ==> (((b | (1u8 << m)) >> j) & 1u8 == 1u8) == (j == m || (b >> j) & 1u8 == 1u8),
        m < 8 ==> (((b & !(1u8 << m)) >> j) & 1u8 == 1u8) == (j != m && (b >> j) & 1u8 == 1u8),
{
    assert(b == 0xffu8 ==> (b >> j) & 1u8 == 1u8) by (bit_vector)
        requires
            j < 8,
    ;
    assert(m < 8 ==> (((b | (1u8 << m)) >> j) & 1u8 == 1u8) == (j == m || (b >> j) & 1u8 == 1u8))
        by (bit_vector)
        requires
            j < 8,
    ;
    assert(m < 8 ==> (((b & !(1u8 << m)) >> j) & 1u8 == 1u8) == (j != m && (b >> j) & 1u8
        == 1u8)) by (bit_vector)
        requires
            j < 8,
    ;
}

/// Setting or clearing bit `k` changes that bit and no other bit of the
/// region.
pub proof fn lemma_with_bit(img: Seq<Seq<u8>>, start: int, k: int, value: bool, j: int)
    requires
        image_wf(img),
        0 <= start,
        0 <= k,
        0 <= j,
        start + k / 4096 < img.len(),
    ensures
        bit_set(with_bit(img, start, k, value), start, j) == if j == k {
            value
        } else {
            bit_set(img, start, j)
        },
{
    let img1 = with_bit(img, start, k, value);
    lemma_bit_split(k);
    lemma_bit_split(j);
    let bk = start + k / 4096;
    let bj = start + j / 4096;
    let ik = (k % 4096) / 8;
    let ij = (j % 4096) / 8;
    let byte = block_at(img, bk)[ik];
    let mask = 1u8 << ((k % 8) as u8);
    let nb: u8 = if value {
        byte | mask
    } else {
        byte & !mask
    };
    assert(img1 == img.update(bk, crate::bytes::splice(img[bk], ik, seq![nb])));
    if bj == bk && ij == ik {
        assert(block_at(img1, bj)[ij] == nb);
        lemma_byte_bits(byte, (k % 8) as u8, (j % 8) as u8);
        if j % 8 == k % 8 {
            assert(j == k);
        }
    } else {
        assert(block_at(img1, bj)[ij] == block_at(img, bj)[ij]);
        if j == k {
            assert(false);
        }
    }
}

/// Position of the lowest clear bit of `b`.
fn lowest_clear_bit(b: u8) -> (j: u8)
    requires
        b != 0xffu8,
    ensures
        j < 8,
        (b >> j) & 1u8 == 0u8,
        forall|k: u8| k < j ==> #[trigger] ((b >> k) & 1u8) == 1u8,
{
    let mut j: u8 = 0;
    while j < 8
        invariant
            j <= 8,
            forall|k: u8| k < j ==> #[trigger] ((b >> k) & 1u8) == 1u8,
        decreases 8 - j,
    {
        if (b >> j) & 1u8 == 0u8 {
            return j;
        }
        assert((b >> j) & 1u8 == 1u8) by (bit_vector)
            requires
                (b >> j) & 1u8 != 0u8,
        ;
        j += 1;
    }
    assert((b >> 0u8) & 1u8 == 1u8);
    assert((b >> 1u8) & 1u8 == 1u8);
    assert((b >> 2u8) & 1u8 == 1u8);
    assert((b >> 3u8) & 1u8 == 1u8);
    assert((b >> 4u8) & 1u8 == 1u8);
    assert((b >> 5u8) & 1u8 == 1u8);
    assert((b >> 6u8) & 1u8 == 1u8);
    assert((b >> 7u8) & 1u8 == 1u8);
    assert(b == 0xffu8) by (bit_vector)
        requires
            (b >> 0u8) & 1u8 == 1u8,
            (b >> 1u8) & 1u8 == 1u8,
            (b >> 2u8) & 1u8 == 1u8,
            (b >> 3u8) & 1u8 == 1u8,
            (b >> 4u8) & 1u8 == 1u8,
            (b >> 5u8) & 1u8 == 1u8,
            (b >> 6u8) & 1u8 == 1u8,
            (b >> 7u8) & 1u8 == 1u8,
    ;
    j
}

/// A run of bitmap blocks: where it starts and how many blocks it has.
pub struct Bitmap {
    start_block_id: usize,
    blocks_counts: usize,
}

impl Bitmap {
    /// First block of the region.
    pub closed spec fn start(&self) -> nat {
        self.start_block_id as nat
    }

    /// Number of blocks of the region.
    pub closed spec fn blocks(&self) -> nat {
        self.blocks_counts as nat
    }

    /// Number of bits the bitmap holds.
    pub open spec fn max_bits(&self) -> nat {
        self.blocks() * BLOCK_BITS as nat
    }

    /// A bitmap of `blocks_counts` blocks from block `start_block_id` on.
    pub fn new(start_block_id: usize, blocks_counts: usize) -> (b: Self)
        ensures
            b.start() == start_block_id,
            b.blocks() == blocks_counts,
    {
        Bitmap { start_block_id, blocks_counts }
    }

    /// Number of bits the bitmap holds.
    pub fn maximum(&self) -> (r: usize)
        requires
            self.max_bits() <= usize::MAX,
        ensures
            r == self.max_bits(),
    {
        self.blocks_counts * BLOCK_BITS
    }

    /// Sets the lowest clear bit and returns its index; `None` when every bit
    /// is set.
    pub fn alloc_bit<D: BlockDevice>(&self, cache: &mut BlockCacheManager<D>) -> (r: Option<usize>)
        requires
            old(cache).wf(),
            self.start() + self.blocks() <= usize::MAX,
            self.max_bits() <= usize::MAX,
        ensures
            final(cache).wf(),
            alloc_result(old(cache).view(), self.start() as int, self.max_bits() as int, r, final(cache).view()),
    {
        let ghost img = cache.view();
        let ghost start = self.start() as int;
        proof {
            cache.lemma_view_wf();
        }
        let mut block_id: usize = 0;
        while block_id < self.blocks_counts
            invariant
                block_id <= self.blocks(),
                self.start() + self.blocks() <= usize::MAX,
                self.max_bits() <= usize::MAX,
                cache.wf(),
                cache.view() == img,
                img == old(cache).view(),
                image_wf(img),
                start == self.start(),
                forall|k: int| 0 <= k < block_id * 4096 ==> #[trigger] bit_set(img, start, k),
            decreases self.blocks() - block_id,
        {
            let blk = cache.read_block(self.start_block_id + block_id);
            let mut i: usize = 0;
            while i < BLOCK_SIZE
                invariant
                    i <= BLOCK_SIZE,
                    block_id < self.blocks(),
                    self.start() + self.blocks() <= usize::MAX,
                    self.max_bits() <= usize::MAX,
                    cache.wf(),
                    cache.view() == img,
                    img == old(cache).view(),
                    image_wf(img),
                    start == self.start(),
                    blk@ == block_at(img, start + block_id),
                    blk@.len() == BLOCK_SIZE,
                    forall|k: int| 0 <= k < block_id * 4096 + i * 8 ==> #[trigger] bit_set(img, start, k),
                decreases BLOCK_SIZE - i,
            {
                let byte = blk[i];
                if byte != 0xffu8 {
                    let j = lowest_clear_bit(byte);
                    let bit: usize = block_id * BLOCK_BITS + i * 8 + j as usize;
                    proof {
                        lemma_bit_pos(block_id as int, i as int, j as int);
                        assert(bit < self.max_bits()) by (nonlinear_arith)
                            requires
                                bit == block_id * 4096 + i * 8 + j,
                                block_id < self.blocks(),
                                i < 512,
                                j < 8,
                                self.max_bits() == self.blocks() * 4096,
                        ;
                        assert forall|k: int| 0 <= k < bit implies #[trigger] bit_set(img, start, k) by {
                            if k >= block_id * 4096 + i * 8 {
                                let jj = k - (block_id * 4096 + i * 8);
                                lemma_bit_pos(block_id as int, i as int, jj);
                                assert(((byte >> (jj as u8)) & 1u8) == 1u8);
                            }
                        }
                    }
                    let mut nb: Vec<u8> = Vec::new();
                    nb.push(byte | (1u8 << j));
                    proof {
                        assert(nb@ =~= seq![byte | (1u8 << ((bit as int % 8) as u8))]);
                        assert(bit as int / 4096 == block_id);
                        assert((bit as int % 4096) / 8 == i);
                        assert(byte == block_at(img, start + bit as int / 4096)[(bit as int % 4096) / 8]);
                    }
                    cache.write_bytes(self.start_block_id + block_id, i, nb.as_slice());
                    assert(cache.view() == with_bit(img, start, bit as int, true));

                    return Some(bit);
                }
                proof {
                    assert forall|k: int| 0 <= k < block_id * 4096 + (i + 1) * 8 implies #[trigger] bit_set(img, start, k) by {
                        if k >= block_id * 4096 + i * 8 {
                            let jj = k - (block_id * 4096 + i * 8);
                            lemma_bit_pos(block_id as int, i as int, jj);
                            lemma_byte_bits(byte, 0, jj as u8);
                        }
                    }
                }
                i += 1;
            }
            block_id += 1;
        }
        None
    }

    /// Clears bit `bit`, which must be set.
    pub fn dealloc<D: BlockDevice>(&self, cache: &mut BlockCacheManager<D>, bit: usize)
        requires
            old(cache).wf(),
            self.start() + self.blocks() <= usize::MAX,
            bit < self.max_bits(),
            bit_set(old(cache).view(), self.start() as int, bit as int),
        ensures
            final(cache).wf(),
            final(cache).view() == with_bit(old(cache).view(), self.start() as int, bit as int, false),
    {
        let (block_pos, bits64_pos, inner_pos) = decomposition(bit);
        proof {
            cache.lemma_view_wf();
            lemma_bit_split(bit as int);
            assert(block_pos < self.blocks()) by (nonlinear_arith)
                requires
                    block_pos == bit / 4096,
                    bit < self.blocks() * 4096,
            ;
        }
        let byte_pos = bits64_pos * 8 + inner_pos / 8;
        let shift = inner_pos % 8;
        let blk = cache.read_block(self.start_block_id + block_pos);
        let byte = blk[byte_pos];
        let mut nb: Vec<u8> = Vec::new();
        nb.push(byte & !(1u8 << (shift as u8)));
        proof {
            assert(byte_pos == (bit as int % 4096) / 8);
            assert(shift == bit as int % 8);
            assert(nb@ =~= seq![byte & !(1u8 << ((bit as int % 8) as u8))]);
        }
        cache.write_bytes(self.start_block_id + block_pos, byte_pos, nb.as_slice());
    }
}

/// Splits a bit index into its block in the region, its 64-bit group in that
/// block and its position in the group.
pub fn decomposition(bit: usize) -> (r: (usize, usize, usize))
    ensures
        r.0 == bit / 4096,
        r.1 == (bit % 4096) / 64,
        r.2 == bit % 64,
        r.1 < 64,
        r.2 < 64,
        r.1 * 8 + r.2 / 8 == (bit % 4096) / 8,
        r.2 % 8 == bit % 8,
{
    let block_id = bit / BLOCK_BITS;
    let rest = bit % BLOCK_BITS;
    proof {
        let g = rest / 64;
        let p = rest % 64;
        assert(g * 8 + p / 8 == rest / 8) by (nonlinear_arith)
            requires
                g == rest / 64,
                p == rest % 64,
                0 <= rest,
        ;
        assert(p % 8 == rest % 8) by (nonlinear_arith)
            requires
                p == rest % 64,
                0 <= rest,
        ;
        assert(rest % 8 == bit % 8) by (nonlinear_arith)
            requires
                rest == bit % 4096,
                0 <= bit,
        ;
    }
    (block_id, rest / 64, rest % 64)
}

/// Two allocations in a row, with nothing freed in between, both
/// succeeding, hand out distinct bits, the second above the first.
pub proof fn lemma_successive_allocs_increase(
    img0: Seq<Seq<u8>>,
    start: int,
    blocks: int,
    k1: usize,
    img1: Seq<Seq<u8>>,
    k2: usize,
    img2: Seq<Seq<u8>>,
)
    requires
        image_wf(img0),
        0 <= start,
        0 <= blocks,
        start + blocks <= img0.len(),
        alloc_result(img0, start, blocks * 4096, Some(k1), img1),
        alloc_result(img1, start, blocks * 4096, Some(k2), img2),
    ensures
        k1 < k2,
{
    lemma_in_region(start, blocks, k1 as int, img0.len() as int);
    if k2 <= k1 {
        lemma_with_bit(img0, start, k1 as int, true, k2 as int);
        if k2 < k1 {
            assert(bit_set(img0, start, k2 as int));
        }
    }
}

/// Freeing a bit below which every bit is taken makes the next allocation
/// return that bit again, and leaves the image as it was before the free.
pub proof fn lemma_dealloc_then_alloc(
    img0: Seq<Seq<u8>>,
    start: int,
    blocks: int,
    bit: usize,
    img1: Seq<Seq<u8>>,
    r: Option<usize>,
    img2: Seq<Seq<u8>>,
)
    requires
        image_wf(img0),
        0 <= start,
        0 <= blocks,
        start + blocks <= img0.len(),
        bit < blocks * 4096,
        bit_set(img0, start, bit as int),
        forall|j: int| 0 <= j < bit ==> #[trigger] bit_set(img0, start, j),
        img1 == with_bit(img0, start, bit as int, false),
        alloc_result(img1, start, blocks * 4096, r, img2),
    ensures
        r == Some(bit),
        img2 == img0,
{
    lemma_in_region(start, blocks, bit as int, img0.len() as int);
    lemma_with_bit(img0, start, bit as int, false, bit as int);
    match r {
        Some(k) => {
            lemma_with_bit(img0, start, bit as int, false, k as int);
            if k < bit {
                lemma_with_bit(img0, start, bit as int, false, k as int);
            } else if k > bit {
                assert(bit_set(img1, start, bit as int));
            }
        },
        None => {
            assert(bit_set(img1, start, bit as int));
        },
    }
    lemma_clear_then_set(img0, start, bit as int);
}

/// Clearing a set bit and setting it again leaves the image as it was.
pub proof fn lemma_clear_then_set(img: Seq<Seq<u8>>, start: int, k: int)
    requires
        image_wf(img),
        0 <= start,
        0 <= k,
        start + k / 4096 < img.len(),
        bit_set(img, start, k),
    ensures
        with_bit(with_bit(img, start, k, false), start, k, true) == img,
{
    lemma_bit_split(k);
    let blk = start + k / 4096;
    let i = (k % 4096) / 8;
    let s = (k % 8) as u8;
    let byte = img[blk][i];
    let img1 = with_bit(img, start, k, false);
    assert(img1[blk][i] == byte & !(1u8 << s));
    let b2 = (byte & !(1u8 << s)) | (1u8 << s);
    assert(b2 == byte) by (bit_vector)
        requires
            s < 8,
            (byte >> s) & 1u8 == 1u8,
            b2 == (byte & !(1u8 << s)) | (1u8 << s),
    ;
    let img2 = with_bit(img1, start, k, true);
    assert(img2[blk] =~= img[blk]);
    assert(img2 =~= img);
}

proof fn lemma_in_region(start: int, blocks: int, k: int, n: int)
    requires
        0 <= k < blocks * 4096,
        start + blocks <= n,
    ensures
        start + k / 4096 < n,
{
    assert(k / 4096 < blocks) by (nonlinear_arith)
        requires
            0 <= k < blocks * 4096,
    ;
}

/// Setting a clear bit and clearing it again leaves the image as it was.
pub proof fn lemma_set_then_clear(img: Seq<Seq<u8>>, start: int, k: int)
    requires
        image_wf(img),
        0 <= start,
        0 <= k,
        start + k / 4096 < img.len(),
        !bit_set(img, start, k),
    ensures
        with_bit(with_bit(img, start, k, true), start, k, false) == img,
{
    lemma_bit_split(k);
    let blk = start + k / 4096;
    let i = (k % 4096) / 8;
    let s = (k % 8) as u8;
    let byte = img[blk][i];
    let img1 = with_bit(img, start, k, true);
    assert(img1[blk][i] == byte | (1u8 << s));
    let b2 = (byte | (1u8 << s)) & !(1u8 << s);
    assert(b2 == byte) by (bit_vector)
        requires
            s < 8,
            (byte >> s) & 1u8 != 1u8,
            b2 == (byte | (1u8 << s)) & !(1u8 << s),
    ;
    let img2 = with_bit(img1, start, k, false);
    assert(img2[blk] =~= img[blk]);
    assert(img2 =~= img);
}

/// Number of clear bits among the first `n` bits of the region at `start`.
pub open spec fn free_bits(img: Seq<Seq<u8>>, start: int, n: int) -> int
    decreases n,
{
    if n <= 0 {
        0
    } else {
        free_bits(img, start, n - 1) + if bit_set(img, start, n - 1) {
            0int
        } else {
            1int
        }
    }
}

/// When some of the first `n` bits is clear, the count of clear bits is
/// positive.
pub proof fn lemma_free_bits_positive(img: Seq<Seq<u8>>, start: int, n: int, k: int)
    requires
        0 <= k < n,
        !bit_set(img, start, k),
    ensures
        free_bits(img, start, n) >= 1,
    decreases n,
{
    lemma_free_bits_nonneg(img, start, n - 1);
    if k < n - 1 {
        lemma_free_bits_positive(img, start, n - 1, k);
    }
}

/// When all of the first `n` bits are set, none of them is clear.
pub proof fn lemma_free_bits_zero(img: Seq<Seq<u8>>, start: int, n: int)
    requires
        forall|j: int| 0 <= j < n ==> #[trigger] bit_set(img, start, j),
    ensures
        free_bits(img, start, n) == 0,
    decreases n,
{
    if n > 0 {
        lemma_free_bits_zero(img, start, n - 1);
    }
}

/// A count of clear bits is never negative.
pub proof fn lemma_free_bits_nonneg(img: Seq<Seq<u8>>, start: int, n: int)
    ensures
        free_bits(img, start, n) >= 0,
    decreases n,
{
    if n > 0 {
        lemma_free_bits_nonneg(img, start, n - 1);
    }
}

/// Setting one clear bit among the first `n` lowers their count of clear
/// bits by one.
pub proof fn lemma_free_bits_take(img: Seq<Seq<u8>>, start: int, k: int, n: int)
    requires
        image_wf(img),
        0 <= start,
        0 <= k < n,
        start + k / 4096 < img.len(),
        !bit_set(img, start, k),
    ensures
        free_bits(with_bit(img, start, k, true), start, n) == free_bits(img, start, n) - 1,
    decreases n,
{
    let img2 = with_bit(img, start, k, true);
    lemma_with_bit(img, start, k, true, n - 1);
    if k < n - 1 {
        lemma_free_bits_take(img, start, k, n - 1);
    } else {
        lemma_free_bits_same(img, img2, start, k, n - 1);
    }
}

/// Images that agree on the first `n` bits have as many of them clear.
proof fn lemma_free_bits_same(img: Seq<Seq<u8>>, img2: Seq<Seq<u8>>, start: int, k: int, n: int)
    requires
        image_wf(img),
        0 <= start,
        0 <= n <= k,
        start + k / 4096 < img.len(),
        img2 == with_bit(img, start, k, true),
    ensures
        free_bits(img2, start, n) == free_bits(img, start, n),
    decreases n,
{
    if n > 0 {
        lemma_with_bit(img, start, k, true, n - 1);
        lemma_free_bits_same(img, img2, start, k, n - 1);
    }
}

impl Bitmap {
    /// Whether bit `bit` is set.
    pub fn is_set<D: BlockDevice>(&self, cache: &mut BlockCacheManager<D>, bit: usize) -> (r: bool)
        requires
            old(cache).wf(),
            self.start() + self.blocks() <= usize::MAX,
            bit < self.max_bits(),
        ensures
            final(cache).wf(),
            final(cache).view() == old(cache).view(),
            r == bit_set(old(cache).view(), self.start() as int, bit as int),
    {
        proof {
            cache.lemma_view_wf();
            lemma_bit_split(bit as int);
            lemma_in_region(self.start() as int, self.blocks() as int, bit as int, usize::MAX as int + 1);
        }
        let blk = cache.read_block(self.start_block_id + bit / BLOCK_BITS);
        let byte = blk[(bit % BLOCK_BITS) / 8];
        (byte >> ((bit % 8) as u8)) & 1u8 == 1u8
    }

    /// Number of clear bits among the first `n`.
    pub fn count_free<D: BlockDevice>(&self, cache: &mut BlockCacheManager<D>, n: usize) -> (r: usize)
        requires
            old(cache).wf(),
            self.start() + self.blocks() <= usize::MAX,
            n <= self.max_bits(),
        ensures
            final(cache).wf(),
            final(cache).view() == old(cache).view(),
            r == free_bits(old(cache).view(), self.start() as int, n as int),
    {
        let ghost img = cache.view();
        let ghost start = self.start() as int;
        proof {
            cache.lemma_view_wf();
        }
        let mut count: usize = 0;
        let mut g: usize = 0;
        let mut b: usize = 0;
        while g < n
            invariant
                g <= n,
                n <= self.max_bits(),
                self.start() + self.blocks() <= usize::MAX,
                start == self.start(),
                g == b * 4096 || g == n,
                cache.wf(),
                cache.view() == img,
                img == old(cache).view(),
                image_wf(img),
                count <= g,
                count == free_bits(img, start, g as int),
            decreases n - g,
        {
            assert(b < self.blocks()) by (nonlinear_arith)
                requires
                    g == b * 4096,
                    g < n,
                    n <= self.blocks() * 4096,
            ;
            let blk = cache.read_block(self.start_block_id + b);
            let mut j: usize = 0;
            while j < BLOCK_BITS && g < n
                invariant
                    j <= BLOCK_BITS,
                    g == b * 4096 + j,
                    g <= n,
                    n <= self.max_bits(),
                    cache.wf(),
                    cache.view() == img,
                    img == old(cache).view(),
                    start == self.start(),
                    blk@ == block_at(img, start + b),
                    blk@.len() == BLOCK_SIZE,
                    count <= g,
                    count == free_bits(img, start, g as int),
                decreases BLOCK_BITS - j,
            {
                let byte = blk[j / 8];
                proof {
                    lemma_bit_split(j as int);
                    lemma_bit_pos(b as int, j as int / 8, j as int % 8);
                    assert(g == b * 4096 + (j / 8) * 8 + j % 8);
                }
                if (byte >> ((j % 8) as u8)) & 1u8 != 1u8 {
                    count += 1;
                }
                j += 1;
                g += 1;
            }
            b += 1;
        }
        count
    }
}

/// Images that agree on the blocks of the first `n` bits have as many of
/// them clear.
pub proof fn lemma_free_bits_frame(img: Seq<Seq<u8>>, img2: Seq<Seq<u8>>, start: int, n: int)
    requires
        forall|k: int| 0 <= k < n ==> #[trigger] block_at(img2, start + k / 4096) == block_at(img, start + k / 4096),
    ensures
        free_bits(img2, start, n) == free_bits(img, start, n),
    decreases n,
{
    if n > 0 {
        assert(block_at(img2, start + (n - 1) / 4096) == block_at(img, start + (n - 1) / 4096));
        lemma_free_bits_frame(img, img2, start, n - 1);
    }
}

} // verus!
