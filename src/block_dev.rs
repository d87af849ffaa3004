//! The device that holds the image: a fixed number of blocks, each read or
//! written whole.

use vstd::prelude::*;

use crate::BLOCK_SIZE;

verus! {

/// The contents of a block that was never written.
pub open spec fn zero_block() -> Seq<u8> {
    Seq::new(BLOCK_SIZE as nat, |i: int| 0u8)
}

/// Every block of `img` has the block size.
pub open spec fn image_wf(img: Seq<Seq<u8>>) -> bool {
    forall|i: int| 0 <= i < img.len() ==> (#[trigger] img[i]).len() == BLOCK_SIZE
}

/// A device of fixed-size blocks addressed by index.
pub trait BlockDevice {
    /// The blocks the device holds, in order.
    spec fn image(&self) -> Seq<Seq<u8>>;

    /// Number of blocks on the device.
    fn num_blocks(&self) -> (n: usize)
        ensures
            n == self.image().len(),
    ;

    /// Fills `buf` with block `block_id`.
    fn read_block(&self, block_id: usize, buf: &mut [u8])
        requires
            block_id < self.image().len(),
            old(buf)@.len() == BLOCK_SIZE,
        ensures
            final(buf)@ == self.image()[block_id as int],
    ;

    /// Stores `buf` as block `block_id`.
    fn write_block(&mut self, block_id: usize, buf: &[u8])
        requires
            block_id < old(self).image().len(),
            buf@.len() == BLOCK_SIZE,
        ensures
            final(self).image() == old(self).image().update(block_id as int, buf@),
    ;
}

/// `s` cut or padded with zeros to the block size.
pub open spec fn sized_block(s: Seq<u8>) -> Seq<u8> {
    Seq::new(BLOCK_SIZE as nat, |i: int| if i < s.len() { s[i] } else { 0u8 })
}

/// A device whose blocks live in memory.
pub struct MemoryDevice {
    blocks: Vec<Vec<u8>>,
}

impl MemoryDevice {
    /// The stored blocks, each cut or padded to the block size.
    pub closed spec fn view_blocks(&self) -> Seq<Seq<u8>> {
        self.blocks@.map_values(|b: Vec<u8>| sized_block(b@))
    }

    /// A device of `n` zeroed blocks.
    pub fn new(n: usize) -> (d: Self)
        ensures
            d.image() == Seq::new(n as nat, |i: int| zero_block()),
            image_wf(d.image()),
    {
        let mut blocks: Vec<Vec<u8>> = Vec::new();
        let mut i: usize = 0;
        while i < n
            invariant
                i <= n,
                blocks@.len() == i,
                forall|k: int| 0 <= k < i ==> (#[trigger] blocks@[k])@ == zero_block(),
            decreases n - i,
        {
            let mut b: Vec<u8> = Vec::new();
            let mut j: usize = 0;
            while j < BLOCK_SIZE
                invariant
                    j <= BLOCK_SIZE,
                    b@ == Seq::new(j as nat, |k: int| 0u8),
                decreases BLOCK_SIZE - j,
            {
                b.push(0u8);
                j += 1;
                assert(b@ =~= Seq::new(j as nat, |k: int| 0u8));
            }
            blocks.push(b);
            i += 1;
        }
        let d = MemoryDevice { blocks };
        assert forall|k: int| 0 <= k < n implies sized_block(#[trigger] d.blocks@[k]@) == zero_block() by {
            assert(sized_block(d.blocks@[k]@) =~= zero_block());
        }
        assert(d.image() =~= Seq::new(n as nat, |i: int| zero_block()));
        d
    }
}

impl BlockDevice for MemoryDevice {
    closed spec fn image(&self) -> Seq<Seq<u8>> {
        self.view_blocks()
    }

    fn num_blocks(&self) -> (n: usize) {
        self.blocks.len()
    }

    fn read_block(&self, block_id: usize, buf: &mut [u8]) {
        let src = &self.blocks[block_id];
        let ghost want = self.image()[block_id as int];
        let mut i: usize = 0;
        while i < buf.len()
            invariant
                i <= buf@.len(),
                buf@.len() == BLOCK_SIZE,
                want == sized_block(src@),
                forall|k: int| 0 <= k < i ==> buf@[k] == want[k],
            decreases buf@.len() - i,
        {
            if i < src.len() {
                buf[i] = src[i];
            } else {
                buf[i] = 0;
            }
            i += 1;
        }
        assert(buf@ =~= want);
    }

    fn write_block(&mut self, block_id: usize, buf: &[u8]) {
        let mut b: Vec<u8> = Vec::new();
        let mut i: usize = 0;
        while i < buf.len()
            invariant
                i <= buf@.len(),
                b@ == buf@.subrange(0, i as int),
            decreases buf@.len() - i,
        {
            b.push(buf[i]);
            i += 1;
            assert(b@ =~= buf@.subrange(0, i as int));
        }
        assert(b@ =~= buf@);
        assert(sized_block(b@) =~= buf@);
        self.blocks.set(block_id, b);
        assert(self.image() =~= old(self).image().update(block_id as int, buf@));
    }
}

} // verus!
