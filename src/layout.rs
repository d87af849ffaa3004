//! The structures stored on disk: the super block, inodes with their block
//! index, and directory entries.

use vstd::prelude::*;
use vstd::string::StringSliceAdditionalSpecFns;
use vstd::utf8::{encode_utf8, valid_utf8};

use crate::block_cache::{block_at, BlockCacheManager};
use crate::block_dev::BlockDevice;
use crate::bytes::{decode_u32, encode_u32, le_u32, splice, u32_le};
use crate::{
    BLOCK_SIZE, DIRENT_SIZE, DISK_INODE_SIZE, EASY_FS_MAGIC, INDIRECT1_BOUND, INDIRECT2_BOUND,
    INODE_DIRECT_COUNT, INODE_INDIRECT1_COUNT, MAX_FILE_SIZE, NAME_LENGTH_LIMIT,
};

verus! {

// ---------------------------------------------------------------------------
// Super block

/// The first block of the image: the magic number and the sizes of the five
/// regions.
pub struct SuperBlock {
    pub magic: u32,
    pub total_blocks: u32,
    pub inode_bitmap_blocks: u32,
    pub inode_area_blocks: u32,
    pub data_bitmap_blocks: u32,
    pub data_area_blocks: u32,
}

/// The `i`-th little-endian `u32` of `b`.
pub open spec fn word(b: Seq<u8>, i: int) -> int {
    le_u32(b.subrange(4 * i, 4 * i + 4))
}

impl SuperBlock {
    /// A super block with every field zero, as on a blank image.
    pub fn empty() -> (sb: Self)
        ensures
            sb.magic == 0,
            sb.total_blocks == 0,
            sb.inode_bitmap_blocks == 0,
            sb.inode_area_blocks == 0,
            sb.data_bitmap_blocks == 0,
            sb.data_area_blocks == 0,
    {
        SuperBlock {
            magic: 0,
            total_blocks: 0,
            inode_bitmap_blocks: 0,
            inode_area_blocks: 0,
            data_bitmap_blocks: 0,
            data_area_blocks: 0,
        }
    }

    /// Sets the region sizes and the magic number.
    pub fn initialize(
        &mut self,
        total_blocks: u32,
        inode_bitmap_blocks: u32,
        inode_area_blocks: u32,
        data_bitmap_blocks: u32,
        data_area_blocks: u32,
    )
        ensures
            final(self).magic == EASY_FS_MAGIC,
            final(self).total_blocks == total_blocks,
            final(self).inode_bitmap_blocks == inode_bitmap_blocks,
            final(self).inode_area_blocks == inode_area_blocks,
            final(self).data_bitmap_blocks == data_bitmap_blocks,
            final(self).data_area_blocks == data_area_blocks,
    {
        *self = SuperBlock {
            magic: EASY_FS_MAGIC,
            total_blocks,
            inode_bitmap_blocks,
            inode_area_blocks,
            data_bitmap_blocks,
            data_area_blocks,
        };
    }

    /// Whether the magic number is the file system's.
    pub fn is_valid(&self) -> (r: bool)
        ensures
            r == (self.magic == EASY_FS_MAGIC),
    {
        self.magic == EASY_FS_MAGIC
    }

    /// The magic number.
    pub fn magic(&self) -> (r: u32)
        ensures
            r == self.magic,
    {
        self.magic
    }

    /// Reads the super block from the start of `b`.
    pub fn from_bytes(b: &[u8]) -> (sb: Self)
        requires
            b@.len() >= 24,
        ensures
            sb.magic == word(b@, 0),
            sb.total_blocks == word(b@, 1),
            sb.inode_bitmap_blocks == word(b@, 2),
            sb.inode_area_blocks == word(b@, 3),
            sb.data_bitmap_blocks == word(b@, 4),
            sb.data_area_blocks == word(b@, 5),
    {
        SuperBlock {
            magic: decode_u32(b, 0),
            total_blocks: decode_u32(b, 4),
            inode_bitmap_blocks: decode_u32(b, 8),
            inode_area_blocks: decode_u32(b, 12),
            data_bitmap_blocks: decode_u32(b, 16),
            data_area_blocks: decode_u32(b, 20),
        }
    }

    /// The block that holds this super block: six little-endian words, then
    /// zeros.
    pub fn to_bytes(&self) -> (r: Vec<u8>)
        ensures
            r@.len() == BLOCK_SIZE,
            word(r@, 0) == self.magic,
            word(r@, 1) == self.total_blocks,
            word(r@, 2) == self.inode_bitmap_blocks,
            word(r@, 3) == self.inode_area_blocks,
            word(r@, 4) == self.data_bitmap_blocks,
            word(r@, 5) == self.data_area_blocks,
            forall|i: int| 24 <= i < BLOCK_SIZE ==> r@[i] == 0,
    {
        let mut r: Vec<u8> = zeros(BLOCK_SIZE);
        let ghost z = r@;
        encode_u32(r.as_mut_slice(), 0, self.magic);
        encode_u32(r.as_mut_slice(), 4, self.total_blocks);
        encode_u32(r.as_mut_slice(), 8, self.inode_bitmap_blocks);
        encode_u32(r.as_mut_slice(), 12, self.inode_area_blocks);
        encode_u32(r.as_mut_slice(), 16, self.data_bitmap_blocks);
        encode_u32(r.as_mut_slice(), 20, self.data_area_blocks);
        proof {
            crate::bytes::lemma_le_u32_round_trip(self.magic);
            crate::bytes::lemma_le_u32_round_trip(self.total_blocks);
            crate::bytes::lemma_le_u32_round_trip(self.inode_bitmap_blocks);
            crate::bytes::lemma_le_u32_round_trip(self.inode_area_blocks);
            crate::bytes::lemma_le_u32_round_trip(self.data_bitmap_blocks);
            crate::bytes::lemma_le_u32_round_trip(self.data_area_blocks);
            assert(r@.subrange(0, 4) =~= u32_le(self.magic));
            assert(r@.subrange(4, 8) =~= u32_le(self.total_blocks));
            assert(r@.subrange(8, 12) =~= u32_le(self.inode_bitmap_blocks));
            assert(r@.subrange(12, 16) =~= u32_le(self.inode_area_blocks));
            assert(r@.subrange(16, 20) =~= u32_le(self.data_bitmap_blocks));
            assert(r@.subrange(20, 24) =~= u32_le(self.data_area_blocks));
        }
        r
    }
}

/// `n` zero bytes.
pub fn zeros(n: usize) -> (r: Vec<u8>)
    ensures
        r@ == Seq::new(n as nat, |i: int| 0u8),
{
    let mut r: Vec<u8> = Vec::new();
    let mut i: usize = 0;
    while i < n
        invariant
            i <= n,
            r@ == Seq::new(i as nat, |k: int| 0u8),
        decreases n - i,
    {
        r.push(0u8);
        i += 1;
        assert(r@ =~= Seq::new(i as nat, |k: int| 0u8));
    }
    r
}

// ---------------------------------------------------------------------------
// Directory entries

/// Relies on `String::from_utf8`: it succeeds exactly on valid UTF-8, and the
/// string it returns has those bytes.
#[verifier::external_body]
fn string_from_utf8(bytes: Vec<u8>) -> (r: Option<String>)
    ensures
        r.is_some() == valid_utf8(bytes@),
        r matches Some(s) ==> encode_utf8(s@) == bytes@,
{
    String::from_utf8(bytes).ok()
}

/// Length of the name held in `raw`: the bytes before the first zero from
/// `i` on.
pub open spec fn name_len_from(raw: Seq<u8>, i: int) -> int
    decreases raw.len() - i,
{
    if i < 0 || i >= raw.len() || raw[i] == 0 {
        i
    } else {
        name_len_from(raw, i + 1)
    }
}

/// The name stored in a name field: its bytes up to the first zero.
pub open spec fn name_of(raw: Seq<u8>) -> Seq<u8> {
    raw.subrange(0, name_len_from(raw, 0))
}

proof fn lemma_name_len_bounds(raw: Seq<u8>, i: int)
    requires
        0 <= i <= raw.len(),
    ensures
        i <= name_len_from(raw, i) <= raw.len(),
        forall|k: int| i <= k < name_len_from(raw, i) ==> raw[k] != 0,
        name_len_from(raw, i) < raw.len() ==> raw[name_len_from(raw, i)] == 0,
    decreases raw.len() - i,
{
    if i < raw.len() && raw[i] != 0 {
        lemma_name_len_bounds(raw, i + 1);
    }
}

/// The string that `ls` reports for a name: the name itself when it is
/// valid UTF-8, else the empty string.
pub open spec fn shown_name(s: Seq<char>, raw_name: Seq<u8>) -> bool {
    if valid_utf8(raw_name) {
        encode_utf8(s) == raw_name
    } else {
        s.len() == 0
    }
}

/// A name that an entry can hold: at most 27 bytes, none of them zero.
pub open spec fn name_fits(name: Seq<u8>) -> bool {
    &&& name.len() <= NAME_LENGTH_LIMIT
    &&& forall|i: int| 0 <= i < name.len() ==> name[i] != 0
}

/// One entry of a directory: a name of up to 27 bytes, zero-terminated,
/// and an inode number.
pub struct DirEntry {
    name: [u8; 28],
    inode_id: u32,
}

/// The 32 bytes of an entry with name field `raw` and inode number `id`.
pub open spec fn dirent_bytes(raw: Seq<u8>, id: u32) -> Seq<u8> {
    raw + u32_le(id)
}

impl DirEntry {
    /// The 28 bytes of the name field.
    pub closed spec fn raw_name(&self) -> Seq<u8> {
        self.name@
    }

    /// The inode number.
    pub closed spec fn id_spec(&self) -> u32 {
        self.inode_id
    }

    /// The name the entry holds.
    pub open spec fn name_spec(&self) -> Seq<u8> {
        name_of(self.raw_name())
    }

    /// An entry with an empty name and inode 0.
    pub fn create_empty() -> (e: Self)
        ensures
            e.raw_name() == Seq::new(28, |i: int| 0u8),
            e.id_spec() == 0,
            e.name_spec().len() == 0,
    {
        let e = DirEntry { name: [0u8; 28], inode_id: 0 };
        assert(e.name@ =~= Seq::new(28, |i: int| 0u8));
        e
    }

    /// An entry for `name` and inode `inode_id`.
    pub fn new(name: &str, inode_id: u32) -> (e: Self)
        requires
            name_fits(name.spec_bytes()),
        ensures
            e.id_spec() == inode_id,
            e.name_spec() == name.spec_bytes(),
            e.raw_name() == name.spec_bytes() + Seq::new(
                (28 - name.spec_bytes().len()) as nat,
                |i: int| 0u8,
            ),
    {
        let mut e = DirEntry::create_empty();
        e.chname(name);
        e.inode_id = inode_id;
        assert(e.raw_name() =~= name.spec_bytes() + Seq::new(
            (28 - name.spec_bytes().len()) as nat,
            |i: int| 0u8,
        ));
        e
    }

    /// The name, as a string; empty when the stored bytes are not UTF-8.
    pub fn name(&self) -> (r: String)
        ensures
            shown_name(r@, self.name_spec()),
    {
        let len = self.name_len();
        let mut v: Vec<u8> = Vec::new();
        let mut i: usize = 0;
        while i < len
            invariant
                i <= len,
                len <= 28,
                v@ == self.name@.subrange(0, i as int),
            decreases len - i,
        {
            v.push(self.name[i]);
            i += 1;
            assert(v@ =~= self.name@.subrange(0, i as int));
        }
        match string_from_utf8(v) {
            Some(s) => s,
            None => String::new(),
        }
    }

    /// Number of bytes of the name.
    fn name_len(&self) -> (r: usize)
        ensures
            r == name_len_from(self.name@, 0),
            r <= 28,
    {
        proof {
            lemma_name_len_bounds(self.name@, 0);
        }
        let mut i: usize = 0;
        while i < 28 && self.name[i] != 0
            invariant
                i <= 28,
                self.name@.len() == 28,
                name_len_from(self.name@, 0) == name_len_from(self.name@, i as int),
            decreases 28 - i,
        {
            i += 1;
        }
        i
    }

    /// Whether the entry's name is `name`.
    pub fn name_is(&self, name: &str) -> (r: bool)
        ensures
            r == (self.name_spec() == name.spec_bytes()),
    {
        let len = self.name_len();
        let b = name.as_bytes();
        proof {
            lemma_name_len_bounds(self.name@, 0);
            assert(self.name_spec().len() == len);
        }
        if b.len() != len {
            return false;
        }
        let mut i: usize = 0;
        while i < len
            invariant
                i <= len,
                len <= 28,
                b@.len() == len,
                b@ == name.spec_bytes(),
                self.name@.len() == 28,
                self.name_spec().len() == len,
                self.name_spec() == self.name@.subrange(0, len as int),
                forall|k: int| 0 <= k < i ==> self.name@[k] == b@[k],
            decreases len - i,
        {
            if self.name[i] != b[i] {
                assert(self.name_spec()[i as int] != name.spec_bytes()[i as int]);
                return false;
            }
            i += 1;
        }
        assert(self.name_spec() =~= name.spec_bytes());
        true
    }

    /// Replaces the name by `name`, zeroing the rest of the name field and
    /// keeping the inode number.
    pub fn chname(&mut self, name: &str)
        requires
            name_fits(name.spec_bytes()),
        ensures
            final(self).id_spec() == old(self).id_spec(),
            final(self).name_spec() == name.spec_bytes(),
            final(self).raw_name() == name.spec_bytes() + Seq::new(
                (28 - name.spec_bytes().len()) as nat,
                |i: int| 0u8,
            ),
    {
        let b = name.as_bytes();
        let ghost want = name.spec_bytes() + Seq::new((28 - name.spec_bytes().len()) as nat, |i: int| 0u8);
        let mut i: usize = 0;
        while i < 28
            invariant
                i <= 28,
                b@ == name.spec_bytes(),
                b@.len() <= 27,
                want == b@ + Seq::new((28 - b@.len()) as nat, |k: int| 0u8),
                self.inode_id == old(self).inode_id,
                forall|k: int| 0 <= k < i ==> self.name@[k] == want[k],
            decreases 28 - i,
        {
            if i < b.len() {
                self.name[i] = b[i];
            } else {
                self.name[i] = 0;
            }
            i += 1;
        }
        let ghost raw = self.name@;
        assert(raw =~= want);
        proof {
            lemma_name_len_bounds(raw, 0);
            lemma_name_len_stops(raw, b@.len() as int);
        }
        assert(self.name_spec() =~= name.spec_bytes());
    }

    /// The inode number.
    pub fn inode_id(&self) -> (r: u32)
        ensures
            r == self.id_spec(),
    {
        self.inode_id
    }

    /// The 32 bytes of the entry: the name field, then the inode number.
    pub fn as_bytes(&self) -> (r: Vec<u8>)
        ensures
            r@ == dirent_bytes(self.raw_name(), self.id_spec()),
            r@.len() == DIRENT_SIZE,
    {
        let mut r: Vec<u8> = zeros(DIRENT_SIZE);
        let mut i: usize = 0;
        while i < 28
            invariant
                i <= 28,
                r@.len() == 32,
                forall|k: int| 0 <= k < i ==> r@[k] == self.name@[k],
            decreases 28 - i,
        {
            r.set(i, self.name[i]);
            i += 1;
        }
        encode_u32(r.as_mut_slice(), 28, self.inode_id);
        assert(r@ =~= dirent_bytes(self.raw_name(), self.id_spec()));
        r
    }

    /// The entry held in the 32 bytes of `b` from `off` on.
    pub fn from_bytes(b: &[u8], off: usize) -> (e: Self)
        requires
            off + DIRENT_SIZE <= b@.len(),
        ensures
            e.raw_name() == b@.subrange(off as int, off + 28),
            e.id_spec() == le_u32(b@.subrange(off + 28, off + 32)),
    {
        let mut name = [0u8; 28];
        let n = b.len();
        let mut i: usize = 0;
        while i < 28
            invariant
                i <= 28,
                n == b@.len(),
                off + DIRENT_SIZE <= b@.len(),
                forall|k: int| 0 <= k < i ==> name@[k] == b@[off + k],
            decreases 28 - i,
        {
            name[i] = b[off + i];
            i += 1;
        }
        let e = DirEntry { name, inode_id: decode_u32(b, off + 28) };
        assert(e.raw_name() =~= b@.subrange(off as int, off + 28));
        e
    }
}

proof fn lemma_name_len_stops(raw: Seq<u8>, n: int)
    requires
        0 <= n < raw.len(),
        raw[n] == 0,
        forall|k: int| 0 <= k < n ==> raw[k] != 0,
    ensures
        name_len_from(raw, 0) == n,
{
    lemma_name_len_walk(raw, 0, n);
}

proof fn lemma_name_len_walk(raw: Seq<u8>, i: int, n: int)
    requires
        0 <= i <= n < raw.len(),
        raw[n] == 0,
        forall|k: int| i <= k < n ==> raw[k] != 0,
    ensures
        name_len_from(raw, i) == n,
    decreases n - i,
{
    if i < n {
        lemma_name_len_walk(raw, i + 1, n);
    }
}

} // verus!
