//! Sizes on disk, and the format of a directory entry.
use crate::bytes::zeros;
use vstd::bytes::{u32_from_le_bytes, u32_to_le_bytes};
use vstd::prelude::*;
use vstd::slice::slice_subrange;
use vstd::utf8::{decode_utf8, valid_utf8};

verus! {

/// Bytes in a directory entry.
pub const DIRENT_SZ: usize = 32;

/// Longest name of a directory entry, in bytes.
pub const NAME_LENGTH_LIMIT: usize = 27;

/// Blocks that an inode names itself.
pub const INODE_DIRECT_COUNT: u32 = 27;

/// Blocks that an index block names.
pub const INODE_INDEX_COUNT: u32 = 128;

/// Largest size of a file: the blocks that the inode names, those that one index
/// block names, and those that an index block of index blocks names.
pub const MAX_FILE_SIZE: u32 = 8_467_968;

/// The bytes of a text.
pub open spec fn text_bytes(s: &str) -> Seq<u8> {
    vstd::utf8::encode_utf8(s@)
}

/// Number of blocks of data in a file of this size.
pub open spec fn data_blocks(size: int) -> int {
    (size + 511) / 512
}

/// Position of data block `i` among the blocks of a file, which come in the order
/// in which they are needed: an index block precedes the blocks that it names.
pub open spec fn data_slot(i: int) -> int {
    if i < INODE_DIRECT_COUNT {
        i
    } else if i < INODE_DIRECT_COUNT + INODE_INDEX_COUNT {
        i + 1
    } else {
        i + 3 + (i - (INODE_DIRECT_COUNT + INODE_INDEX_COUNT)) / (INODE_INDEX_COUNT as int)
    }
}

/// Number of blocks of a file of this size, index blocks included.
pub open spec fn blocks_of_size(size: int) -> int {
    if size <= 0 {
        0
    } else {
        data_slot(data_blocks(size) - 1) + 1
    }
}

/// Data blocks have different places, in order.
pub proof fn lemma_data_slot(i: int, j: int)
    requires
        0 <= i < j,
    ensures
        0 <= data_slot(i) < data_slot(j),
{
}

/// A larger file has at least as many blocks, and the data blocks of a file are
/// among its blocks.
pub proof fn lemma_blocks_of_size(a: int, b: int)
    requires
        0 <= a <= b,
    ensures
        0 <= blocks_of_size(a) <= blocks_of_size(b),
        0 <= data_blocks(a) <= data_blocks(b),
        data_blocks(a) <= blocks_of_size(a),
        blocks_of_size(b) <= b + 4,
        forall|i: int| 0 <= i < data_blocks(a) ==> 0 <= #[trigger] data_slot(i) < blocks_of_size(a),
        forall|i: int| data_blocks(a) <= i < data_blocks(b) ==> #[trigger] data_slot(i) >= blocks_of_size(a),
{
    if a > 0 {
        let m = data_blocks(a) - 1;
        assert forall|i: int| 0 <= i < data_blocks(a) implies 0 <= #[trigger] data_slot(i)
            < blocks_of_size(a) by {
            if i < m {
                lemma_data_slot(i, m);
            }
        }
        assert forall|i: int| data_blocks(a) <= i < data_blocks(b) implies #[trigger] data_slot(i)
            >= blocks_of_size(a) by {
            lemma_data_slot(m, i);
        }
        if m < data_blocks(b) - 1 {
            lemma_data_slot(m, data_blocks(b) - 1);
        }
    }
}

/// Number of blocks of a file of this size, index blocks included.
pub fn total_blocks(size: u32) -> (r: u32)
    requires
        size <= MAX_FILE_SIZE,
    ensures
        r == blocks_of_size(size as int),
{
    if size == 0 {
        return 0;
    }
    let data = (size - 1) / 512 + 1;
    let last = data - 1;
    if last < INODE_DIRECT_COUNT {
        last + 1
    } else if last < INODE_DIRECT_COUNT + INODE_INDEX_COUNT {
        last + 2
    } else {
        last + 4 + (last - (INODE_DIRECT_COUNT + INODE_INDEX_COUNT)) / INODE_INDEX_COUNT
    }
}

/// Position of data block `i` among the blocks of a file.
pub fn slot_of_block(i: u32) -> (r: u32)
    requires
        i < MAX_FILE_SIZE,
    ensures
        r == data_slot(i as int),
{
    if i < INODE_DIRECT_COUNT {
        i
    } else if i < INODE_DIRECT_COUNT + INODE_INDEX_COUNT {
        i + 1
    } else {
        i + 3 + (i - (INODE_DIRECT_COUNT + INODE_INDEX_COUNT)) / INODE_INDEX_COUNT
    }
}

/// Number of bytes before the first 0 among the 28 bytes of a name, from byte `i`
/// on; 28 where there is none.
pub open spec fn name_end(raw: Seq<u8>, i: int) -> int
    decreases 28 - i,
{
    if i >= 28 {
        28
    } else if raw[i] == 0 {
        i
    } else {
        name_end(raw, i + 1)
    }
}

/// The name in a directory entry: the bytes before the first 0.
pub open spec fn entry_name(raw: Seq<u8>) -> Seq<u8> {
    raw.take(name_end(raw, 0))
}

/// The inode number in a directory entry.
pub open spec fn entry_inode(raw: Seq<u8>) -> u32 {
    vstd::bytes::spec_u32_from_le_bytes(raw.subrange(28, 32))
}

/// A directory entry whose name ends in a 0 and is text.
pub open spec fn entry_ok(raw: Seq<u8>) -> bool {
    name_end(raw, 0) < 28 && valid_utf8(entry_name(raw))
}

/// The bytes of a directory entry.
pub open spec fn entry_bytes(name: Seq<u8>, inode: u32) -> Seq<u8> {
    name + zeros((28 - name.len()) as nat) + vstd::bytes::spec_u32_to_le_bytes(inode)
}

/// The name ends at the first 0, which all bytes before it are not.
pub proof fn lemma_name_end(raw: Seq<u8>, i: int, n: int)
    requires
        0 <= i <= n <= 28,
        forall|k: int| i <= k < n ==> raw[k] != 0,
        n < 28 ==> raw[n] == 0,
    ensures
        name_end(raw, i) == n,
    decreases n - i,
{
    if i < n {
        lemma_name_end(raw, i + 1, n);
    }
}

/// Name and inode number are read back from an entry.
pub proof fn lemma_entry_bytes(name: Seq<u8>, inode: u32)
    requires
        name.len() <= NAME_LENGTH_LIMIT,
        forall|k: int| 0 <= k < name.len() ==> name[k] != 0,
    ensures
        entry_bytes(name, inode).len() == DIRENT_SZ,
        entry_name(entry_bytes(name, inode)) == name,
        entry_inode(entry_bytes(name, inode)) == inode,
        valid_utf8(name) ==> entry_ok(entry_bytes(name, inode)),
{
    vstd::bytes::lemma_auto_spec_u32_to_from_le_bytes();
    let raw = entry_bytes(name, inode);
    lemma_name_end(raw, 0, name.len() as int);
    assert(entry_name(raw) =~= name);
    assert(raw.subrange(28, 32) =~= vstd::bytes::spec_u32_to_le_bytes(inode));
}

/// `String::from_utf8` turns bytes into the text that they encode, and fails
/// where they encode none.
#[verifier::external_body]
fn text_of(bytes: Vec<u8>) -> (r: Option<String>)
    ensures
        match r {
            Some(s) => valid_utf8(bytes@) && s@ == decode_utf8(bytes@),
            None => !valid_utf8(bytes@),
        },
{
    String::from_utf8(bytes).ok()
}

/// A directory entry, as it stands on disk.
pub struct DirEntry {
    raw: Vec<u8>,
}

impl View for DirEntry {
    type V = Seq<u8>;

    closed spec fn view(&self) -> Seq<u8> {
        self.raw@
    }
}

impl DirEntry {
    /// The entry with this name and this inode.
    pub fn new(name: &str, inode: u32) -> (r: DirEntry)
        requires
            text_bytes(name).len() <= NAME_LENGTH_LIMIT,
        ensures
            r@ == entry_bytes(text_bytes(name), inode),
            r@.len() == DIRENT_SZ,
    {
        let bytes = name.as_bytes();
        let mut raw: Vec<u8> = Vec::new();
        let mut i: usize = 0;
        while i < bytes.len()
            invariant
                i <= bytes@.len(),
                raw@ == bytes@.take(i as int),
            decreases bytes@.len() - i,
        {
            raw.push(bytes[i]);
            i = i + 1;
            assert(raw@ =~= bytes@.take(i as int));
        }
        assert(bytes@.take(i as int) =~= bytes@);
        while raw.len() < 28
            invariant
                bytes@.len() <= raw@.len() <= 28,
                raw@ =~= bytes@ + zeros((raw@.len() - bytes@.len()) as nat),
            decreases 28 - raw@.len(),
        {
            raw.push(0u8);
        }
        let mut id = u32_to_le_bytes(inode);
        raw.append(&mut id);
        assert(raw@ =~= entry_bytes(text_bytes(name), inode));
        DirEntry { raw }
    }

    /// The entry that these bytes are.
    pub fn from_bytes(raw: Vec<u8>) -> (r: DirEntry)
        ensures
            r@ == raw@,
    {
        DirEntry { raw }
    }

    /// The bytes of the entry.
    pub fn as_bytes(&self) -> (r: &[u8])
        ensures
            r@ == self@,
    {
        self.raw.as_slice()
    }

    /// Number of bytes in the name.
    fn name_len(&self) -> (r: usize)
        requires
            self@.len() == DIRENT_SZ,
        ensures
            r == name_end(self@, 0),
            r <= 28,
    {
        let mut i: usize = 0;
        while i < 28 && self.raw[i] != 0
            invariant
                i <= 28,
                self.raw@.len() == DIRENT_SZ,
                forall|k: int| 0 <= k < i ==> self.raw@[k] != 0,
            decreases 28 - i,
        {
            i = i + 1;
        }
        proof {
            lemma_name_end(self.raw@, 0, i as int);
        }
        i
    }

    /// Is this the name of the entry?
    pub fn name_is(&self, name: &str) -> (r: bool)
        requires
            self@.len() == DIRENT_SZ,
        ensures
            r == (entry_name(self@) == text_bytes(name)),
    {
        let n = self.name_len();
        let bytes = name.as_bytes();
        assert(entry_name(self@).len() == n);
        if bytes.len() != n {
            return false;
        }
        let mut i: usize = 0;
        while i < n
            invariant
                i <= n,
                n == bytes@.len(),
                n <= 28,
                n == name_end(self@, 0),
                bytes@ == text_bytes(name),
                self@ == self.raw@,
                self.raw@.len() == DIRENT_SZ,
                forall|k: int| 0 <= k < i ==> self.raw@[k] == bytes@[k],
            decreases n - i,
        {
            if self.raw[i] != bytes[i] {
                assert(entry_name(self@)[i as int] != bytes@[i as int]);
                return false;
            }
            i = i + 1;
        }
        assert(entry_name(self@) =~= bytes@);
        true
    }

    /// Can the name be read?
    pub fn is_readable(&self) -> (r: bool)
        requires
            self@.len() == DIRENT_SZ,
        ensures
            r == entry_ok(self@),
    {
        let n = self.name_len();
        let bytes = vstd::slice::slice_to_vec(slice_subrange(self.raw.as_slice(), 0, n));
        assert(bytes@ =~= entry_name(self@));
        n < 28 && text_of(bytes).is_some()
    }

    /// The name of the entry.
    pub fn name(&self) -> (r: String)
        requires
            self@.len() == DIRENT_SZ,
            entry_ok(self@),
        ensures
            r@ == decode_utf8(entry_name(self@)),
    {
        let n = self.name_len();
        let bytes = vstd::slice::slice_to_vec(slice_subrange(self.raw.as_slice(), 0, n));
        assert(bytes@ =~= entry_name(self@));
        text_of(bytes).unwrap()
    }

    /// The inode of the entry.
    pub fn inode_id(&self) -> (r: u32)
        requires
            self@.len() == DIRENT_SZ,
        ensures
            r == entry_inode(self@),
    {
        u32_from_le_bytes(slice_subrange(self.raw.as_slice(), 28, 32))
    }
}

} // verus!
