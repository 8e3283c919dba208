//! The directory entry: a record of 32 bytes that binds a name to an inode
//! number.

use vstd::prelude::*;
use vstd::slice::slice_subrange;
use vstd::string::StringSliceAdditionalSpecFns;
use vstd::utf8::{
    decode_utf8, encode_utf8, encode_utf8_decode_utf8, encode_utf8_valid_utf8, valid_utf8,
};
use crate::device::{le_byte, le_u32, lemma_le_round_trip};

verus! {

/// Greatest length of a name in bytes.
pub const NAME_LENGTH_LIMIT: usize = 27;

/// Size of the name field in bytes.
pub const NAME_FIELD_SZ: usize = 28;

/// Size of a directory entry in bytes.
pub const DIRENT_SZ: usize = 32;

#[verifier::external_type_specification]
#[verifier::external_body]
pub struct ExUtf8Error(core::str::Utf8Error);

/// `core::str::from_utf8` gives a string exactly where the bytes are valid
/// UTF-8, and that string is encoded by the very bytes it was given.
pub assume_specification[ core::str::from_utf8 ](v: &[u8]) -> (res: Result<
    &str,
    core::str::Utf8Error,
>)
    ensures
        res is Ok <==> valid_utf8(v@),
        res matches Ok(s) ==> s.spec_bytes() == v@,
;

/// Whether `n` is the length of the text at the front of `s`: no byte before
/// position `n` is 0, and the byte at position `n`, if there is one, is 0.
pub open spec fn is_text_len(s: Seq<u8>, n: int) -> bool {
    &&& 0 <= n <= s.len()
    &&& forall|i: int| 0 <= i < n ==> s[i] != 0
    &&& n < s.len() ==> s[n] == 0
}

/// Length of the text at the front of `s`: the position of the first 0 byte,
/// or the length of `s` where no byte is 0.
pub open spec fn text_len(s: Seq<u8>) -> int {
    choose|n: int| is_text_len(s, n)
}

/// The length of the text at the front of a sequence is determined.
pub proof fn lemma_text_len(s: Seq<u8>, n: int)
    requires
        is_text_len(s, n),
    ensures
        text_len(s) == n,
{
    let m = text_len(s);
    assert(is_text_len(s, m));
    if m < n {
        assert(s[m] != 0);
    } else if n < m {
        assert(s[n] != 0);
    }
}

/// A directory entry.
#[derive(Clone, Copy, Debug)]
pub struct DirEntry {
    /// The name, followed by 0 bytes up to the end of the field.
    pub name: [u8; 28],
    /// The number of the inode that the name stands for.
    pub inode_number: u32,
}

impl DirEntry {
    /// The bytes of the name: what stands in the name field before the first
    /// 0 byte.
    pub open spec fn name_bytes(&self) -> Seq<u8> {
        self.name@.subrange(0, text_len(self.name@))
    }

    /// Whether the entry holds a name that can be read: the name field holds
    /// a 0 byte, and the bytes before the first one are valid UTF-8.
    pub open spec fn has_name(&self) -> bool {
        text_len(self.name@) < NAME_FIELD_SZ && valid_utf8(self.name_bytes())
    }

    /// The 32 bytes of the entry: the name field, then the inode number as a
    /// little-endian number of 4 bytes.
    pub open spec fn bytes(&self) -> Seq<u8> {
        self.name@ + seq![
            le_byte(self.inode_number, 0),
            le_byte(self.inode_number, 1),
            le_byte(self.inode_number, 2),
            le_byte(self.inode_number, 3),
        ]
    }

    /// Whether the entry is the one that the 32 bytes `bytes` hold.
    pub open spec fn is_from(&self, bytes: Seq<u8>) -> bool {
        &&& self.name@ == bytes.subrange(0, NAME_FIELD_SZ as int)
        &&& self.inode_number == le_u32(bytes[28], bytes[29], bytes[30], bytes[31])
    }

    /// Whether the entry holds the text `name` and the inode number `n`: the
    /// UTF-8 bytes of the name stand at the front of the name field, 0 bytes
    /// fill the rest of it.
    pub open spec fn holds(&self, name: Seq<char>, n: u32) -> bool {
        &&& self.inode_number == n
        &&& forall|i: int|
            0 <= i < NAME_FIELD_SZ ==> self.name@[i] == (if i < encode_utf8(name).len() {
                encode_utf8(name)[i]
            } else {
                0u8
            })
    }

    /// An entry that holds a name of at most 27 bytes without a 0 byte gives
    /// that name back.
    pub proof fn lemma_name_of(&self, name: Seq<char>, n: u32)
        requires
            self.holds(name, n),
            encode_utf8(name).len() <= NAME_LENGTH_LIMIT,
            forall|i: int| 0 <= i < encode_utf8(name).len() ==> encode_utf8(name)[i] != 0,
        ensures
            self.has_name(),
            self.name_bytes() == encode_utf8(name),
            decode_utf8(self.name_bytes()) == name,
    {
        lemma_text_len(self.name@, encode_utf8(name).len() as int);
        assert(self.name_bytes() =~= encode_utf8(name));
        encode_utf8_valid_utf8(name);
        encode_utf8_decode_utf8(name);
    }

    /// An entry read back from its own bytes is the entry.
    pub proof fn lemma_bytes_round_trip(&self, other: &DirEntry)
        requires
            other.is_from(self.bytes()),
        ensures
            other.name@ == self.name@,
            other.inode_number == self.inode_number,
            self.bytes().len() == DIRENT_SZ,
    {
        lemma_le_round_trip(self.inode_number);
        assert(self.bytes().subrange(0, NAME_FIELD_SZ as int) =~= self.name@);
    }

    /// Create an empty directory entry: every byte 0.
    pub fn empty() -> (entry: Self)
        ensures
            forall|i: int| 0 <= i < NAME_FIELD_SZ ==> entry.name@[i] == 0,
            entry.inode_number == 0,
            entry.has_name(),
            entry.name_bytes() == Seq::<u8>::empty(),
    {
        let entry = DirEntry { name: [0u8; 28], inode_number: 0 };
        proof {
            lemma_text_len(entry.name@, 0);
            assert(entry.name_bytes() =~= Seq::<u8>::empty());
        }
        entry
    }

    /// Create a directory entry from a name and an inode number. The name
    /// stands at the front of the name field, followed by 0 bytes.
    pub fn new(name: &str, inode_number: u32) -> (entry: Self)
        requires
            name.spec_bytes().len() <= NAME_LENGTH_LIMIT,
        ensures
            entry.holds(name@, inode_number),
    {
        let mut bytes = [0u8; 28];
        let src = name.as_bytes();
        let len = src.len();
        let mut i: usize = 0;
        while i < len
            invariant
                i <= len <= NAME_LENGTH_LIMIT,
                len == src@.len(),
                forall|k: int|
                    0 <= k < NAME_FIELD_SZ ==> bytes@[k] == (if k < i {
                        src@[k]
                    } else {
                        0u8
                    }),
            decreases len - i,
        {
            bytes[i] = src[i];
            i += 1;
        }
        DirEntry { name: bytes, inode_number }
    }

    /// Serialize into bytes.
    pub fn as_bytes(&self) -> (bytes: [u8; 32])
        ensures
            bytes@ == self.bytes(),
    {
        let mut bytes = [0u8; 32];
        let mut i: usize = 0;
        while i < NAME_FIELD_SZ
            invariant
                i <= NAME_FIELD_SZ,
                forall|k: int| 0 <= k < i ==> bytes@[k] == self.name@[k],
            decreases NAME_FIELD_SZ - i,
        {
            bytes[i] = self.name[i];
            i += 1;
        }
        let v = self.inode_number;
        bytes[28] = (v % 256) as u8;
        bytes[29] = (v / 256 % 256) as u8;
        bytes[30] = (v / 65536 % 256) as u8;
        bytes[31] = (v / 16777216) as u8;
        assert(bytes@ =~= self.bytes());
        bytes
    }

    /// The entry that 32 bytes hold.
    pub fn from_bytes(bytes: &[u8]) -> (entry: Self)
        requires
            bytes@.len() == DIRENT_SZ,
        ensures
            entry.is_from(bytes@),
    {
        let mut name = [0u8; 28];
        let mut i: usize = 0;
        while i < NAME_FIELD_SZ
            invariant
                i <= NAME_FIELD_SZ,
                bytes@.len() == DIRENT_SZ,
                forall|k: int| 0 <= k < i ==> name@[k] == bytes@[k],
            decreases NAME_FIELD_SZ - i,
        {
            name[i] = bytes[i];
            i += 1;
        }
        let inode_number = bytes[28] as u32 + 256 * (bytes[29] as u32) + 65536 * (bytes[30] as u32)
            + 16777216 * (bytes[31] as u32);
        assert(name@ =~= bytes@.subrange(0, NAME_FIELD_SZ as int));
        DirEntry { name, inode_number }
    }

    /// Length of the name in bytes: the position of the first 0 byte of the
    /// name field, or the size of the field where it holds none.
    pub fn name_len(&self) -> (len: usize)
        ensures
            len == text_len(self.name@),
            len <= NAME_FIELD_SZ,
    {
        let mut len: usize = 0;
        while len < NAME_FIELD_SZ && self.name[len] != 0
            invariant
                len <= NAME_FIELD_SZ,
                forall|i: int| 0 <= i < len ==> self.name@[i] != 0,
            decreases NAME_FIELD_SZ - len,
        {
            len += 1;
        }
        proof {
            lemma_text_len(self.name@, len as int);
        }
        len
    }

    /// The name of the entry, where it holds one that can be read.
    pub fn checked_name(&self) -> (name: Option<&str>)
        ensures
            name is Some <==> self.has_name(),
            name matches Some(s) ==> s@ == decode_utf8(self.name_bytes()) && s.spec_bytes()
                == self.name_bytes(),
    {
        let len = self.name_len();
        if len >= NAME_FIELD_SZ {
            return None;
        }
        let text = slice_subrange(self.name.as_slice(), 0, len);
        match core::str::from_utf8(text) {
            Ok(s) => {
                proof {
                    encode_utf8_decode_utf8(s@);
                }
                Some(s)
            },
            Err(_) => None,
        }
    }

    /// Get the name of the entry: the text before the first 0 byte of the
    /// name field.
    pub fn name(&self) -> (name: &str)
        requires
            self.has_name(),
        ensures
            name@ == decode_utf8(self.name_bytes()),
            name.spec_bytes() == self.name_bytes(),
    {
        self.checked_name().unwrap()
    }

    /// Get the inode number of the entry.
    pub fn inode_number(&self) -> (n: u32)
        ensures
            n == self.inode_number,
    {
        self.inode_number
    }
}

} // verus!
