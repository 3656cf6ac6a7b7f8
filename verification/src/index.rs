//! The staging-index reader: a 12-byte header (4-byte signature, 4-byte
//! version, 4-byte big-endian entry count) followed by entries, each a fixed
//! 62-byte field block and a NUL-terminated path. Read-only: nothing here
//! writes an index back.

use vstd::prelude::*;
use vstd::slice::{slice_subrange, slice_to_vec};
use crate::error::{WitError, malformed_object_err};
use crate::util::{NUL, hex, hex_of, spec_find, find_byte, lemma_find_props};

verus! {

/// A 32-bit big-endian field at `off`.
pub open spec fn be32_at(s: Seq<u8>, off: int) -> int {
    s[off] * 0x1000000 + s[off + 1] * 0x10000 + s[off + 2] * 0x100 + s[off + 3]
}

/// A 16-bit big-endian field at `off`.
pub open spec fn be16_at(s: Seq<u8>, off: int) -> int {
    s[off] * 0x100 + s[off + 1]
}

/// Reads a 32-bit big-endian field.
fn read_be32(raw: &Vec<u8>, off: usize) -> (r: u32)
    requires
        off + 4 <= raw.len(),
    ensures
        r == be32_at(raw@, off as int),
{
    (raw[off] as u32) * 0x1000000 + (raw[off + 1] as u32) * 0x10000 + (raw[off + 2] as u32) * 0x100
        + (raw[off + 3] as u32)
}

/// Reads a 16-bit big-endian field.
fn read_be16(raw: &Vec<u8>, off: usize) -> (r: u16)
    requires
        off + 2 <= raw.len(),
    ensures
        r == be16_at(raw@, off as int),
{
    (raw[off] as u16) * 0x100 + (raw[off + 1] as u16)
}

/// Mathematical model of one index entry.
pub struct SpecEntry {
    pub ctime: (int, int),
    pub mtime: (int, int),
    pub dev: int,
    pub ino: int,
    pub mode: int,
    pub uid: int,
    pub gid: int,
    pub size: int,
    pub hash: Seq<char>,
    pub flags: int,
    pub file_path: Seq<u8>,
}

/// The entry encoded by one `62 + path` byte block.
pub open spec fn spec_parse_entry(raw: Seq<u8>) -> SpecEntry {
    SpecEntry {
        ctime: (be32_at(raw, 0), be32_at(raw, 4)),
        mtime: (be32_at(raw, 8), be32_at(raw, 12)),
        dev: be32_at(raw, 16),
        ino: be32_at(raw, 20),
        mode: be32_at(raw, 24),
        uid: be32_at(raw, 28),
        gid: be32_at(raw, 32),
        size: be32_at(raw, 36),
        hash: hex_of(raw.subrange(40, 60)),
        flags: be16_at(raw, 60),
        file_path: raw.skip(62),
    }
}

/// The entries read from `raw` starting at `curs`: `n` blocks, each ending
/// at the first NUL after its 62 fixed bytes; nothing when the buffer runs
/// out first.
pub open spec fn spec_parse_entries(raw: Seq<u8>, curs: int, n: nat) -> Option<Seq<SpecEntry>>
    decreases n,
{
    if n == 0 {
        Some(Seq::empty())
    } else if curs < 0 || curs + 62 > raw.len() {
        None
    } else {
        match spec_find(raw, NUL, curs + 62) {
            None => None,
            Some(nix) => match spec_parse_entries(raw, nix + 1, (n - 1) as nat) {
                None => None,
                Some(rest) => Some(seq![spec_parse_entry(raw.subrange(curs, nix))] + rest),
            },
        }
    }
}

/// One entry of the staging index.
#[derive(Debug)]
pub struct IndexEntry {
    /// Change time: seconds and nanoseconds.
    pub ctime: (u32, u32),
    /// Modification time: seconds and nanoseconds.
    pub mtime: (u32, u32),
    /// Device id.
    pub dev: u32,
    /// Inode number.
    pub ino: u32,
    /// Mode bits.
    pub mode: u32,
    /// Owner's user id.
    pub uid: u32,
    /// Owner's group id.
    pub gid: u32,
    /// File size in bytes.
    pub size: u32,
    /// The object's identifier, as 40 hexadecimal characters.
    pub hash: String,
    /// Flag bits.
    pub flags: u16,
    /// The tracked path.
    pub file_path: Vec<u8>,
}

impl View for IndexEntry {
    type V = SpecEntry;

    open spec fn view(&self) -> SpecEntry {
        SpecEntry {
            ctime: (self.ctime.0 as int, self.ctime.1 as int),
            mtime: (self.mtime.0 as int, self.mtime.1 as int),
            dev: self.dev as int,
            ino: self.ino as int,
            mode: self.mode as int,
            uid: self.uid as int,
            gid: self.gid as int,
            size: self.size as int,
            hash: self.hash@,
            flags: self.flags as int,
            file_path: self.file_path@,
        }
    }
}

impl IndexEntry {
    /// Decodes one entry block: big-endian fields, the 20-byte digest
    /// rendered as 40 hexadecimal characters, and the path after the fixed
    /// block. A block shorter than its fixed part is malformed.
    pub fn from(raw: &Vec<u8>) -> (r: Result<IndexEntry, WitError>)
        ensures
            match r {
                Ok(e) => raw@.len() >= 62 && e@ == spec_parse_entry(raw@),
                Err(_) => raw@.len() < 62,
            },
    {
        if raw.len() < 62 {
            return Err(malformed_object_err("Index entry block is truncated.".to_owned()));
        }
        let hash_bytes = slice_to_vec(slice_subrange(raw.as_slice(), 40, 60));
        proof {
            assert(hash_bytes@ =~= raw@.subrange(40, 60));
        }
        let e = IndexEntry {
            ctime: (read_be32(raw, 0), read_be32(raw, 4)),
            mtime: (read_be32(raw, 8), read_be32(raw, 12)),
            dev: read_be32(raw, 16),
            ino: read_be32(raw, 20),
            mode: read_be32(raw, 24),
            uid: read_be32(raw, 28),
            gid: read_be32(raw, 32),
            size: read_be32(raw, 36),
            hash: hex(&hash_bytes),
            flags: read_be16(raw, 60),
            file_path: slice_to_vec(slice_subrange(raw.as_slice(), 62, raw.len())),
        };
        proof {
            assert(e.file_path@ =~= raw@.skip(62));
        }
        Ok(e)
    }
}

/// The staging index: its header fields and its entries.
#[derive(Debug)]
pub struct Index {
    /// The 4-byte signature.
    pub signature: Vec<u8>,
    /// The format version.
    pub version: u32,
    /// The declared entry count.
    pub nindex: u32,
    /// The decoded entries.
    pub entries: Vec<IndexEntry>,
}

/// View of a vector of entries.
pub open spec fn entries_view(es: Seq<IndexEntry>) -> Seq<SpecEntry> {
    Seq::new(es.len(), |i: int| es[i]@)
}

impl Index {
    /// Decodes a whole index buffer: the 12-byte header, then exactly the
    /// declared number of entries.
    pub fn from(raw: &Vec<u8>) -> (r: Result<Index, WitError>)
        ensures
            match r {
                Ok(idx) => raw@.len() >= 12 && idx.signature@ == raw@.take(4) && idx.version
                    == be32_at(raw@, 4) && idx.nindex == be32_at(raw@, 8) && spec_parse_entries(
                    raw@,
                    12,
                    idx.nindex as nat,
                ) == Some(entries_view(idx.entries@)),
                Err(_) => raw@.len() < 12 || spec_parse_entries(
                    raw@,
                    12,
                    be32_at(raw@, 8) as nat,
                ) is None,
            },
    {
        if raw.len() < 12 {
            return Err(malformed_object_err("Index header is truncated.".to_owned()));
        }
        let signature = slice_to_vec(slice_subrange(raw.as_slice(), 0, 4));
        let version = read_be32(raw, 4);
        let nindex = read_be32(raw, 8);
        proof {
            assert(signature@ =~= raw@.take(4));
        }
        let mut entries: Vec<IndexEntry> = Vec::new();
        let mut curs: usize = 12;
        let mut i: u32 = 0;
        proof {
            assert(entries_view(entries@) =~= Seq::<SpecEntry>::empty());
        }
        while i < nindex
            invariant
                i <= nindex,
                nindex == be32_at(raw@, 8),
                12 <= curs <= raw@.len(),
                forall|rest: Seq<SpecEntry>|
                    spec_parse_entries(raw@, curs as int, (nindex - i) as nat) == Some(rest)
                        ==> spec_parse_entries(raw@, 12, nindex as nat) == Some(
                        entries_view(entries@) + rest,
                    ),
                spec_parse_entries(raw@, curs as int, (nindex - i) as nat) is None
                    ==> spec_parse_entries(raw@, 12, nindex as nat) is None,
            decreases nindex - i,
        {
            let ghost pre = entries_view(entries@);
            if raw.len() < 62 || curs > raw.len() - 62 {
                proof {
                    assert(spec_parse_entries(raw@, curs as int, (nindex - i) as nat) is None);
                }
                return Err(malformed_object_err("Index entry block is truncated.".to_owned()));
            }
            let nix = match find_byte(raw, NUL, curs + 62) {
                Some(n) => n,
                None => {
                    proof {
                        assert(spec_parse_entries(raw@, curs as int, (nindex - i) as nat) is None);
                    }
                    return Err(
                        malformed_object_err("Index entry path is unterminated.".to_owned()),
                    );
                },
            };
            proof {
                lemma_find_props(raw@, NUL, curs + 62);
            }
            let block = slice_to_vec(slice_subrange(raw.as_slice(), curs, nix));
            proof {
                assert(block@ =~= raw@.subrange(curs as int, nix as int));
            }
            let entry = match IndexEntry::from(&block) {
                Ok(e) => e,
                Err(e) => {
                    return Err(e);
                },
            };
            entries.push(entry);
            proof {
                assert(entries_view(entries@) =~= pre.push(entries@.last()@));
                let rest_o = spec_parse_entries(raw@, nix + 1, (nindex - i - 1) as nat);
                assert forall|rest: Seq<SpecEntry>|
                    spec_parse_entries(raw@, nix + 1, (nindex - i - 1) as nat) == Some(
                        rest,
                    ) implies spec_parse_entries(raw@, 12, nindex as nat) == Some(
                    entries_view(entries@) + rest,
                ) by {
                    assert(spec_parse_entries(raw@, curs as int, (nindex - i) as nat) == Some(
                        seq![spec_parse_entry(raw@.subrange(curs as int, nix as int))] + rest,
                    ));
                    assert(pre + (seq![spec_parse_entry(raw@.subrange(curs as int, nix as int))]
                        + rest) =~= entries_view(entries@) + rest);
                }
                if spec_parse_entries(raw@, nix + 1, (nindex - i - 1) as nat) is None {
                    assert(spec_parse_entries(raw@, curs as int, (nindex - i) as nat) is None);
                }
            }
            curs = nix + 1;
            i = i + 1;
        }
        proof {
            assert(spec_parse_entries(raw@, curs as int, 0) == Some(Seq::<SpecEntry>::empty()));
            assert(entries_view(entries@) + Seq::<SpecEntry>::empty() =~= entries_view(entries@));
        }
        Ok(Index { signature, version, nindex, entries })
    }
}

} // verus!
