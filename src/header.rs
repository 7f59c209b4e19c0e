//! On-disk records of an archive: the header, hash-table and block-table
//! entries, and the sector-offset table of compressed files.
use vstd::prelude::*;
use vstd::wrapping::u32_specs;
use vstd::slice::{slice_subrange, slice_to_vec};

use crate::bytes::{le_u16, le_u32, read_u16_le, read_u32_le};
use crate::bytes::{bytes_of, lemma_words_of_bytes_of, words_of};
use crate::crypto::{decrypt_bytes, decrypt_words, Cipher};
use crate::error::MpqError;

verus! {

/// The ASCII marker "MPQ\x1A" read as a little-endian word.
pub const HEADER_MAGIC: u32 = 0x1A51_504D;

/// Bytes in a header; also the value its size field must hold.
pub const HEADER_SIZE: usize = 32;

/// The only format version this reader accepts.
pub const HEADER_VERSION: u16 = 0;

/// Headers are looked for at multiples of this many bytes.
pub const HEADER_ALIGN: usize = 512;

/// Bytes in one hash-table or block-table record.
pub const ENTRY_SIZE: usize = 16;

/// Archive header.
#[derive(Debug, Clone, Copy, PartialEq, Eq, Structural)]
pub struct Header {
    pub magic: u32,
    pub header_size: u32,
    pub file_size: u32,
    pub version: u16,
    pub block_size_factor: u16,
    pub hash_table_offset: u32,
    pub block_table_offset: u32,
    pub hash_table_count: u32,
    pub block_table_count: u32,
}

/// The header whose 32 bytes start at `at`.
pub open spec fn parse_header(b: Seq<u8>, at: int) -> Header {
    Header {
        magic: le_u32(b, at),
        header_size: le_u32(b, at + 4),
        file_size: le_u32(b, at + 8),
        version: le_u16(b, at + 12),
        block_size_factor: le_u16(b, at + 14),
        hash_table_offset: le_u32(b, at + 16),
        block_table_offset: le_u32(b, at + 20),
        hash_table_count: le_u32(b, at + 24),
        block_table_count: le_u32(b, at + 28),
    }
}

/// A valid header sits at `at`: a 512-byte boundary with 32 bytes after it.
pub open spec fn header_at(b: Seq<u8>, at: int) -> bool {
    &&& 0 <= at
    &&& at % (HEADER_ALIGN as int) == 0
    &&& at + HEADER_SIZE <= b.len()
    &&& parse_header(b, at).valid()
}

/// The first valid header of `b` sits at `at`.
pub open spec fn first_header_at(b: Seq<u8>, at: int) -> bool {
    &&& header_at(b, at)
    &&& forall|o: int| 0 <= o < at ==> !header_at(b, o)
}

impl Header {
    pub open spec fn valid(self) -> bool {
        &&& self.magic == HEADER_MAGIC
        &&& self.header_size == HEADER_SIZE
        &&& self.version == HEADER_VERSION
    }

    /// Check the magic, size and version fields.
    pub fn is_valid(&self) -> (r: bool)
        ensures
            r == self.valid(),
    {
        self.magic == HEADER_MAGIC && self.header_size == HEADER_SIZE as u32 && self.version
            == HEADER_VERSION
    }

    /// Decode a header from the first 32 bytes of `bytes`.
    pub fn read(bytes: &[u8]) -> (h: Header)
        requires
            bytes@.len() >= HEADER_SIZE,
        ensures
            h == parse_header(bytes@, 0),
    {
        Header {
            magic: read_u32_le(bytes, 0),
            header_size: read_u32_le(bytes, 4),
            file_size: read_u32_le(bytes, 8),
            version: read_u16_le(bytes, 12),
            block_size_factor: read_u16_le(bytes, 14),
            hash_table_offset: read_u32_le(bytes, 16),
            block_table_offset: read_u32_le(bytes, 20),
            hash_table_count: read_u32_le(bytes, 24),
            block_table_count: read_u32_le(bytes, 28),
        }
    }

    /// Scan the 512-byte boundaries of `data` from the start for a valid
    /// header; return it with the offset where it was found, or
    /// `HeaderNotFound` once no boundary with 32 bytes after it is left.
    pub fn find_in_file(data: &[u8]) -> (r: Result<(Header, usize), MpqError>)
        ensures
            match r {
                Ok((h, at)) => {
                    &&& first_header_at(data@, at as int)
                    &&& h == parse_header(data@, at as int)
                },
                Err(e) => {
                    &&& forall|o: int| !header_at(data@, o)
                    &&& e == MpqError::HeaderNotFound
                },
            },
    {
        let len = data.len();
        let mut at: usize = 0;
        loop
            invariant
                len == data@.len(),
                at <= len,
                at % HEADER_ALIGN == 0,
                forall|o: int| 0 <= o < at ==> !header_at(data@, o),
            decreases len - at,
        {
            if len - at < HEADER_SIZE {
                assert forall|o: int| !header_at(data@, o) by {
                    if o >= at && o % (HEADER_ALIGN as int) == 0 {
                        assert(o + HEADER_SIZE > len);
                    }
                }
                return Err(MpqError::HeaderNotFound);
            }
            let window = slice_subrange(data, at, at + HEADER_SIZE);
            let header = Header::read(window);
            assert(header == parse_header(data@, at as int));
            if header.is_valid() {
                return Ok((header, at));
            }
            if len - at < HEADER_ALIGN {
                assert forall|o: int| !header_at(data@, o) by {
                    if o > at && o % (HEADER_ALIGN as int) == 0 {
                        assert(o >= at + HEADER_ALIGN);
                    }
                }
                return Err(MpqError::HeaderNotFound);
            }
            assert forall|o: int| 0 <= o < at + HEADER_ALIGN implies !header_at(data@, o) by {
                if at < o && o % (HEADER_ALIGN as int) == 0 {
                    assert(o >= at + HEADER_ALIGN);
                }
            }
            at = at + HEADER_ALIGN;
        }
    }
}

/// Block index of a hash-table slot that was never filled; probing stops there.
pub const BLOCK_INDEX_FREE: u32 = 0xFFFF_FFFF;

/// Block index of a deleted slot; in this format it equals the free marker.
pub const BLOCK_INDEX_DELETED: u32 = 0xFFFF_FFFF;

/// The block holds a file.
pub const FLAG_EXISTS: u32 = 0x8000_0000;

/// The file's sectors are encrypted.
pub const FLAG_ENCRYPTED: u32 = 0x0001_0000;

/// The file's sectors are compressed with PKWare DCL ("imploded").
pub const FLAG_COMPRESS_PKWARE: u32 = 0x0000_0100;

/// The file's sectors use the multi-algorithm compression.
pub const FLAG_COMPRESS_MULTI: u32 = 0x0000_0200;

/// The file is stored as one unit rather than in sectors.
pub const FLAG_SINGLE: u32 = 0x0100_0000;

/// Entry of the hash table: the two name hashes of a file and the block it names.
#[derive(Debug, Clone, Copy, PartialEq, Eq, Structural)]
pub struct HashEntry {
    pub hash_a: u32,
    pub hash_b: u32,
    pub locale: u16,
    pub platform: u16,
    /// Index into the block table, or one of the `BLOCK_INDEX_*` markers.
    pub block_index: u32,
}

/// The hash entry whose 16 bytes start at `at`.
pub open spec fn parse_hash_entry(b: Seq<u8>, at: int) -> HashEntry {
    HashEntry {
        hash_a: le_u32(b, at),
        hash_b: le_u32(b, at + 4),
        locale: le_u16(b, at + 8),
        platform: le_u16(b, at + 10),
        block_index: le_u32(b, at + 12),
    }
}

/// Entry of the block table: where a file is stored and how.
#[derive(Debug, Clone, Copy, PartialEq, Eq, Structural)]
pub struct BlockEntry {
    /// Offset of the file's data from the start of the archive.
    pub offset: u32,
    /// Bytes the file takes in the archive.
    pub size_packed: u32,
    /// Bytes of the file once decompressed.
    pub size_unpacked: u32,
    /// A combination of the `FLAG_*` bits.
    pub flags: u32,
}

/// The block entry whose 16 bytes start at `at`.
pub open spec fn parse_block_entry(b: Seq<u8>, at: int) -> BlockEntry {
    BlockEntry {
        offset: le_u32(b, at),
        size_packed: le_u32(b, at + 4),
        size_unpacked: le_u32(b, at + 8),
        flags: le_u32(b, at + 12),
    }
}

/// The `count` records of 16 bytes that start `start` bytes into `d` lie within it.
pub open spec fn table_fits(d: Seq<u8>, start: int, count: int) -> bool {
    start + ENTRY_SIZE * count <= d.len()
}

/// The bytes of a table of `count` records at `start`, decrypted with `seed`.
#[verifier::opaque]
pub open spec fn table_plaintext(d: Seq<u8>, start: int, count: int, seed: u32) -> Seq<u8> {
    decrypt_bytes(d.subrange(start, start + ENTRY_SIZE * count), seed)
}

/// The hash table of `count` entries stored encrypted at `start`.
pub open spec fn hash_table_of(d: Seq<u8>, start: int, count: int, seed: u32) -> Seq<HashEntry> {
    hash_entries_of(table_plaintext(d, start, count, seed), count as nat)
}

/// The `count` consecutive entries decoded from `plain`.
pub open spec fn hash_entries_of(plain: Seq<u8>, count: nat) -> Seq<HashEntry> {
    Seq::new(count, |i: int| parse_hash_entry(plain, ENTRY_SIZE * i))
}

/// The block table of `count` entries stored encrypted at `start`.
pub open spec fn block_table_of(d: Seq<u8>, start: int, count: int, seed: u32) -> Seq<BlockEntry> {
    block_entries_of(table_plaintext(d, start, count, seed), count as nat)
}

/// The `count` consecutive entries decoded from `plain`.
pub open spec fn block_entries_of(plain: Seq<u8>, count: nat) -> Seq<BlockEntry> {
    Seq::new(count, |i: int| parse_block_entry(plain, ENTRY_SIZE * i))
}

/// Copy the `count` records at `archive_offset + table_offset` out of `data`
/// and decrypt them; `None` when they do not lie within `data`.
fn read_table_bytes(
    cipher: &Cipher,
    data: &[u8],
    archive_offset: usize,
    table_offset: u32,
    count: u32,
    seed: u32,
) -> (r: Option<Vec<u8>>)
    requires
        archive_offset <= data@.len(),
    ensures
        match r {
            Some(v) => {
                &&& table_fits(data@, archive_offset + table_offset, count as int)
                &&& v@ == table_plaintext(data@, archive_offset + table_offset, count as int, seed)
                &&& v@.len() == ENTRY_SIZE * count
            },
            None => !table_fits(data@, archive_offset + table_offset, count as int),
        },
{
    let room: usize = data.len() - archive_offset;
    if table_offset as usize > room || (count as usize) > (room - table_offset as usize) / ENTRY_SIZE {
        return None;
    }
    let start: usize = archive_offset + table_offset as usize;
    let end: usize = start + ENTRY_SIZE * count as usize;
    let mut buffer = slice_to_vec(slice_subrange(data, start, end));
    assert(buffer@.len() % 4 == 0);
    cipher.decrypt(buffer.as_mut_slice(), seed);
    proof {
        reveal(table_plaintext);
    }
    Some(buffer)
}

impl HashEntry {
    /// Decode an entry from the first 16 bytes of `bytes`.
    pub fn read(bytes: &[u8]) -> (e: HashEntry)
        requires
            bytes@.len() >= ENTRY_SIZE,
        ensures
            e == parse_hash_entry(bytes@, 0),
    {
        HashEntry {
            hash_a: read_u32_le(bytes, 0),
            hash_b: read_u32_le(bytes, 4),
            locale: read_u16_le(bytes, 8),
            platform: read_u16_le(bytes, 10),
            block_index: read_u32_le(bytes, 12),
        }
    }

    /// Decode `count` consecutive entries from the start of `plain`.
    fn parse_all(plain: &[u8], count: usize) -> (v: Vec<HashEntry>)
        requires
            plain@.len() == ENTRY_SIZE * count,
        ensures
            v@ == hash_entries_of(plain@, count as nat),
    {
        let len = plain.len();
        let mut entries: Vec<HashEntry> = Vec::new();
        let mut i: usize = 0;
        while i < count
            invariant
                len == plain@.len() == ENTRY_SIZE * count,
                i <= count,
                entries@.len() == i,
                forall|j: int| 0 <= j < i ==> #[trigger] entries@[j] == parse_hash_entry(plain@, ENTRY_SIZE * j),
            decreases count - i,
        {
            let at: usize = ENTRY_SIZE * i;
            let record = slice_subrange(plain, at, at + ENTRY_SIZE);
            entries.push(HashEntry::read(record));
            i = i + 1;
        }
        assert(entries@ =~= hash_entries_of(plain@, count as nat));
        entries
    }

    /// Read and decrypt the `count` entries stored at `table_offset` from the
    /// archive start; `CorruptIndex` when they do not lie within `data`.
    pub fn read_table(
        cipher: &Cipher,
        data: &[u8],
        archive_offset: usize,
        table_offset: u32,
        count: u32,
        seed: u32,
    ) -> (r: Result<Vec<HashEntry>, MpqError>)
        requires
            archive_offset <= data@.len(),
        ensures
            match r {
                Ok(v) => {
                    &&& table_fits(data@, archive_offset + table_offset, count as int)
                    &&& v@ == hash_table_of(data@, archive_offset + table_offset, count as int, seed)
                },
                Err(e) => {
                    &&& !table_fits(data@, archive_offset + table_offset, count as int)
                    &&& e == MpqError::CorruptIndex
                },
            },
    {
        let plain = match read_table_bytes(cipher, data, archive_offset, table_offset, count, seed) {
            Some(p) => p,
            None => return Err(MpqError::CorruptIndex),
        };
        let entries = HashEntry::parse_all(plain.as_slice(), count as usize);
        Ok(entries)
    }
}

impl BlockEntry {
    /// Decode an entry from the first 16 bytes of `bytes`.
    pub fn read(bytes: &[u8]) -> (e: BlockEntry)
        requires
            bytes@.len() >= ENTRY_SIZE,
        ensures
            e == parse_block_entry(bytes@, 0),
    {
        BlockEntry {
            offset: read_u32_le(bytes, 0),
            size_packed: read_u32_le(bytes, 4),
            size_unpacked: read_u32_le(bytes, 8),
            flags: read_u32_le(bytes, 12),
        }
    }

    /// Decode `count` consecutive entries from the start of `plain`.
    fn parse_all(plain: &[u8], count: usize) -> (v: Vec<BlockEntry>)
        requires
            plain@.len() == ENTRY_SIZE * count,
        ensures
            v@ == block_entries_of(plain@, count as nat),
    {
        let len = plain.len();
        let mut entries: Vec<BlockEntry> = Vec::new();
        let mut i: usize = 0;
        while i < count
            invariant
                len == plain@.len() == ENTRY_SIZE * count,
                i <= count,
                entries@.len() == i,
                forall|j: int| 0 <= j < i ==> #[trigger] entries@[j] == parse_block_entry(plain@, ENTRY_SIZE * j),
            decreases count - i,
        {
            let at: usize = ENTRY_SIZE * i;
            let record = slice_subrange(plain, at, at + ENTRY_SIZE);
            entries.push(BlockEntry::read(record));
            i = i + 1;
        }
        assert(entries@ =~= block_entries_of(plain@, count as nat));
        entries
    }

    /// Read and decrypt the `count` entries stored at `table_offset` from the
    /// archive start; `CorruptIndex` when they do not lie within `data`.
    pub fn read_table(
        cipher: &Cipher,
        data: &[u8],
        archive_offset: usize,
        table_offset: u32,
        count: u32,
        seed: u32,
    ) -> (r: Result<Vec<BlockEntry>, MpqError>)
        requires
            archive_offset <= data@.len(),
        ensures
            match r {
                Ok(v) => {
                    &&& table_fits(data@, archive_offset + table_offset, count as int)
                    &&& v@ == block_table_of(data@, archive_offset + table_offset, count as int, seed)
                },
                Err(e) => {
                    &&& !table_fits(data@, archive_offset + table_offset, count as int)
                    &&& e == MpqError::CorruptIndex
                },
            },
    {
        let plain = match read_table_bytes(cipher, data, archive_offset, table_offset, count, seed) {
            Some(p) => p,
            None => return Err(MpqError::CorruptIndex),
        };
        let entries = BlockEntry::parse_all(plain.as_slice(), count as usize);
        Ok(entries)
    }

    pub open spec fn has_flag(self, flag: u32) -> bool {
        self.flags & flag != 0
    }

    /// The block holds a file.
    pub fn file_exists(&self) -> (r: bool)
        ensures
            r == self.has_flag(FLAG_EXISTS),
    {
        self.flags & FLAG_EXISTS != 0
    }

    /// Either compression flag is set.
    pub fn is_compressed(&self) -> (r: bool)
        ensures
            r == (self.has_flag(FLAG_COMPRESS_PKWARE) || self.has_flag(FLAG_COMPRESS_MULTI)),
    {
        let flags = self.flags;
        assert(flags & (FLAG_COMPRESS_PKWARE | FLAG_COMPRESS_MULTI) != 0 <==> (flags
            & FLAG_COMPRESS_PKWARE != 0 || flags & FLAG_COMPRESS_MULTI != 0)) by (bit_vector);
        flags & (FLAG_COMPRESS_PKWARE | FLAG_COMPRESS_MULTI) != 0
    }

    pub fn is_imploded(&self) -> (r: bool)
        ensures
            r == self.has_flag(FLAG_COMPRESS_PKWARE),
    {
        self.flags & FLAG_COMPRESS_PKWARE != 0
    }

    pub fn is_encrypted(&self) -> (r: bool)
        ensures
            r == self.has_flag(FLAG_ENCRYPTED),
    {
        self.flags & FLAG_ENCRYPTED != 0
    }

    pub fn has_muli_compression(&self) -> (r: bool)
        ensures
            r == self.has_flag(FLAG_COMPRESS_MULTI),
    {
        self.flags & FLAG_COMPRESS_MULTI != 0
    }
}

/// Sectors needed for `size` bytes in sectors of `sector_size` bytes, rounding up.
pub open spec fn sector_count(size: nat, sector_size: nat) -> nat {
    if sector_size == 0 {
        0
    } else {
        ((size + sector_size - 1) / (sector_size as int)) as nat
    }
}

/// The seed of a sector-offset table: one less than the file key.
pub open spec fn sector_table_seed(key: u32) -> u32 {
    u32_specs::wrapping_sub(key, 1)
}

/// The `count + 1` words of the sector-offset table at `at`, decrypted when
/// the file has a key.
pub open spec fn sector_table_of(d: Seq<u8>, key: Option<u32>, at: int, count: nat) -> Seq<u32> {
    let raw = words_of(d.subrange(at, at + 4 * (count + 1)));
    match key {
        Some(k) => decrypt_words(raw, sector_table_seed(k)),
        None => raw,
    }
}

/// Each offset is at most the next one.
pub open spec fn non_decreasing(s: Seq<u32>) -> bool {
    forall|i: int| 0 <= i < s.len() - 1 ==> #[trigger] s[i] <= s[i + 1]
}

/// Copy the `count + 1` words at `offset` out of `data`, decrypting them when
/// the file has a key.
fn read_sector_table(
    cipher: &Cipher,
    data: &[u8],
    file_key: Option<u32>,
    offset: usize,
    count: usize,
) -> (v: Vec<u32>)
    requires
        offset + 4 * (count + 1) <= data@.len(),
    ensures
        v@ == sector_table_of(data@, file_key, offset as int, count as nat),
        v@.len() == count + 1,
{
    let len = data.len();
    let end: usize = offset + 4 * (count + 1);
    let mut buffer = slice_to_vec(slice_subrange(data, offset, end));
    let ghost raw = buffer@;
    assert(raw == data@.subrange(offset as int, offset + 4 * (count + 1)));
    let ghost words: Seq<u32>;
    match file_key {
        Some(key) => {
            cipher.decrypt(buffer.as_mut_slice(), key.wrapping_sub(1));
            proof {
                let plain = decrypt_words(words_of(raw), sector_table_seed(key));
                lemma_words_of_bytes_of(plain);
                assert(buffer@ == bytes_of(plain));
                words = plain;
            }
        },
        None => {
            proof {
                words = words_of(raw);
            }
        },
    }
    assert(words == words_of(buffer@));
    assert(words == sector_table_of(data@, file_key, offset as int, count as nat));
    let blen = buffer.len();
    let mut offsets: Vec<u32> = Vec::new();
    let mut i: usize = 0;
    while i <= count
        invariant
            blen == buffer@.len() == 4 * (count + 1),
            words == words_of(buffer@),
            i <= count + 1,
            offsets@.len() == i,
            forall|j: int| 0 <= j < i ==> #[trigger] offsets@[j] == words[j],
        decreases count + 1 - i,
    {
        offsets.push(read_u32_le(buffer.as_slice(), 4 * i));
        i = i + 1;
    }
    assert(offsets@ =~= words);
    offsets
}

fn is_non_decreasing(v: &Vec<u32>) -> (r: bool)
    ensures
        r == non_decreasing(v@),
{
    let n = v.len();
    let mut k: usize = 1;
    while k < n
        invariant
            n == v@.len(),
            1 <= k,
            k <= n || n == 0,
            forall|j: int| 0 <= j < k - 1 ==> #[trigger] v@[j] <= v@[j + 1],
        decreases n - k,
    {
        if v[k - 1] > v[k] {
            assert(!(v@[k - 1] <= v@[k - 1 + 1]));
            return false;
        }
        k = k + 1;
    }
    true
}

/// The sectors of a compressed file: `n + 1` offsets, from the start of the
/// file's data, that delimit `n` sectors; walked once, front to back.
#[derive(Debug)]
pub struct FileSectors {
    index: usize,
    offsets: Vec<u32>,
}

impl FileSectors {
    #[verifier::type_invariant]
    spec fn well_formed(&self) -> bool {
        &&& self.offsets@.len() >= 1
        &&& self.index < self.offsets@.len()
        &&& non_decreasing(self.offsets@)
    }

    /// The sector offsets.
    pub closed spec fn offsets(&self) -> Seq<u32> {
        self.offsets@
    }

    /// How many sectors have been handed out.
    pub closed spec fn position(&self) -> nat {
        self.index as nat
    }

    /// Read the sector-offset table of a file of `size_unpacked` bytes whose
    /// data starts at `offset` in `data`, decrypting it with one less than
    /// `file_key` when there is one. `Io` when the table does not lie within
    /// `data`; `CorruptSector` when its offsets decrease somewhere.
    pub fn get(
        cipher: &Cipher,
        data: &[u8],
        file_key: Option<u32>,
        offset: usize,
        size_unpacked: usize,
        sector_size: usize,
    ) -> (r: Result<FileSectors, MpqError>)
        requires
            sector_size > 0,
        ensures
            ({
                let count = sector_count(size_unpacked as nat, sector_size as nat);
                let fits = offset + 4 * (count + 1) <= data@.len();
                match r {
                    Ok(fs) => {
                        &&& fits
                        &&& fs.offsets() == sector_table_of(data@, file_key, offset as int, count)
                        &&& fs.offsets().len() == count + 1
                        &&& non_decreasing(fs.offsets())
                        &&& fs.position() == 0
                    },
                    Err(e) => if !fits {
                        e == MpqError::Io
                    } else {
                        &&& e == MpqError::CorruptSector
                        &&& !non_decreasing(sector_table_of(data@, file_key, offset as int, count))
                    },
                }
            }),
    {
        let ghost count = sector_count(size_unpacked as nat, sector_size as nat);
        let sectors: usize = if size_unpacked == 0 {
            0
        } else {
            (size_unpacked - 1) / sector_size + 1
        };
        assert(sectors == count) by (nonlinear_arith)
            requires
                sector_size > 0,
                count == (size_unpacked + sector_size - 1) / (sector_size as int),
                sectors == if size_unpacked == 0 {
                    0
                } else {
                    (size_unpacked - 1) / (sector_size as int) + 1
                },
        ;
        let len = data.len();
        if offset > len || sectors >= (len - offset) / 4 {
            return Err(MpqError::Io);
        }
        let offsets = read_sector_table(cipher, data, file_key, offset, sectors);
        if !is_non_decreasing(&offsets) {
            return Err(MpqError::CorruptSector);
        }
        Ok(FileSectors { index: 0, offsets })
    }

    /// The next sector as (offset from the file's data, size in bytes), or
    /// `None` once every sector has been handed out.
    pub fn next(&mut self) -> (r: Option<(usize, usize)>)
        ensures
            final(self).offsets() == old(self).offsets(),
            old(self).position() + 1 < old(self).offsets().len() ==> {
                let i = old(self).position() as int;
                &&& r == Some(
                    (
                        old(self).offsets()[i] as usize,
                        (old(self).offsets()[i + 1] - old(self).offsets()[i]) as usize,
                    ),
                )
                &&& old(self).offsets()[i] <= old(self).offsets()[i + 1]
                &&& final(self).position() == i + 1
            },
            old(self).position() + 1 >= old(self).offsets().len() ==> {
                &&& r is None
                &&& final(self).position() == old(self).position()
            },
    {
        proof {
            use_type_invariant(&*self);
        }
        if self.index < self.offsets.len() - 1 {
            let offset = self.offsets[self.index];
            let size = self.offsets[self.index + 1] - offset;
            self.index = self.index + 1;
            Some((offset as usize, size as usize))
        } else {
            None
        }
    }
}

} // verus!
