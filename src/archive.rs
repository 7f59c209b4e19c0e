//! An opened archive: header, decrypted index tables, name lookup, and file
//! handles that read (decrypt, decompress) one stored file.
use vstd::arithmetic::power2::{lemma2_to64, lemma_pow2_unfold, pow2};
use vstd::bits::lemma_u32_low_bits_mask_is_mod;
use vstd::prelude::*;
use vstd::slice::slice_subrange;
use vstd::string::StringSliceAdditionalSpecFns;

use vstd::bits::lemma_u32_shl_is_mul;
use vstd::slice::slice_to_vec;
use vstd::wrapping::u32_specs;

use crate::compression::{copy_at, explode_bytes, exploded, splice};
use crate::crypto::{decrypt_bytes, hash_of, lemma_hash_ignores_case, upper_byte, Cipher, HashType};
use crate::error::MpqError;
use crate::header::{
    block_table_of, first_header_at, hash_table_of, header_at, parse_header,
    non_decreasing, sector_count, sector_table_of, table_fits, BlockEntry, FileSectors, HashEntry,
    Header, FLAG_COMPRESS_MULTI, FLAG_COMPRESS_PKWARE,
    BLOCK_INDEX_FREE, FLAG_ENCRYPTED, FLAG_EXISTS,
};

verus! {

/// `n` is 1, 2, 4, 8, ...
pub open spec fn is_power_of_two(n: nat) -> bool
    decreases n,
{
    if n <= 1 {
        n == 1
    } else {
        n % 2 == 0 && is_power_of_two(n / 2)
    }
}

proof fn lemma_power_of_two_is_pow2(n: nat)
    requires
        is_power_of_two(n),
    ensures
        exists|e: nat| pow2(e) == n && e < n,
    decreases n,
{
    if n == 1 {
        lemma2_to64();
    } else {
        lemma_power_of_two_is_pow2(n / 2);
        let e = choose|e: nat| pow2(e) == n / 2 && e < n / 2;
        lemma_pow2_unfold(e + 1);
        assert(pow2(e + 1) == n);
    }
}

/// For a hash table whose length `n` is a power of two, masking any index
/// with `n - 1` reduces it modulo `n`, so every probe lands in the table.
pub proof fn lemma_mask_is_mod(x: u32, n: u32)
    requires
        is_power_of_two(n as nat),
    ensures
        x & ((n - 1) as u32) == x % n,
        x & ((n - 1) as u32) < n,
{
    lemma_power_of_two_is_pow2(n as nat);
    let e = choose|e: nat| pow2(e) == n && e < n;
    lemma2_to64();
    if e > 32 {
        vstd::arithmetic::power2::lemma_pow2_strictly_increases(32, e);
    }
    lemma_u32_low_bits_mask_is_mod(x, e);
}

fn count_is_power_of_two(n: u32) -> (r: bool)
    ensures
        r == is_power_of_two(n as nat),
{
    let mut m: u32 = n;
    while m > 1 && m % 2 == 0
        invariant
            is_power_of_two(m as nat) == is_power_of_two(n as nat),
        decreases m,
    {
        m = m / 2;
    }
    m == 1
}

/// The hash entry met at step `j` of a probe that starts at slot `start`.
pub open spec fn probe_slot(table: Seq<HashEntry>, start: int, j: int) -> HashEntry {
    table[(start + j) % table.len() as int]
}

pub open spec fn entry_matches(e: HashEntry, hash_a: u32, hash_b: u32) -> bool {
    e.hash_a == hash_a && e.hash_b == hash_b
}

/// Step `j` of the probe from `start` matches the name hashes, and every
/// earlier step neither matched nor met a free slot.
pub open spec fn found_at(table: Seq<HashEntry>, start: int, hash_a: u32, hash_b: u32, j: int) -> bool {
    &&& 0 <= j < table.len()
    &&& entry_matches(probe_slot(table, start, j), hash_a, hash_b)
    &&& forall|k: int|
        0 <= k < j ==> !entry_matches(#[trigger] probe_slot(table, start, k), hash_a, hash_b)
            && probe_slot(table, start, k).block_index != BLOCK_INDEX_FREE
}

/// Linear probing from `start`: the block index of the entry found, if any.
pub open spec fn probe(table: Seq<HashEntry>, start: int, hash_a: u32, hash_b: u32) -> Option<u32> {
    if exists|j: int| found_at(table, start, hash_a, hash_b, j) {
        let j = choose|j: int| found_at(table, start, hash_a, hash_b, j);
        Some(probe_slot(table, start, j).block_index)
    } else {
        None
    }
}

/// A probe in a table where no entry carries the name hashes finds nothing,
/// from any start, whether or not the table has a free slot.
pub proof fn lemma_probe_without_match_fails(table: Seq<HashEntry>, start: int, hash_a: u32, hash_b: u32)
    requires
        forall|i: int| 0 <= i < table.len() ==> !entry_matches(#[trigger] table[i], hash_a, hash_b),
    ensures
        probe(table, start, hash_a, hash_b) is None,
{
    assert forall|j: int| !found_at(table, start, hash_a, hash_b, j) by {
        if 0 <= j < table.len() {
            let k = (start + j) % table.len() as int;
            assert(0 <= k < table.len());
            assert(!entry_matches(table[k], hash_a, hash_b));
        }
    }
}

/// The block index that `name` resolves to in `table`: probing starts at its
/// table-offset hash reduced to the table, and looks for its two name hashes.
pub open spec fn resolve(table: Seq<HashEntry>, name: Seq<u8>) -> Option<u32> {
    probe(
        table,
        hash_of(name, HashType::TableOffset) as int % table.len() as int,
        hash_of(name, HashType::NameA),
        hash_of(name, HashType::NameB),
    )
}

/// Names that agree once upper-cased resolve to the same block in any table.
pub proof fn lemma_resolve_ignores_case(table: Seq<HashEntry>, a: Seq<u8>, b: Seq<u8>)
    requires
        a.len() == b.len(),
        forall|i: int| 0 <= i < a.len() ==> #[trigger] upper_byte(a[i]) == upper_byte(b[i]),
    ensures
        resolve(table, a) == resolve(table, b),
{
    lemma_hash_ignores_case(a, b, HashType::TableOffset);
    lemma_hash_ignores_case(a, b, HashType::NameA);
    lemma_hash_ignores_case(a, b, HashType::NameB);
}

/// Whether the path separator `b` is '/' or '\'.
pub open spec fn is_separator(b: u8) -> bool {
    b == 0x2F || b == 0x5C
}

/// Where the last path component of the first `n` bytes of `name` begins.
pub open spec fn basename_start(name: Seq<u8>, n: int) -> int
    decreases n,
{
    if n <= 0 {
        0
    } else if is_separator(name[n - 1]) {
        n
    } else {
        basename_start(name, n - 1)
    }
}

/// The last path component of `name`.
pub open spec fn basename(name: Seq<u8>) -> Seq<u8> {
    name.subrange(basename_start(name, name.len() as int), name.len() as int)
}

/// The bytes of "(hash table)", whose hash seeds the hash table's cipher.
pub open spec fn hash_table_key_text() -> Seq<u8> {
    seq![0x28u8, 0x68, 0x61, 0x73, 0x68, 0x20, 0x74, 0x61, 0x62, 0x6C, 0x65, 0x29]
}

/// The bytes of "(block table)", whose hash seeds the block table's cipher.
pub open spec fn block_table_key_text() -> Seq<u8> {
    seq![0x28u8, 0x62, 0x6C, 0x6F, 0x63, 0x6B, 0x20, 0x74, 0x61, 0x62, 0x6C, 0x65, 0x29]
}

/// What an opened archive holds.
pub struct ArchiveModel {
    /// The bytes of the whole file.
    pub data: Seq<u8>,
    /// Where in the file the archive begins.
    pub offset: nat,
    pub header: Header,
    pub hash_table: Seq<HashEntry>,
    pub block_table: Seq<BlockEntry>,
}

/// The archive that `data` holds, as `Archive::open` reads it.
pub open spec fn archive_in(data: Seq<u8>, offset: nat) -> ArchiveModel {
    let header = parse_header(data, offset as int);
    ArchiveModel {
        data,
        offset,
        header,
        hash_table: hash_table_of(
            data,
            offset + header.hash_table_offset,
            header.hash_table_count as int,
            hash_of(hash_table_key_text(), HashType::FileKey),
        ),
        block_table: block_table_of(
            data,
            offset + header.block_table_offset,
            header.block_table_count as int,
            hash_of(block_table_key_text(), HashType::FileKey),
        ),
    }
}

/// The header at `at` admits reading both tables: the hash table's entry
/// count is a power of two and both tables lie within `data`.
pub open spec fn tables_readable(data: Seq<u8>, at: int) -> bool {
    let header = parse_header(data, at);
    &&& is_power_of_two(header.hash_table_count as nat)
    &&& table_fits(data, at + header.hash_table_offset, header.hash_table_count as int)
    &&& table_fits(data, at + header.block_table_offset, header.block_table_count as int)
}

/// What `get_file` makes of `name`: the file's key (when it is encrypted) and
/// its block entry, or why there is no such file.
pub open spec fn file_lookup(a: ArchiveModel, name: Seq<u8>) -> Result<(Option<u32>, BlockEntry), MpqError> {
    match resolve(a.hash_table, name) {
        None => Err(MpqError::NotFound),
        Some(index) => if index >= a.block_table.len() {
            Err(MpqError::CorruptIndex)
        } else {
            let block = a.block_table[index as int];
            if !block.has_flag(FLAG_EXISTS) {
                Err(MpqError::FilePresentButMissing)
            } else if !block.has_flag(FLAG_ENCRYPTED) {
                Ok((None, block))
            } else if basename(name).len() == 0 {
                Err(MpqError::InvalidName)
            } else {
                Ok((Some(hash_of(basename(name), HashType::FileKey)), block))
            }
        },
    }
}

/// Bytes of decompressed data per sector: 512 shifted left by the header's factor.
pub open spec fn sector_size_of(factor: u16) -> nat {
    512 * pow2(factor as nat)
}

/// The key of sector `i` of a file whose key is `key`.
pub open spec fn sector_key(key: u32, i: int) -> u32 {
    u32_specs::wrapping_add(key, i as u32)
}

/// The stored bytes `raw` of sector `i` decoded: decrypted with the file key
/// plus `i` when there is a key (their length must then be a multiple of
/// four), then decompressed.
pub open spec fn decode_raw_sector(raw: Seq<u8>, key: Option<u32>, imploded: bool, i: int) -> Result<Seq<u8>, MpqError> {
    let plain = match key {
        Some(k) => if raw.len() % 4 == 0 {
            Some(decrypt_bytes(raw, sector_key(k, i)))
        } else {
            None
        },
        None => Some(raw),
    };
    match plain {
        None => Err(MpqError::CorruptSector),
        Some(p) => if !imploded {
            Err(MpqError::UnsupportedCompression)
        } else {
            match exploded(p) {
                Some(v) => Ok(v),
                None => Err(MpqError::ExplodeError),
            }
        },
    }
}

/// Sector `i` of a compressed file whose data starts at `base` and whose
/// sector offsets are `offsets`, read and decoded.
pub open spec fn sector_decoded(
    data: Seq<u8>,
    base: int,
    offsets: Seq<u32>,
    key: Option<u32>,
    imploded: bool,
    i: int,
) -> Result<Seq<u8>, MpqError> {
    if base + offsets[i + 1] > data.len() {
        Err(MpqError::Io)
    } else {
        decode_raw_sector(data.subrange(base + offsets[i], base + offsets[i + 1]), key, imploded, i)
    }
}

/// The first `n` sectors decoded and joined, failing at the first sector that
/// fails or that would take the output past `limit` bytes.
pub open spec fn sectors_decoded(
    data: Seq<u8>,
    base: int,
    offsets: Seq<u32>,
    key: Option<u32>,
    imploded: bool,
    limit: nat,
    n: nat,
) -> Result<Seq<u8>, MpqError>
    decreases n,
{
    if n == 0 {
        Ok(Seq::empty())
    } else {
        match sectors_decoded(data, base, offsets, key, imploded, limit, (n - 1) as nat) {
            Err(e) => Err(e),
            Ok(prev) => match sector_decoded(data, base, offsets, key, imploded, n - 1) {
                Err(e) => Err(e),
                Ok(s) => if prev.len() + s.len() > limit {
                    Err(MpqError::CorruptSector)
                } else {
                    Ok(prev + s)
                },
            },
        }
    }
}

/// Once a prefix of the sectors fails, every longer prefix fails the same way.
proof fn lemma_sectors_error_persists(
    data: Seq<u8>,
    base: int,
    offsets: Seq<u32>,
    key: Option<u32>,
    imploded: bool,
    limit: nat,
    k: nat,
    m: nat,
)
    requires
        k <= m,
        sectors_decoded(data, base, offsets, key, imploded, limit, k) is Err,
    ensures
        sectors_decoded(data, base, offsets, key, imploded, limit, m) == sectors_decoded(
            data,
            base,
            offsets,
            key,
            imploded,
            limit,
            k,
        ),
    decreases m - k,
{
    if k < m {
        lemma_sectors_error_persists(data, base, offsets, key, imploded, limit, k, (m - 1) as nat);
    }
}

/// A stored (uncompressed) file of `n` bytes at `base`.
pub open spec fn stored_contents(data: Seq<u8>, base: int, n: nat) -> Result<Seq<u8>, MpqError> {
    if base + n > data.len() {
        Err(MpqError::Io)
    } else {
        Ok(data.subrange(base, base + n))
    }
}

/// A compressed file of `n` bytes whose data starts at `base`: its sector
/// table read, checked, and every sector decoded; the sectors must add up to
/// exactly `n` bytes.
pub open spec fn compressed_contents(
    data: Seq<u8>,
    base: int,
    key: Option<u32>,
    imploded: bool,
    n: nat,
    sector_size: nat,
) -> Result<Seq<u8>, MpqError> {
    let count = sector_count(n, sector_size);
    if base + 4 * (count + 1) > data.len() {
        Err(MpqError::Io)
    } else {
        let offsets = sector_table_of(data, key, base, count);
        if !non_decreasing(offsets) {
            Err(MpqError::CorruptSector)
        } else {
            match sectors_decoded(data, base, offsets, key, imploded, n, count) {
                Err(e) => Err(e),
                Ok(bytes) => if bytes.len() != n {
                    Err(MpqError::CorruptSector)
                } else {
                    Ok(bytes)
                },
            }
        }
    }
}

/// The contents of a file, as `File::read` produces them into a buffer of
/// `out_len` bytes, or the error it returns.
pub open spec fn file_contents(a: ArchiveModel, key: Option<u32>, block: BlockEntry, out_len: nat) -> Result<Seq<u8>, MpqError> {
    let n = block.size_unpacked as nat;
    let base = a.offset + block.offset;
    if out_len < n {
        Err(MpqError::BufferTooSmall)
    } else if !block.has_flag(FLAG_COMPRESS_PKWARE) && !block.has_flag(FLAG_COMPRESS_MULTI) {
        stored_contents(a.data, base, n)
    } else {
        compressed_contents(
            a.data,
            base,
            key,
            block.has_flag(FLAG_COMPRESS_PKWARE),
            n,
            sector_size_of(a.header.block_size_factor),
        )
    }
}

/// A sector size that gives the same sector count as the header's for every
/// file size that fits in 32 bits: the exact size when it fits in 32 bits,
/// else `usize::MAX`.
fn sector_size_for(factor: u16) -> (s: usize)
    ensures
        s > 0,
        forall|n: nat| n <= u32::MAX ==> #[trigger] sector_count(n, s as nat) == sector_count(n, sector_size_of(factor)),
{
    proof {
        lemma2_to64();
    }
    if factor < 23 {
        proof {
            vstd::arithmetic::power2::lemma_pow2_pos(factor as nat);
            if factor < 22 {
                vstd::arithmetic::power2::lemma_pow2_strictly_increases(factor as nat, 22);
            }
            lemma_u32_shl_is_mul(512, factor as u32);
        }
        (512u32 << factor as u32) as usize
    } else {
        proof {
            if factor > 23 {
                vstd::arithmetic::power2::lemma_pow2_strictly_increases(23, factor as nat);
            }
        }
        assert forall|n: nat| n <= u32::MAX implies #[trigger] sector_count(n, usize::MAX as nat) == sector_count(n, sector_size_of(factor)) by {
            lemma_count_of_large_sector(n, usize::MAX as nat);
            lemma_count_of_large_sector(n, sector_size_of(factor));
        }
        usize::MAX
    }
}

/// A file no larger than one sector takes one sector, or none when empty.
proof fn lemma_count_of_large_sector(n: nat, s: nat)
    requires
        n <= s,
        s > 0,
    ensures
        sector_count(n, s) == if n == 0 { 0nat } else { 1nat },
{
    if n == 0 {
        assert((s - 1) / (s as int) == 0) by (nonlinear_arith)
            requires s > 0;
    } else {
        assert((n + s - 1) / (s as int) == 1) by (nonlinear_arith)
            requires 0 < n <= s;
    }
}

/// MPQ archive held in memory, with its index tables decrypted.
pub struct Archive {
    data: Vec<u8>,
    offset: usize,
    header: Header,
    hash_table: Vec<HashEntry>,
    block_table: Vec<BlockEntry>,
    cipher: Cipher,
}

impl View for Archive {
    type V = ArchiveModel;

    closed spec fn view(&self) -> ArchiveModel {
        ArchiveModel {
            data: self.data@,
            offset: self.offset as nat,
            header: self.header,
            hash_table: self.hash_table@,
            block_table: self.block_table@,
        }
    }
}

impl Archive {
    #[verifier::type_invariant]
    spec fn well_formed(&self) -> bool {
        &&& self.offset <= self.data@.len()
        &&& self.hash_table@.len() == self.header.hash_table_count
        &&& is_power_of_two(self.hash_table@.len())
    }

    /// Open the archive held in the bytes of a file: find its header at a
    /// 512-byte boundary, then read and decrypt both index tables, which lie
    /// at their offsets from the header. `CorruptIndex` when the hash table's
    /// entry count is not a power of two or a table lies outside the file.
    pub fn open(data: Vec<u8>) -> (r: Result<Archive, MpqError>)
        ensures
            match r {
                Ok(a) => {
                    &&& first_header_at(data@, a@.offset as int)
                    &&& tables_readable(data@, a@.offset as int)
                    &&& a@ == archive_in(data@, a@.offset)
                    &&& is_power_of_two(a@.hash_table.len())
                    &&& a@.hash_table.len() == a@.header.hash_table_count
                },
                Err(e) => {
                    ||| {
                        &&& forall|o: int| !header_at(data@, o)
                        &&& e == MpqError::HeaderNotFound
                    }
                    ||| exists|at: int|
                        {
                            &&& first_header_at(data@, at)
                            &&& !tables_readable(data@, at)
                            &&& e == MpqError::CorruptIndex
                        }
                },
            },
    {
        let cipher = Cipher::new();
        let hash_key_text: [u8; 12] = [0x28, 0x68, 0x61, 0x73, 0x68, 0x20, 0x74, 0x61, 0x62, 0x6C, 0x65, 0x29];
        assert(hash_key_text@ =~= hash_table_key_text());
        let block_key_text: [u8; 13] = [0x28, 0x62, 0x6C, 0x6F, 0x63, 0x6B, 0x20, 0x74, 0x61, 0x62, 0x6C, 0x65, 0x29];
        assert(block_key_text@ =~= block_table_key_text());
        let hash_table_seed = cipher.hash_bytes(hash_key_text.as_slice(), HashType::FileKey);
        let block_table_seed = cipher.hash_bytes(block_key_text.as_slice(), HashType::FileKey);
        let (header, offset) = Header::find_in_file(data.as_slice())?;
        if !count_is_power_of_two(header.hash_table_count) {
            return Err(MpqError::CorruptIndex);
        }
        let hash_table = HashEntry::read_table(
            &cipher,
            data.as_slice(),
            offset,
            header.hash_table_offset,
            header.hash_table_count,
            hash_table_seed,
        )?;
        let block_table = BlockEntry::read_table(
            &cipher,
            data.as_slice(),
            offset,
            header.block_table_offset,
            header.block_table_count,
            block_table_seed,
        )?;
        Ok(Archive { data, offset, header, hash_table, block_table, cipher })
    }

    /// Probe the hash table for the name hashes `hash_a`, `hash_b`, starting
    /// at `hash_i` reduced to the table.
    fn probe_table(&self, hash_i: u32, hash_a: u32, hash_b: u32) -> (r: Option<u32>)
        ensures
            r == probe(self@.hash_table, hash_i as int % self@.hash_table.len() as int, hash_a, hash_b),
    {
        proof {
            use_type_invariant(self);
        }
        let ghost table = self.hash_table@;
        let count: u32 = self.header.hash_table_count;
        let mask: u32 = count - 1;
        let start: u32 = hash_i & mask;
        proof {
            lemma_mask_is_mod(hash_i, count);
        }
        let mut i: u32 = start;
        let mut steps: u32 = 0;
        assert(i == (start + steps) % (count as int)) by (nonlinear_arith)
            requires
                i == start,
                steps == 0,
                start == hash_i % count,
                count > 0;
        loop
            invariant
                table == self.hash_table@,
                count == table.len(),
                is_power_of_two(count as nat),
                mask == count - 1,
                start == hash_i % count,
                steps < count,
                i == (start + steps) % (count as int),
                forall|k: int|
                    0 <= k < steps ==> !entry_matches(#[trigger] probe_slot(table, start as int, k), hash_a, hash_b)
                        && probe_slot(table, start as int, k).block_index != BLOCK_INDEX_FREE,
            decreases count - steps,
        {
            let entry = &self.hash_table[i as usize];
            assert(*entry == probe_slot(table, start as int, steps as int));
            if entry.hash_a == hash_a && entry.hash_b == hash_b {
                assert(found_at(table, start as int, hash_a, hash_b, steps as int));
                assert forall|j: int| found_at(table, start as int, hash_a, hash_b, j) implies j == steps by {
                    if j > steps {
                        assert(!entry_matches(probe_slot(table, start as int, steps as int), hash_a, hash_b));
                    }
                }
                return Some(entry.block_index);
            }
            let next: u32 = (i + 1) & mask;
            proof {
                lemma_mask_is_mod((i + 1) as u32, count);
                assert(next == (start + steps + 1) % (count as int)) by (nonlinear_arith)
                    requires
                        next == (i + 1) % (count as int),
                        i == (start + steps) % (count as int),
                        count > 0;
            }
            if entry.block_index == BLOCK_INDEX_FREE || next == start {
                proof {
                    if next == start && entry.block_index != BLOCK_INDEX_FREE {
                        assert(steps + 1 == count) by (nonlinear_arith)
                            requires
                                start < count,
                                steps < count,
                                start == (start + steps + 1) % (count as int);
                    }
                    assert forall|j: int| !found_at(table, start as int, hash_a, hash_b, j) by {
                        if 0 <= j < count && j > steps {
                            assert(probe_slot(table, start as int, steps as int).block_index == BLOCK_INDEX_FREE
                                || !entry_matches(probe_slot(table, start as int, steps as int), hash_a, hash_b));
                        }
                    }
                }
                return None;
            }
            proof {
                if steps + 1 == count {
                    assert((start + steps + 1) % (count as int) == start) by (nonlinear_arith)
                        requires
                            steps + 1 == count,
                            start < count;
                }
            }
            i = next;
            steps = steps + 1;
        }
    }

    /// The block index that `filename` resolves to, if any.
    fn get_block_index(&self, filename: &[u8]) -> (r: Option<u32>)
        ensures
            r == resolve(self@.hash_table, filename@),
    {
        let hash_i = self.cipher.hash_bytes(filename, HashType::TableOffset);
        let hash_a = self.cipher.hash_bytes(filename, HashType::NameA);
        let hash_b = self.cipher.hash_bytes(filename, HashType::NameB);
        self.probe_table(hash_i, hash_a, hash_b)
    }

    /// Whether `filename` is in the hash table. Reads nothing but the
    /// archive, and changes nothing.
    pub fn has_file(&self, filename: &str) -> (r: bool)
        ensures
            r == resolve(self@.hash_table, filename.spec_bytes()) is Some,
    {
        self.get_block_index(filename.as_bytes()).is_some()
    }

    /// A handle on the file stored under `filename`. An encrypted file's key
    /// is the hash of the last component of the name, after the last '/' or
    /// '\'. Reads nothing but the index tables.
    pub fn get_file(&self, filename: &str) -> (r: Result<File<'_>, MpqError>)
        ensures
            match r {
                Ok(f) => {
                    &&& file_lookup(self@, filename.spec_bytes()) == Ok::<(Option<u32>, BlockEntry), MpqError>((f.key(), f.block()))
                    &&& f.archive() == self@
                },
                Err(e) => file_lookup(self@, filename.spec_bytes()) == Err::<(Option<u32>, BlockEntry), MpqError>(e),
            },
    {
        let name = filename.as_bytes();
        let index = match self.get_block_index(name) {
            Some(i) => i,
            None => return Err(MpqError::NotFound),
        };
        if index as usize >= self.block_table.len() {
            return Err(MpqError::CorruptIndex);
        }
        let block = self.block_table[index as usize];
        if !block.file_exists() {
            return Err(MpqError::FilePresentButMissing);
        }
        let key = if block.is_encrypted() {
            let start = basename_offset(name);
            if start == name.len() {
                return Err(MpqError::InvalidName);
            }
            let base = slice_subrange(name, start, name.len());
            Some(self.cipher.hash_bytes(base, HashType::FileKey))
        } else {
            None
        };
        Ok(File { key, block, archive: self })
    }
}

/// Where the last path component of `name` begins.
fn basename_offset(name: &[u8]) -> (r: usize)
    ensures
        r == basename_start(name@, name@.len() as int),
        r <= name@.len(),
{
    let mut n: usize = name.len();
    while n > 0
        invariant
            n <= name@.len(),
            basename_start(name@, n as int) == basename_start(name@, name@.len() as int),
        decreases n,
    {
        let b = name[n - 1];
        if b == 0x2F || b == 0x5C {
            return n;
        }
        n = n - 1;
    }
    0
}

/// Handle on one file of an archive: its block entry and, when it is
/// encrypted, its key. Holds no read position.
#[derive(Clone, Copy)]
pub struct File<'a> {
    key: Option<u32>,
    block: BlockEntry,
    archive: &'a Archive,
}

impl<'a> File<'a> {
    /// The file's decryption key, when it is encrypted.
    pub closed spec fn key(&self) -> Option<u32> {
        self.key
    }

    pub closed spec fn block(&self) -> BlockEntry {
        self.block
    }

    /// The archive the file belongs to.
    pub closed spec fn archive(&self) -> ArchiveModel {
        self.archive@
    }

    /// Size of the file once decompressed.
    pub fn size(&self) -> (r: usize)
        ensures
            r == self.block().size_unpacked,
    {
        self.block.size_unpacked as usize
    }

    /// Read the whole file into the front of `out`, which must hold at
    /// least `size()` bytes, and return its size. An uncompressed file is
    /// copied as stored. A compressed one is read sector by sector, each
    /// decrypted with the file key plus its index and decompressed; the
    /// sectors must add up to exactly the file's size. On failure `out` is
    /// left as it was.
    pub fn read(&self, out: &mut [u8]) -> (r: Result<usize, MpqError>)
        ensures
            final(out)@.len() == old(out)@.len(),
            match file_contents(self.archive(), self.key(), self.block(), old(out)@.len()) {
                Ok(bytes) => {
                    &&& r == Ok::<usize, MpqError>(bytes.len() as usize)
                    &&& final(out)@ == splice(old(out)@, 0, bytes)
                },
                Err(e) => {
                    &&& r == Err::<usize, MpqError>(e)
                    &&& final(out)@ == old(out)@
                },
            },
    {
        let size = self.block.size_unpacked as usize;
        if out.len() < size {
            return Err(MpqError::BufferTooSmall);
        }
        let archive = self.archive;
        proof {
            use_type_invariant(archive);
        }
        let data = archive.data.as_slice();
        let len = data.len();
        if !self.block.is_compressed() {
            if self.block.offset as usize > len - archive.offset || size > len - archive.offset
                - self.block.offset as usize {
                return Err(MpqError::Io);
            }
            let base: usize = archive.offset + self.block.offset as usize;
            copy_at(slice_subrange(data, base, base + size), out, 0);
            return Ok(size);
        }
        if self.block.offset as usize > len - archive.offset {
            return Err(MpqError::Io);
        }
        let base: usize = archive.offset + self.block.offset as usize;
        read_compressed(
            &archive.cipher,
            data,
            base,
            archive.header.block_size_factor,
            self.key,
            self.block.is_imploded(),
            out,
            size,
        )
    }
}

/// Read a compressed file of `size` bytes whose data starts at `base` into
/// the front of `out`.
fn read_compressed(
    cipher: &Cipher,
    data: &[u8],
    base: usize,
    factor: u16,
    key: Option<u32>,
    imploded: bool,
    out: &mut [u8],
    size: usize,
) -> (r: Result<usize, MpqError>)
    requires
        base <= data@.len(),
        size <= old(out)@.len(),
        size <= u32::MAX,
    ensures
        final(out)@.len() == old(out)@.len(),
        match compressed_contents(data@, base as int, key, imploded, size as nat, sector_size_of(factor)) {
            Ok(bytes) => {
                &&& r == Ok::<usize, MpqError>(bytes.len() as usize)
                &&& final(out)@ == splice(old(out)@, 0, bytes)
            },
            Err(e) => {
                &&& r == Err::<usize, MpqError>(e)
                &&& final(out)@ == old(out)@
            },
        },
{
    let sector_size = sector_size_for(factor);
    let sectors = FileSectors::get(cipher, data, key, base, size, sector_size)?;
    proof {
        let count = sector_count(size as nat, sector_size as nat);
        if size > 0 {
            assert(count <= size) by (nonlinear_arith)
                requires
                    sector_size > 0,
                    size > 0,
                    count == (size + sector_size - 1) / (sector_size as int);
        } else {
            assert(count == 0) by (nonlinear_arith)
                requires
                    sector_size > 0,
                    count == (sector_size - 1) / (sector_size as int);
        }
    }
    let mut scratch: Vec<u8> = vec![0u8; size];
    let written = read_sectors(cipher, data, base, sectors, key, imploded, scratch.as_mut_slice(), size)?;
    if written != size {
        return Err(MpqError::CorruptSector);
    }
    assert(scratch@ =~= scratch@.subrange(0, size as int));
    copy_at(scratch.as_slice(), out, 0);
    Ok(size)
}

/// Decode the stored bytes of sector `index`.
fn decode_sector(cipher: &Cipher, raw: Vec<u8>, key: Option<u32>, imploded: bool, index: u32) -> (r: Result<Vec<u8>, MpqError>)
    ensures
        match decode_raw_sector(raw@, key, imploded, index as int) {
            Ok(v) => r matches Ok(d) && d@ == v,
            Err(e) => r == Err::<Vec<u8>, MpqError>(e),
        },
{
    let mut raw = raw;
    match key {
        Some(k) => {
            if !cipher.decrypt(raw.as_mut_slice(), k.wrapping_add(index)) {
                return Err(MpqError::CorruptSector);
            }
        },
        None => {},
    }
    if !imploded {
        return Err(MpqError::UnsupportedCompression);
    }
    match explode_bytes(raw.as_slice()) {
        Ok(v) => Ok(v),
        Err(_) => Err(MpqError::ExplodeError),
    }
}

/// Read, decode and join every sector that `sectors` hands out, writing the
/// result to the front of `out`; return how many bytes that is.
fn read_sectors(
    cipher: &Cipher,
    data: &[u8],
    base: usize,
    sectors: FileSectors,
    key: Option<u32>,
    imploded: bool,
    out: &mut [u8],
    size: usize,
) -> (r: Result<usize, MpqError>)
    requires
        base <= data@.len(),
        size <= old(out)@.len(),
        sectors.position() == 0,
        1 <= sectors.offsets().len() <= size + 1,
        size <= u32::MAX,
    ensures
        final(out)@.len() == old(out)@.len(),
        match sectors_decoded(data@, base as int, sectors.offsets(), key, imploded, size as nat, (sectors.offsets().len() - 1) as nat) {
            Ok(bytes) => {
                &&& r == Ok::<usize, MpqError>(bytes.len() as usize)
                &&& final(out)@.subrange(0, bytes.len() as int) == bytes
                &&& bytes.len() <= size
                &&& forall|j: int| bytes.len() <= j < old(out)@.len() ==> #[trigger] final(out)@[j] == old(out)@[j]
            },
            Err(e) => r == Err::<usize, MpqError>(e),
        },
{
    let ghost offsets = sectors.offsets();
    let ghost count = (offsets.len() - 1) as nat;
    let len = data.len();
    let mut walk = sectors;
    let mut written: usize = 0;
    let mut index: u32 = 0;
    assert(out@.subrange(0, 0) =~= Seq::<u8>::empty());
    loop
        invariant
            len == data@.len(),
            base <= len,
            size <= out@.len() == old(out)@.len(),
            walk.offsets() == offsets,
            offsets == sectors.offsets(),
            offsets.len() == count + 1,
            count <= size,
            size <= u32::MAX,
            index == walk.position(),
            index <= count,
            written <= size,
            sectors_decoded(data@, base as int, offsets, key, imploded, size as nat, index as nat)
                == Ok::<Seq<u8>, MpqError>(out@.subrange(0, written as int)),
            forall|j: int| written <= j < out@.len() ==> #[trigger] out@[j] == old(out)@[j],
        ensures
            index == count,
        decreases count - index,
    {
        let ghost prev = out@.subrange(0, written as int);
        let (sector_offset, sector_len) = match walk.next() {
            Some(pair) => pair,
            None => break,
        };
        if sector_offset > len - base || sector_len > len - base - sector_offset {
            proof {
                lemma_sectors_error_persists(data@, base as int, offsets, key, imploded, size as nat, (index + 1) as nat, count);
            }
            return Err(MpqError::Io);
        }
        let start: usize = base + sector_offset;
        let raw = slice_to_vec(slice_subrange(data, start, start + sector_len));
        let decoded = match decode_sector(cipher, raw, key, imploded, index) {
            Ok(d) => d,
            Err(e) => {
                proof {
                    lemma_sectors_error_persists(data@, base as int, offsets, key, imploded, size as nat, (index + 1) as nat, count);
                }
                return Err(e);
            },
        };
        if decoded.len() > size - written {
            proof {
                lemma_sectors_error_persists(data@, base as int, offsets, key, imploded, size as nat, (index + 1) as nat, count);
            }
            return Err(MpqError::CorruptSector);
        }
        copy_at(decoded.as_slice(), out, written);
        assert(out@.subrange(0, written + decoded@.len()) =~= prev + decoded@);
        written = written + decoded.len();
        index = index + 1;
    }
    assert(index == count);
    Ok(written)
}

} // verus!
