//! Filename hashing and the archive stream cipher, both driven by one table
//! of 0x500 words produced by a fixed linear-congruential generator.
use vstd::prelude::*;
use vstd::string::StringSliceAdditionalSpecFns;
use vstd::wrapping::u32_specs;

use crate::bytes::{bytes_of, read_u32_le, word_byte, words_of, write_u32_le};

verus! {

/// Number of words in the cipher table: 0x100 entries for each of five uses.
pub const CRYPT_TABLE_LEN: usize = 0x500;

/// Initial state of the table generator.
pub const TABLE_GENERATOR_SEED: u32 = 0x0010_0001;

/// Modulus of the table generator.
pub const TABLE_GENERATOR_MODULUS: u32 = 0x2A_AAAB;

/// State of the table generator after `n` steps.
pub open spec fn generator_state(n: nat) -> u32
    decreases n,
{
    if n == 0 {
        TABLE_GENERATOR_SEED
    } else {
        ((generator_state((n - 1) as nat) * 125 + 3) % (TABLE_GENERATOR_MODULUS as int)) as u32
    }
}

/// The word produced by the `i`-th pair of generator steps: the low 16 bits
/// of the first draw become the high half, those of the second the low half.
pub open spec fn generated_word(i: nat) -> u32 {
    ((generator_state(2 * i + 1) % 0x1_0000) * 0x1_0000 + generator_state(2 * i + 2) % 0x1_0000) as u32
}

/// Entry `k` of the cipher table. The generator visits the 0x100 positions of
/// a row and, for each, fills the five rows in turn.
pub open spec fn crypt_table(k: int) -> u32 {
    generated_word((5 * (k % 0x100) + k / 0x100) as nat)
}

proof fn lemma_generator_bound(n: nat)
    ensures
        generator_state(n) < TABLE_GENERATOR_MODULUS,
    decreases n,
{
    if n > 0 {
        lemma_generator_bound((n - 1) as nat);
    }
}

/// The four uses of the hash function; each reads its own row of the table.
#[derive(Debug, Clone, Copy, PartialEq, Eq, Structural)]
pub enum HashType {
    /// Picks the hash-table slot where probing starts.
    TableOffset,
    /// First name hash stored in a hash-table entry.
    NameA,
    /// Second name hash stored in a hash-table entry.
    NameB,
    /// Derives decryption seeds.
    FileKey,
}

impl HashType {
    /// First table index of the row this kind of hash reads.
    pub open spec fn row(self) -> int {
        match self {
            HashType::TableOffset => 0,
            HashType::NameA => 0x100,
            HashType::NameB => 0x200,
            HashType::FileKey => 0x300,
        }
    }

    pub fn table_row(self) -> (r: usize)
        ensures
            r == self.row(),
    {
        match self {
            HashType::TableOffset => 0,
            HashType::NameA => 0x100,
            HashType::NameB => 0x200,
            HashType::FileKey => 0x300,
        }
    }
}

/// Initial value of the first hash seed.
pub const HASH_SEED1: u32 = 0x7FED_7FED;

/// Initial value of the second seed, for hashing and for the cipher.
pub const SEED2_INIT: u32 = 0xEEEE_EEEE;

/// Row of the table that the stream cipher reads.
pub const CIPHER_ROW: usize = 0x400;

pub open spec fn add32(a: u32, b: u32) -> u32 {
    u32_specs::wrapping_add(a, b)
}

/// ASCII upper-casing of one byte; other bytes are kept.
pub open spec fn upper_byte(b: u8) -> u8 {
    if 0x61 <= b <= 0x7A {
        (b - 0x20) as u8
    } else {
        b
    }
}

/// The two hash seeds after the first `n` bytes of `text`, hashed with row `row`.
pub open spec fn hash_state(text: Seq<u8>, row: int, n: nat) -> (u32, u32)
    decreases n,
{
    if n == 0 {
        (HASH_SEED1, SEED2_INIT)
    } else {
        let prev = hash_state(text, row, (n - 1) as nat);
        let ch = upper_byte(text[n - 1]);
        let seed1 = crypt_table(row + ch) ^ add32(prev.0, prev.1);
        let seed2 = add32(add32(add32(add32(ch as u32, seed1), prev.1), prev.1 << 5u32), 3);
        (seed1, seed2)
    }
}

/// The hash of the bytes of `text`, upper-cased, for the given use.
pub open spec fn hash_of(text: Seq<u8>, kind: HashType) -> u32 {
    hash_state(text, kind.row(), text.len()).0
}

/// The next primary cipher seed.
pub open spec fn next_seed(seed: u32) -> u32 {
    add32(!seed << 21u32, 0x1111_1111) | (seed >> 11u32)
}

/// The secondary seed once it has taken in the table word that the primary seed selects.
pub open spec fn mixed_seed2(seed: u32, seed2: u32) -> u32 {
    add32(seed2, crypt_table(CIPHER_ROW + (seed & 0xFF) as int))
}

/// The word XORed with the data at state `st` (primary, secondary seed).
pub open spec fn keystream(st: (u32, u32)) -> u32 {
    add32(st.0, mixed_seed2(st.0, st.1))
}

/// The cipher state after a word whose plaintext is `plain`.
pub open spec fn cipher_step(st: (u32, u32), plain: u32) -> (u32, u32) {
    let mixed = mixed_seed2(st.0, st.1);
    (next_seed(st.0), add32(add32(add32(plain, mixed), mixed << 5u32), 3))
}

/// Cipher state before word `n` when encrypting `plain`.
pub open spec fn encrypt_state(plain: Seq<u32>, seed: u32, n: nat) -> (u32, u32)
    decreases n,
{
    if n == 0 {
        (seed, SEED2_INIT)
    } else {
        cipher_step(encrypt_state(plain, seed, (n - 1) as nat), plain[n - 1])
    }
}

/// Cipher state before word `n` when decrypting `cipher`.
pub open spec fn decrypt_state(cipher: Seq<u32>, seed: u32, n: nat) -> (u32, u32)
    decreases n,
{
    if n == 0 {
        (seed, SEED2_INIT)
    } else {
        let st = decrypt_state(cipher, seed, (n - 1) as nat);
        cipher_step(st, cipher[n - 1] ^ keystream(st))
    }
}

pub open spec fn encrypt_words(plain: Seq<u32>, seed: u32) -> Seq<u32> {
    Seq::new(plain.len(), |i: int| plain[i] ^ keystream(encrypt_state(plain, seed, i as nat)))
}

pub open spec fn decrypt_words(cipher: Seq<u32>, seed: u32) -> Seq<u32> {
    Seq::new(cipher.len(), |i: int| cipher[i] ^ keystream(decrypt_state(cipher, seed, i as nat)))
}

/// Encryption of a byte buffer read as little-endian words.
pub open spec fn encrypt_bytes(b: Seq<u8>, seed: u32) -> Seq<u8> {
    bytes_of(encrypt_words(words_of(b), seed))
}

/// Decryption of a byte buffer read as little-endian words.
pub open spec fn decrypt_bytes(b: Seq<u8>, seed: u32) -> Seq<u8> {
    bytes_of(decrypt_words(words_of(b), seed))
}

proof fn lemma_xor_cancel(p: u32, k: u32)
    ensures
        (p ^ k) ^ k == p,
{
    assert((p ^ k) ^ k == p) by (bit_vector);
}

proof fn lemma_decrypt_state_tracks(plain: Seq<u32>, seed: u32, n: nat)
    requires
        n <= plain.len(),
    ensures
        decrypt_state(encrypt_words(plain, seed), seed, n) == encrypt_state(plain, seed, n),
    decreases n,
{
    if n > 0 {
        lemma_decrypt_state_tracks(plain, seed, (n - 1) as nat);
        let st = encrypt_state(plain, seed, (n - 1) as nat);
        lemma_xor_cancel(plain[n - 1], keystream(st));
    }
}

/// Decrypting with the seed that encrypted gives the plaintext words back.
pub proof fn lemma_decrypt_words_inverts_encrypt(plain: Seq<u32>, seed: u32)
    ensures
        decrypt_words(encrypt_words(plain, seed), seed) == plain,
{
    let c = encrypt_words(plain, seed);
    assert forall|i: int| 0 <= i < plain.len() implies #[trigger] decrypt_words(c, seed)[i]
        == plain[i] by {
        lemma_decrypt_state_tracks(plain, seed, i as nat);
        lemma_xor_cancel(plain[i], keystream(encrypt_state(plain, seed, i as nat)));
    }
    assert(decrypt_words(c, seed) =~= plain);
}

/// For any buffer whose length is a multiple of four and any seed, decrypting
/// what encryption produced gives the buffer back.
pub proof fn lemma_decrypt_inverts_encrypt(b: Seq<u8>, seed: u32)
    requires
        b.len() % 4 == 0,
    ensures
        decrypt_bytes(encrypt_bytes(b, seed), seed) == b,
{
    let ws = words_of(b);
    crate::bytes::lemma_words_of_bytes_of(encrypt_words(ws, seed));
    lemma_decrypt_words_inverts_encrypt(ws, seed);
    crate::bytes::lemma_bytes_of_words_of(b);
}

/// Hashing looks only at the upper-cased bytes: two texts that agree once
/// upper-cased hash alike, for every use.
pub proof fn lemma_hash_ignores_case(a: Seq<u8>, b: Seq<u8>, kind: HashType)
    requires
        a.len() == b.len(),
        forall|i: int| 0 <= i < a.len() ==> #[trigger] upper_byte(a[i]) == upper_byte(b[i]),
    ensures
        hash_of(a, kind) == hash_of(b, kind),
{
    lemma_hash_state_ignores_case(a, b, kind.row(), a.len());
}

proof fn lemma_hash_state_ignores_case(a: Seq<u8>, b: Seq<u8>, row: int, n: nat)
    requires
        n <= a.len() == b.len(),
        forall|i: int| 0 <= i < a.len() ==> #[trigger] upper_byte(a[i]) == upper_byte(b[i]),
    ensures
        hash_state(a, row, n) == hash_state(b, row, n),
    decreases n,
{
    if n > 0 {
        lemma_hash_state_ignores_case(a, b, row, (n - 1) as nat);
        assert(upper_byte(a[n - 1]) == upper_byte(b[n - 1]));
    }
}

/// The precomputed table behind hashing and the stream cipher.
pub struct Cipher {
    table: Vec<u32>,
}

impl Cipher {
    #[verifier::type_invariant]
    spec fn table_is_exact(&self) -> bool {
        &&& self.table@.len() == CRYPT_TABLE_LEN
        &&& forall|k: int| 0 <= k < CRYPT_TABLE_LEN ==> #[trigger] self.table@[k] == crypt_table(k)
    }

    /// Build the table by running the generator.
    pub fn new() -> (c: Cipher) {
        let mut generated: Vec<u32> = Vec::new();
        let mut state: u32 = TABLE_GENERATOR_SEED;
        let mut i: usize = 0;
        while i < CRYPT_TABLE_LEN
            invariant
                i <= CRYPT_TABLE_LEN,
                generated@.len() == i,
                state == generator_state(2 * i as nat),
                forall|j: int| 0 <= j < i ==> #[trigger] generated@[j] == generated_word(j as nat),
            decreases CRYPT_TABLE_LEN - i,
        {
            proof {
                lemma_generator_bound(2 * i as nat);
                lemma_generator_bound((2 * i + 1) as nat);
            }
            let first: u32 = (state * 125 + 3) % TABLE_GENERATOR_MODULUS;
            assert(first == generator_state((2 * i + 1) as nat));
            let second: u32 = (first * 125 + 3) % TABLE_GENERATOR_MODULUS;
            assert(second == generator_state((2 * i + 2) as nat));
            generated.push((first % 0x1_0000) * 0x1_0000 + second % 0x1_0000);
            state = second;
            i = i + 1;
        }
        let mut table: Vec<u32> = Vec::new();
        let mut k: usize = 0;
        while k < CRYPT_TABLE_LEN
            invariant
                k <= CRYPT_TABLE_LEN,
                generated@.len() == CRYPT_TABLE_LEN,
                forall|j: int| 0 <= j < CRYPT_TABLE_LEN ==> #[trigger] generated@[j] == generated_word(j as nat),
                table@.len() == k,
                forall|j: int| 0 <= j < k ==> #[trigger] table@[j] == crypt_table(j),
            decreases CRYPT_TABLE_LEN - k,
        {
            let position: usize = 5 * (k % 0x100) + k / 0x100;
            table.push(generated[position]);
            k = k + 1;
        }
        Cipher { table }
    }

    /// Hash the bytes of `text`, upper-cased, for the given use.
    pub fn hash_bytes(&self, text: &[u8], kind: HashType) -> (r: u32)
        ensures
            r == hash_of(text@, kind),
    {
        proof {
            use_type_invariant(self);
        }
        let row = kind.table_row();
        let mut seed1: u32 = HASH_SEED1;
        let mut seed2: u32 = SEED2_INIT;
        let mut i: usize = 0;
        while i < text.len()
            invariant
                i <= text@.len(),
                row == kind.row(),
                self.table@.len() == CRYPT_TABLE_LEN,
                forall|k: int| 0 <= k < CRYPT_TABLE_LEN ==> #[trigger] self.table@[k] == crypt_table(k),
                (seed1, seed2) == hash_state(text@, row as int, i as nat),
            decreases text@.len() - i,
        {
            let b = text[i];
            let ch: u8 = if 0x61 <= b && b <= 0x7A {
                b - 0x20
            } else {
                b
            };
            let next1 = self.table[row + ch as usize] ^ seed1.wrapping_add(seed2);
            seed2 = (ch as u32).wrapping_add(next1).wrapping_add(seed2).wrapping_add(seed2 << 5u32).wrapping_add(3);
            seed1 = next1;
            i = i + 1;
        }
        seed1
    }

    /// Hash a string through its bytes, upper-cased, for the given use.
    pub fn hash(&self, text: &str, kind: HashType) -> (r: u32)
        ensures
            r == hash_of(text.spec_bytes(), kind),
    {
        self.hash_bytes(text.as_bytes(), kind)
    }

    /// One word through the cipher at state (`seed1`, `seed2`): the output
    /// word and the next state, which takes in the plaintext (the output when
    /// decrypting, the input when encrypting).
    fn crypt_word(&self, seed1: u32, seed2: u32, input: u32, decrypting: bool) -> (r: (
        u32,
        u32,
        u32,
    ))
        ensures
            r.0 == input ^ keystream((seed1, seed2)),
            (r.1, r.2) == cipher_step((seed1, seed2), if decrypting { r.0 } else { input }),
    {
        proof {
            use_type_invariant(self);
        }
        assert((seed1 & 0xFF) < 0x100) by (bit_vector);
        let mixed = seed2.wrapping_add(self.table[CIPHER_ROW + (seed1 & 0xFF) as usize]);
        let output = input ^ seed1.wrapping_add(mixed);
        let plain = if decrypting {
            output
        } else {
            input
        };
        let next2 = plain.wrapping_add(mixed).wrapping_add(mixed << 5u32).wrapping_add(3);
        let next1 = (!seed1 << 21u32).wrapping_add(0x1111_1111) | (seed1 >> 11u32);
        (output, next1, next2)
    }

    /// Run the cipher over `buffer` in place; the result is the sequence of
    /// output words.
    fn crypt_in_place(&self, buffer: &mut [u8], seed: u32, decrypting: bool) -> (out: Ghost<
        Seq<u32>,
    >)
        requires
            old(buffer)@.len() % 4 == 0,
        ensures
            out@ == if decrypting {
                decrypt_words(words_of(old(buffer)@), seed)
            } else {
                encrypt_words(words_of(old(buffer)@), seed)
            },
            final(buffer)@ == bytes_of(out@),
    {
        let ghost words = words_of(old(buffer)@);
        let ghost expected = if decrypting {
            decrypt_words(words, seed)
        } else {
            encrypt_words(words, seed)
        };
        let len: usize = buffer.len();
        let n: usize = len / 4;
        let mut seed1: u32 = seed;
        let mut seed2: u32 = SEED2_INIT;
        let mut i: usize = 0;
        while i < n
            invariant
                i <= n,
                n * 4 == old(buffer)@.len() == len,
                words == words_of(old(buffer)@),
                expected == (if decrypting {
                    decrypt_words(words, seed)
                } else {
                    encrypt_words(words, seed)
                }),
                buffer@.len() == old(buffer)@.len(),
                (seed1, seed2) == (if decrypting {
                    decrypt_state(words, seed, i as nat)
                } else {
                    encrypt_state(words, seed, i as nat)
                }),
                forall|j: int|
                    0 <= j < 4 * i ==> #[trigger] buffer@[j] == word_byte(expected[j / 4], j % 4),
                forall|j: int| 4 * i <= j < buffer@.len() ==> #[trigger] buffer@[j] == old(buffer)@[j],
            decreases n - i,
        {
            assert(4 * i + 4 <= 4 * n) by (nonlinear_arith)
                requires i < n;
            let at: usize = 4 * i;
            let word = read_u32_le(buffer, at);
            assert(word == words[i as int]);
            let (output, next1, next2) = self.crypt_word(seed1, seed2, word, decrypting);
            assert(output == expected[i as int]);
            let ghost before = buffer@;
            write_u32_le(buffer, at, output);
            assert forall|j: int| 0 <= j < 4 * (i + 1) implies #[trigger] buffer@[j] == word_byte(
                expected[j / 4],
                j % 4,
            ) by {
                if j >= 4 * i {
                    assert(j / 4 == i as int);
                    assert(j - at == j % 4);
                } else {
                    assert(buffer@[j] == before[j]);
                }
            }
            seed1 = next1;
            seed2 = next2;
            i = i + 1;
        }
        assert(buffer@ =~= bytes_of(expected));
        Ghost(expected)
    }

    /// Decrypt `buffer` in place, as little-endian words, starting from `seed`.
    /// A buffer whose length is not a multiple of four is refused and left as it is.
    pub fn decrypt(&self, buffer: &mut [u8], seed: u32) -> (r: bool)
        ensures
            r == (old(buffer)@.len() % 4 == 0),
            r ==> final(buffer)@ == decrypt_bytes(old(buffer)@, seed),
            !r ==> final(buffer)@ == old(buffer)@,
    {
        if buffer.len() % 4 != 0 {
            return false;
        }
        self.crypt_in_place(buffer, seed, true);
        true
    }

    /// Encrypt `buffer` in place, as little-endian words, starting from `seed`.
    /// A buffer whose length is not a multiple of four is refused and left as it is.
    pub fn encrypt(&self, buffer: &mut [u8], seed: u32) -> (r: bool)
        ensures
            r == (old(buffer)@.len() % 4 == 0),
            r ==> final(buffer)@ == encrypt_bytes(old(buffer)@, seed),
            !r ==> final(buffer)@ == old(buffer)@,
    {
        if buffer.len() % 4 != 0 {
            return false;
        }
        self.crypt_in_place(buffer, seed, false);
        true
    }
}

} // verus!
