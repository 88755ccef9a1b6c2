//! Checksums, the clock, and the keystream that obfuscates stored data.

use vstd::prelude::*;
use crc32fast::Hasher;
use std::time::SystemTime;
use std::time::Duration;
use crate::layout::{BLOCK_SIZE, spec_block_seek_position};

verus! {

/// `crc32fast::Hasher`, an in-progress CRC-32 computation, of which nothing is known
/// but what `digested` says.
#[verifier::external_type_specification]
#[verifier::external_body]
pub struct ExHasher(Hasher);

/// `std::time::SystemTime`, a reading of the system clock, of which nothing is known.
#[verifier::external_type_specification]
#[verifier::external_body]
pub struct ExSystemTime(SystemTime);

/// The CRC-32 (IEEE) checksum of a byte sequence, as `crc32fast` computes it.
pub uninterp spec fn crc32(bytes: Seq<u8>) -> u32;

/// The bytes that a hasher has been fed since it was made, in order.
pub uninterp spec fn digested(hasher: Hasher) -> Seq<u8>;

/// `crc32fast::Hasher::new` starts a computation that has seen no byte.
pub assume_specification[ Hasher::new ]() -> (hasher: Hasher)
    ensures
        digested(hasher) == Seq::<u8>::empty(),
;

/// `crc32fast::Hasher::update` continues the computation with the bytes of `buf`: the
/// hasher has then been fed what it had been fed before, followed by those bytes.
pub assume_specification[ Hasher::update ](hasher: &mut Hasher, buf: &[u8])
    ensures
        digested(*final(hasher)) == digested(*old(hasher)) + buf@,
;

/// `crc32fast::Hasher::finalize` yields the CRC-32 of all the bytes fed so far.
pub assume_specification[ Hasher::finalize ](hasher: Hasher) -> (sum: u32)
    ensures
        sum == crc32(digested(hasher)),
;

/// An incremental CRC-32 computation.
pub struct Checksum {
    hasher: Hasher,
}

impl View for Checksum {
    type V = Seq<u8>;

    /// The bytes fed so far.
    closed spec fn view(&self) -> Seq<u8> {
        digested(self.hasher)
    }
}

impl Checksum {
    /// A computation that has seen no byte.
    pub fn new() -> (checksum: Self)
        ensures
            checksum@ == Seq::<u8>::empty(),
    {
        Self { hasher: Hasher::new() }
    }

    /// Feeds `bytes` to the computation.
    pub fn update(&mut self, bytes: &[u8])
        ensures
            final(self)@ == old(self)@ + bytes@,
    {
        self.hasher.update(bytes);
    }

    /// The checksum of everything fed so far.
    pub fn finalize(self) -> (sum: u32)
        ensures
            sum == crc32(self@),
    {
        self.hasher.finalize()
    }
}

/// The CRC-32 of `bytes`: the checksum of a serialised record.
pub fn calculate_checksum(bytes: &[u8]) -> (sum: u32)
    ensures
        sum == crc32(bytes@),
{
    let mut hasher = Checksum::new();
    hasher.update(bytes);
    assert(Seq::<u8>::empty() + bytes@ =~= bytes@);
    hasher.finalize()
}

/// `SystemTime::now`: the reading of the system clock, of which nothing is known
/// beforehand.
#[verifier::external_body]
fn clock_reading() -> SystemTime {
    SystemTime::now()
}

/// `SystemTime::duration_since` the Unix epoch; `None` for a clock set before it.
#[verifier::external_body]
fn since_epoch(time: &SystemTime) -> Option<Duration> {
    match time.duration_since(std::time::UNIX_EPOCH) {
        Ok(elapsed) => Some(elapsed),
        Err(_) => None,
    }
}

/// `Duration::as_secs`: the whole seconds of a duration.
#[verifier::external_body]
fn whole_seconds(elapsed: &Duration) -> u64 {
    elapsed.as_secs()
}

/// Seconds since the Unix epoch by the system clock; 0 where the clock is set before
/// the epoch.
pub fn now() -> u64 {
    let time = clock_reading();
    let elapsed = match since_epoch(&time) {
        Some(elapsed) => Some(whole_seconds(&elapsed)),
        None => None,
    };
    seconds_or_zero(elapsed)
}

/// The timestamp for a reading of the clock: the whole seconds that have passed since
/// the Unix epoch, or 0 where none are given because the clock is set before it.
pub fn seconds_or_zero(elapsed: Option<u64>) -> (seconds: u64)
    ensures
        seconds == (match elapsed {
            Some(passed) => passed,
            None => 0,
        }),
{
    match elapsed {
        Some(passed) => passed,
        None => 0,
    }
}

/// Byte offset of the block with address `block_index`.
pub fn block_seek_position(block_index: u32) -> (offset: u32)
    requires
        block_index <= 1_048_575,
    ensures
        offset == spec_block_seek_position(block_index as int),
{
    block_index * BLOCK_SIZE
}

/// The keystream of `len` bytes for a secret: the secret repeated from its start.
pub open spec fn keystream(secret: Seq<u8>, len: nat) -> Seq<u8> {
    Seq::new(len, |i: int| secret[i % (secret.len() as int)])
}

/// `bytes` with each byte that has a counterpart in `table` XORed with it.
pub open spec fn xor_bytes(bytes: Seq<u8>, table: Seq<u8>) -> Seq<u8> {
    Seq::new(
        bytes.len(),
        |i: int| if i < table.len() { bytes[i] ^ table[i] } else { bytes[i] },
    )
}

/// XORs `bytes` in place with the keystream table, both taken from their start.
/// Decoding is the same operation.
pub fn encrypt(bytes: &mut [u8], lookup_table: &Vec<u8>)
    ensures
        final(bytes)@ == xor_bytes(old(bytes)@, lookup_table@),
{
    let n: usize = if bytes.len() < lookup_table.len() { bytes.len() } else { lookup_table.len() };
    let mut i: usize = 0;
    while i < n
        invariant
            i <= n,
            n <= bytes@.len(),
            n <= lookup_table@.len(),
            n == bytes@.len() || n == lookup_table@.len(),
            bytes@.len() == old(bytes)@.len(),
            forall|j: int| 0 <= j < i ==> bytes@[j] == old(bytes)@[j] ^ lookup_table@[j],
            forall|j: int| i <= j < bytes@.len() ==> bytes@[j] == old(bytes)@[j],
        decreases n - i,
    {
        let b: u8 = bytes[i] ^ lookup_table[i];
        bytes[i] = b;
        i += 1;
    }
    assert(bytes@ =~= xor_bytes(old(bytes)@, lookup_table@));
}

/// The keystream table of `block_size` bytes for `secret`: byte `i` is byte
/// `i mod len(secret)` of the secret.
pub fn create_lookup_table(secret: &[u8], block_size: u32) -> (table: Vec<u8>)
    requires
        secret@.len() > 0,
    ensures
        table@ == keystream(secret@, block_size as nat),
{
    let mut table: Vec<u8> = Vec::new();
    let mut i: usize = 0;
    while i < block_size as usize
        invariant
            i <= block_size,
            secret@.len() > 0,
            table@.len() == i,
            forall|j: int| 0 <= j < i ==> table@[j] == secret@[j % (secret@.len() as int)],
        decreases block_size - i,
    {
        table.push(secret[i % secret.len()]);
        i += 1;
    }
    assert(table@ =~= keystream(secret@, block_size as nat));
    table
}

/// Applying the keystream twice gives back the buffer.
pub proof fn lemma_encrypt_involution(bytes: Seq<u8>, table: Seq<u8>)
    ensures
        xor_bytes(xor_bytes(bytes, table), table) == bytes,
{
    let once = xor_bytes(bytes, table);
    let twice = xor_bytes(once, table);
    assert forall|i: int| 0 <= i < bytes.len() implies twice[i] == bytes[i] by {
        if i < table.len() {
            let b = bytes[i];
            let t = table[i];
            assert((b ^ t) ^ t == b) by (bit_vector);
        }
    }
    assert(twice =~= bytes);
}

/// For every buffer and every secret, encrypting twice with the secret's keystream
/// gives back the buffer.
pub proof fn lemma_keystream_involution(bytes: Seq<u8>, secret: Seq<u8>, len: nat)
    ensures
        xor_bytes(xor_bytes(bytes, keystream(secret, len)), keystream(secret, len)) == bytes,
{
    lemma_encrypt_involution(bytes, keystream(secret, len));
}

} // verus!
