//! The two decryption layers: the metadata blob, which is RSA-decrypted
//! block by block with the archive's public key, and a file's payload, of
//! which only the listed spans are AES-encrypted.

use vstd::prelude::*;
use vstd::arithmetic::div_mod::{
    lemma_div_minus_one, lemma_mod_is_zero, lemma_mod_sub_multiples_vanish,
};
use crate::bhd::FileHeader;
use crate::cursor::LayoutError;
use crate::primitives::{
    aes128_decrypt, aes128_decrypt_block, asks_for_passphrase, parse_public_key,
    passphrase_field_at, pem_public_key, public_decrypt_raw, rsa_public_decrypt, PublicKey,
    PASSPHRASE_FIELD,
};

verus! {

/// Why the metadata of an archive cannot be had. Each of these ends the
/// whole run: without the metadata no file can be found.
#[derive(Debug, Clone, Copy, PartialEq, Eq, Structural)]
pub enum HeaderParseError {
    /// The decrypted blob does not have the layout of archive metadata.
    Layout(LayoutError),
    /// The metadata is not a whole number of blocks, or one of its blocks
    /// is refused by the cipher.
    Decrypt,
    /// The public key is malformed.
    InvalidKey,
}

/// Why one file cannot be extracted. It concerns that file alone.
#[derive(Debug, Clone, Copy, PartialEq, Eq, Structural)]
pub enum FileExtractionError {
    /// The key is not 16 bytes long.
    InvalidKey,
    /// A range that is not marked unused does not lie within the payload.
    Decrypt,
}

/// Whether the key can be handed to the cipher: the modulus is not empty,
/// and neither number is longer than the cipher accepts.
pub open spec fn key_is_usable(modulus: Seq<u8>, exponent: Seq<u8>) -> bool {
    0 < modulus.len() <= i32::MAX && exponent.len() <= i32::MAX
}

/// What one decrypted block adds to the blob: the block must be exactly as
/// long as the modulus, and its first byte is dropped, whatever it is.
pub open spec fn block_payload(plain: Option<Seq<u8>>, key_size: nat) -> Option<Seq<u8>> {
    match plain {
        Some(bytes) => if bytes.len() == key_size && key_size > 0 {
            Some(bytes.skip(1))
        } else {
            None
        },
        None => None,
    }
}

/// The payloads of the consecutive blocks of `file`, each as long as the
/// modulus, joined in order; `None` where a block is refused or the last
/// one is short.
pub open spec fn joined_blocks(file: Seq<u8>, modulus: Seq<u8>, exponent: Seq<u8>) -> Option<
    Seq<u8>,
>
    decreases file.len(),
{
    let key_size = modulus.len();
    if file.len() == 0 {
        Some(Seq::empty())
    } else if key_size == 0 || file.len() < key_size {
        None
    } else {
        match (
            block_payload(
                rsa_public_decrypt(modulus, exponent, file.take(key_size as int)),
                key_size,
            ),
            joined_blocks(file.skip(key_size as int), modulus, exponent),
        ) {
            (Some(head), Some(rest)) => Some(head + rest),
            _ => None,
        }
    }
}

/// The blob that the metadata file `file` holds under the given key.
pub open spec fn decrypted_blocks(file: Seq<u8>, modulus: Seq<u8>, exponent: Seq<u8>) -> Result<
    Seq<u8>,
    HeaderParseError,
> {
    if !key_is_usable(modulus, exponent) {
        Err(HeaderParseError::InvalidKey)
    } else if file.len() % modulus.len() != 0 {
        Err(HeaderParseError::Decrypt)
    } else {
        match joined_blocks(file, modulus, exponent) {
            Some(blob) => Ok(blob),
            None => Err(HeaderParseError::Decrypt),
        }
    }
}

/// Whether a key text is handed to the PEM reader at all: it is short
/// enough for it and does not ask for a passphrase.
pub open spec fn pem_is_readable(pem: Seq<u8>) -> bool {
    pem.len() <= i32::MAX && !asks_for_passphrase(pem)
}

/// The blob that the metadata file `file` holds under the PEM-encoded
/// public key `pem`.
pub open spec fn decrypted_header(file: Seq<u8>, pem: Seq<u8>) -> Result<
    Seq<u8>,
    HeaderParseError,
> {
    if !pem_is_readable(pem) {
        Err(HeaderParseError::InvalidKey)
    } else {
        match pem_public_key(pem) {
            Some((modulus, exponent)) => decrypted_blocks(file, modulus, exponent),
            None => Err(HeaderParseError::InvalidKey),
        }
    }
}

/// Whether an outcome is the one that the model gives, success compared by
/// the bytes.
pub open spec fn is_outcome<E>(res: Result<Vec<u8>, E>, model: Result<Seq<u8>, E>) -> bool {
    match res {
        Ok(bytes) => model == Ok::<Seq<u8>, E>(bytes@),
        Err(e) => model == Err::<Seq<u8>, E>(e),
    }
}

/// Appends to `blob` what the decrypted block `plain` adds to it: all but
/// its first byte. A block that is not exactly `key_size` bytes long is
/// refused and `blob` stays as it is.
pub fn append_block_payload(blob: &mut Vec<u8>, plain: &[u8], key_size: usize) -> (appended: bool)
    ensures
        match block_payload(Some(plain@), key_size as nat) {
            Some(payload) => appended && final(blob)@ == old(blob)@ + payload,
            None => !appended && final(blob)@ == old(blob)@,
        },
{
    if plain.len() != key_size || key_size == 0 {
        return false;
    }
    blob.extend_from_slice(&plain[1..key_size]);
    true
}

/// Decrypts the metadata file `file` with the public key `key`.
///
/// The file is cut into consecutive blocks as long as the modulus. Each is
/// decrypted on its own with no padding scheme, its first byte is dropped
/// and the rest is appended to the blob. A file that is not a whole number
/// of blocks is refused before any block is decrypted.
pub fn decrypt_blocks(file: &[u8], key: &PublicKey) -> (res: Result<Vec<u8>, HeaderParseError>)
    ensures
        is_outcome(res, decrypted_blocks(file@, key.modulus@, key.exponent@)),
{
    let key_size: usize = key.modulus.len();
    if key_size == 0 || key_size > i32::MAX as usize || key.exponent.len() > i32::MAX as usize {
        return Err(HeaderParseError::InvalidKey);
    }
    if file.len() % key_size != 0 {
        return Err(HeaderParseError::Decrypt);
    }
    let mut len: usize = 0;
    let mut decrypted_data: Vec<u8> = Vec::new();
    proof {
        assert(file@.skip(0) =~= file@);
        assert(decrypted_data@ + joined_blocks(file@, key.modulus@, key.exponent@).unwrap()
            =~= joined_blocks(file@, key.modulus@, key.exponent@).unwrap());
    }
    while len < file.len()
        invariant
            len <= file.len(),
            key_size == key.modulus@.len(),
            key_is_usable(key.modulus@, key.exponent@),
            (file.len() - len) % (key_size as int) == 0,
            match joined_blocks(file@.skip(len as int), key.modulus@, key.exponent@) {
                Some(rest) => joined_blocks(file@, key.modulus@, key.exponent@) == Some(
                    decrypted_data@ + rest,
                ),
                None => joined_blocks(file@, key.modulus@, key.exponent@) is None,
            },
        decreases file.len() - len,
    {
        proof {
            lemma_mod_is_zero((file.len() - len) as nat, key_size as nat);
            lemma_mod_sub_multiples_vanish(file.len() - len, key_size as int);
        }
        let next_block: usize = len + key_size;
        let block_data = &file[len..next_block];
        proof {
            let tail = file@.skip(len as int);
            assert(tail.take(key_size as int) =~= block_data@);
            assert(tail.skip(key_size as int) =~= file@.skip(next_block as int));
        }
        let appended = match public_decrypt_raw(key, block_data) {
            Ok(decrypted_block) => append_block_payload(
                &mut decrypted_data,
                decrypted_block.as_slice(),
                key_size,
            ),
            Err(_) => false,
        };
        if !appended {
            return Err(HeaderParseError::Decrypt);
        }
        len = next_block;
    }
    Ok(decrypted_data)
}

/// Looks for the field [`PASSPHRASE_FIELD`] in a key text.
pub fn has_passphrase_field(pem: &[u8]) -> (found: bool)
    ensures
        found == asks_for_passphrase(pem@),
{
    if pem.len() < 10 {
        return false;
    }
    let last: usize = pem.len() - 10;
    let mut at: usize = 0;
    while at <= last
        invariant
            at <= last + 1,
            last + 10 == pem.len(),
            forall|i: int| 0 <= i < at ==> !passphrase_field_at(pem@, i),
        decreases last + 1 - at,
    {
        let mut k: usize = 0;
        while k < 10 && pem[at + k] == PASSPHRASE_FIELD[k]
            invariant
                k <= 10,
                at + 10 <= pem.len(),
                forall|j: int| 0 <= j < k ==> pem@[at + j] == PASSPHRASE_FIELD@[j],
            decreases 10 - k,
        {
            k = k + 1;
        }
        if k == 10 {
            proof {
                assert(pem@.subrange(at as int, at + 10) =~= PASSPHRASE_FIELD@);
                assert(passphrase_field_at(pem@, at as int));
            }
            return true;
        }
        at = at + 1;
    }
    false
}

/// Decrypts the metadata file `file` with the PEM-encoded PKCS#1 public
/// key `key`.
///
/// Fails with [`HeaderParseError::InvalidKey`] when the key cannot be
/// read, and with [`HeaderParseError::Decrypt`] when the file is not a
/// whole number of blocks or the cipher refuses one of them.
///
/// A key text that holds the field `Proc-Type:` is not read at all and
/// counts as one that cannot be read, wherever in the text the field
/// stands: inside a PEM block it would make the PEM reader ask for a
/// passphrase, and where the blocks of a text begin and end is for the PEM
/// reader alone to say.
pub fn decrypt_header(file: &[u8], key: &[u8]) -> (res: Result<Vec<u8>, HeaderParseError>)
    ensures
        is_outcome(res, decrypted_header(file@, key@)),
{
    if key.len() > i32::MAX as usize || has_passphrase_field(key) {
        return Err(HeaderParseError::InvalidKey);
    }
    match parse_public_key(key) {
        Ok(public_key) => decrypt_blocks(file, &public_key),
        Err(_) => Err(HeaderParseError::InvalidKey),
    }
}

/// Blocks join only where the file is a whole number of them, and each
/// block of as many bytes as the modulus has gives one byte less: the blob
/// is shorter than the file by the number of blocks.
pub proof fn lemma_joined_blocks_len(file: Seq<u8>, modulus: Seq<u8>, exponent: Seq<u8>)
    requires
        modulus.len() > 0,
        joined_blocks(file, modulus, exponent) is Some,
    ensures
        file.len() % modulus.len() == 0,
        joined_blocks(file, modulus, exponent).unwrap().len() == file.len() - file.len()
            / modulus.len(),
    decreases file.len(),
{
    let key_size = modulus.len() as int;
    if file.len() == 0 {
    } else {
        let rest = file.skip(key_size);
        lemma_joined_blocks_len(rest, modulus, exponent);
        lemma_mod_sub_multiples_vanish(file.len() as int, key_size);
        lemma_div_minus_one(file.len() as int, key_size);
    }
}

/// Blocks are decrypted each on its own: a file that is made of two files
/// of whole blocks gives the blob of the first followed by the blob of the
/// second.
pub proof fn lemma_joined_blocks_concat(
    first: Seq<u8>,
    second: Seq<u8>,
    modulus: Seq<u8>,
    exponent: Seq<u8>,
)
    requires
        modulus.len() > 0,
        first.len() % modulus.len() == 0,
    ensures
        joined_blocks(first + second, modulus, exponent) == match (
            joined_blocks(first, modulus, exponent),
            joined_blocks(second, modulus, exponent),
        ) {
            (Some(head), Some(rest)) => Some(head + rest),
            _ => None,
        },
    decreases first.len(),
{
    let key_size = modulus.len() as int;
    let whole = first + second;
    if first.len() == 0 {
        assert(whole =~= second);
        match joined_blocks(second, modulus, exponent) {
            Some(rest) => {
                assert(Seq::<u8>::empty() + rest =~= rest);
            },
            None => {},
        }
    } else {
        lemma_mod_is_zero(first.len(), modulus.len());
        lemma_mod_sub_multiples_vanish(first.len() as int, key_size);
        assert(whole.take(key_size) =~= first.take(key_size));
        assert(whole.skip(key_size) =~= first.skip(key_size) + second);
        lemma_joined_blocks_concat(first.skip(key_size), second, modulus, exponent);
        match (
            block_payload(rsa_public_decrypt(modulus, exponent, first.take(key_size)), modulus.len()),
            joined_blocks(first.skip(key_size), modulus, exponent),
            joined_blocks(second, modulus, exponent),
        ) {
            (Some(block), Some(middle), Some(rest)) => {
                assert(block + (middle + rest) =~= (block + middle) + rest);
            },
            _ => {},
        }
    }
}

/// A metadata file that decrypts is a whole number of blocks, and its blob
/// is shorter than the file by one byte for each block.
pub proof fn lemma_decrypted_header_is_aligned(file: Seq<u8>, pem: Seq<u8>)
    requires
        decrypted_header(file, pem) is Ok,
    ensures
        pem_public_key(pem) matches Some((modulus, exponent)) && modulus.len() > 0 && file.len()
            % modulus.len() == 0 && decrypted_header(file, pem).unwrap().len() == file.len()
            - file.len() / modulus.len(),
{
    let (modulus, exponent) = pem_public_key(pem).unwrap();
    lemma_joined_blocks_len(file, modulus, exponent);
}

/// A metadata file that is not a whole number of blocks is refused with
/// [`HeaderParseError::Decrypt`], whatever its blocks hold.
pub proof fn lemma_misaligned_metadata_is_rejected(file: Seq<u8>, pem: Seq<u8>)
    requires
        pem_is_readable(pem),
        pem_public_key(pem) matches Some((modulus, exponent)) && key_is_usable(modulus, exponent)
            && file.len() % modulus.len() != 0,
    ensures
        decrypted_header(file, pem) == Err::<Seq<u8>, HeaderParseError>(
            HeaderParseError::Decrypt,
        ),
{
}

/// Bytes of one cipher block of a payload.
pub const BLOCK_SIZE: usize = 16;

/// The block that the cipher is given for the chunk of a span that starts
/// at offset `at`, where the span ends at `end`: the bytes of the chunk,
/// and zeros after them where the span ends before the chunk is full.
pub open spec fn chunk_input(buf: Seq<u8>, at: int, end: int) -> Seq<u8> {
    Seq::new(
        16,
        |k: int|
            if at + k < end {
                buf[at + k]
            } else {
                0u8
            },
    )
}

/// `buf` with the span from `start` up to `end` decrypted under `key`.
///
/// The span is cut into chunks of 16 bytes from its start, and each byte of
/// it is replaced by the byte at the same place of its decrypted chunk.
/// Chunks are decrypted each on its own. Bytes outside the span stay.
pub open spec fn decrypted_span(key: Seq<u8>, buf: Seq<u8>, start: int, end: int) -> Seq<u8> {
    Seq::new(
        buf.len(),
        |i: int|
            if start <= i < end {
                let within = (i - start) % 16;
                aes128_decrypt_block(key, chunk_input(buf, i - within, end))[within]
            } else {
                buf[i]
            },
    )
}

/// Whether a range marks an unused slot of the range list.
pub open spec fn range_is_unused(range: (i64, i64)) -> bool {
    range.0 == -1
}

/// Whether a range is unused or lies within a payload of `len` bytes.
pub open spec fn range_fits(range: (i64, i64), len: nat) -> bool {
    range_is_unused(range) || 0 <= range.0 <= range.1 <= len
}

/// Whether every range is unused or lies within a payload of `len` bytes.
pub open spec fn ranges_fit(ranges: Seq<(i64, i64)>, len: nat) -> bool {
    forall|i: int| 0 <= i < ranges.len() ==> range_fits(#[trigger] ranges[i], len)
}

/// `buf` after one entry of the range list: unchanged by an unused slot,
/// else with the span of the range decrypted.
pub open spec fn apply_range(key: Seq<u8>, buf: Seq<u8>, range: (i64, i64)) -> Seq<u8> {
    if range_is_unused(range) {
        buf
    } else {
        decrypted_span(key, buf, range.0 as int, range.1 as int)
    }
}

/// `buf` after the entries of the range list, applied in the order in which
/// they are stored, each to what the ones before it left.
pub open spec fn apply_ranges(key: Seq<u8>, buf: Seq<u8>, ranges: Seq<(i64, i64)>) -> Seq<u8>
    decreases ranges.len(),
{
    if ranges.len() == 0 {
        buf
    } else {
        apply_range(key, apply_ranges(key, buf, ranges.drop_last()), ranges.last())
    }
}

/// The first `file_size` bytes of `plain`, or all of it where it is
/// shorter.
pub open spec fn trimmed(plain: Seq<u8>, file_size: nat) -> Seq<u8> {
    if file_size <= plain.len() {
        plain.take(file_size as int)
    } else {
        plain
    }
}

/// The plaintext of a file whose raw payload is `data`.
pub open spec fn decrypted_file(
    data: Seq<u8>,
    key: Seq<u8>,
    file_size: nat,
    ranges: Seq<(i64, i64)>,
) -> Result<Seq<u8>, FileExtractionError> {
    if key.len() != 16 {
        Err(FileExtractionError::InvalidKey)
    } else if !ranges_fit(ranges, data.len()) {
        Err(FileExtractionError::Decrypt)
    } else {
        Ok(trimmed(apply_ranges(key, data, ranges), file_size))
    }
}

/// Applying ranges never changes the length of the payload.
pub proof fn lemma_apply_ranges_len(key: Seq<u8>, buf: Seq<u8>, ranges: Seq<(i64, i64)>)
    ensures
        apply_ranges(key, buf, ranges).len() == buf.len(),
    decreases ranges.len(),
{
    if ranges.len() > 0 {
        lemma_apply_ranges_len(key, buf, ranges.drop_last());
    }
}

/// A recovered file is as long as its true size says, or as long as the
/// payload where that is shorter.
pub proof fn lemma_decrypted_file_len(
    data: Seq<u8>,
    key: Seq<u8>,
    file_size: nat,
    ranges: Seq<(i64, i64)>,
)
    requires
        decrypted_file(data, key, file_size, ranges) is Ok,
    ensures
        decrypted_file(data, key, file_size, ranges).unwrap().len() == if file_size
            <= data.len() {
            file_size
        } else {
            data.len()
        },
{
    lemma_apply_ranges_len(key, data, ranges);
}

/// A byte of the payload that no range covers, the unused slots not
/// counted, comes out as it went in.
pub proof fn lemma_bytes_outside_ranges_stay(
    key: Seq<u8>,
    buf: Seq<u8>,
    ranges: Seq<(i64, i64)>,
    i: int,
)
    requires
        0 <= i < buf.len(),
        forall|j: int|
            0 <= j < ranges.len() ==> range_is_unused(#[trigger] ranges[j]) || !(ranges[j].0 <= i
                < ranges[j].1),
    ensures
        apply_ranges(key, buf, ranges).len() == buf.len(),
        apply_ranges(key, buf, ranges)[i] == buf[i],
    decreases ranges.len(),
{
    if ranges.len() > 0 {
        let earlier = ranges.drop_last();
        lemma_bytes_outside_ranges_stay(key, buf, earlier, i);
    }
}

/// A chunk that its span fills is decrypted as the 16 bytes that it is:
/// byte `k` of the chunk at `at` comes out as byte `k` of that block
/// decrypted.
pub proof fn lemma_whole_chunk(key: Seq<u8>, buf: Seq<u8>, start: int, end: int, at: int, k: int)
    requires
        0 <= start <= at,
        at + 16 <= end <= buf.len(),
        (at - start) % 16 == 0,
        0 <= k < 16,
    ensures
        decrypted_span(key, buf, start, end)[at + k] == aes128_decrypt_block(
            key,
            buf.subrange(at, at + 16),
        )[k],
{
    assert((at + k - start) % 16 == k);
    assert(chunk_input(buf, at, end) =~= buf.subrange(at, at + 16));
}

/// Two spans that share no byte can be decrypted in either order.
pub proof fn lemma_disjoint_ranges_commute(
    key: Seq<u8>,
    buf: Seq<u8>,
    one: (i64, i64),
    other: (i64, i64),
)
    requires
        range_fits(one, buf.len()),
        range_fits(other, buf.len()),
        range_is_unused(one) || range_is_unused(other) || one.1 <= other.0 || other.1 <= one.0,
    ensures
        apply_range(key, apply_range(key, buf, one), other) == apply_range(
            key,
            apply_range(key, buf, other),
            one,
        ),
{
    if !range_is_unused(one) && !range_is_unused(other) {
        let after_one = decrypted_span(key, buf, one.0 as int, one.1 as int);
        let after_other = decrypted_span(key, buf, other.0 as int, other.1 as int);
        assert forall|at: int| one.0 <= at < one.1 && (at - one.0) % 16 == 0 implies chunk_input(
            after_other,
            at,
            one.1 as int,
        ) == #[trigger] chunk_input(buf, at, one.1 as int) by {
            assert(chunk_input(after_other, at, one.1 as int) =~= chunk_input(
                buf,
                at,
                one.1 as int,
            ));
        }
        assert forall|at: int|
            other.0 <= at < other.1 && (at - other.0) % 16 == 0 implies chunk_input(
            after_one,
            at,
            other.1 as int,
        ) == #[trigger] chunk_input(buf, at, other.1 as int) by {
            assert(chunk_input(after_one, at, other.1 as int) =~= chunk_input(
                buf,
                at,
                other.1 as int,
            ));
        }
        let left = decrypted_span(key, after_one, other.0 as int, other.1 as int);
        let right = decrypted_span(key, after_other, one.0 as int, one.1 as int);
        assert forall|i: int| 0 <= i < buf.len() implies left[i] == right[i] by {
            if one.0 <= i < one.1 {
                let within = (i - one.0) % 16;
                assert((i - within - one.0) % 16 == 0);
                assert(chunk_input(after_other, i - within, one.1 as int) == chunk_input(
                    buf,
                    i - within,
                    one.1 as int,
                ));
            } else if other.0 <= i < other.1 {
                let within = (i - other.0) % 16;
                assert((i - within - other.0) % 16 == 0);
                assert(chunk_input(after_one, i - within, other.1 as int) == chunk_input(
                    buf,
                    i - within,
                    other.1 as int,
                ));
            }
        }
        assert(left =~= right);
    }
}

/// An entry whose start is `-1` leaves the whole payload byte for byte as
/// it was, whatever its end says.
pub proof fn lemma_unused_range_changes_nothing(key: Seq<u8>, buf: Seq<u8>, range: (i64, i64))
    requires
        range.0 == -1,
    ensures
        apply_range(key, buf, range) == buf,
{
}

/// An unused slot can stand anywhere in the range list: the payload comes
/// out as without it.
pub proof fn lemma_unused_slot_in_ranges(
    key: Seq<u8>,
    buf: Seq<u8>,
    ranges: Seq<(i64, i64)>,
    at: int,
    slot: (i64, i64),
)
    requires
        0 <= at <= ranges.len(),
        range_is_unused(slot),
    ensures
        apply_ranges(key, buf, ranges.insert(at, slot)) == apply_ranges(key, buf, ranges),
    decreases ranges.len(),
{
    let with_slot = ranges.insert(at, slot);
    if at == ranges.len() {
        assert(with_slot.drop_last() =~= ranges);
    } else {
        assert(with_slot.drop_last() =~= ranges.drop_last().insert(at, slot));
        lemma_unused_slot_in_ranges(key, buf, ranges.drop_last(), at, slot);
    }
}

/// An unused slot anywhere in the range list changes neither whether a file
/// can be recovered nor what is recovered.
pub proof fn lemma_unused_slot_in_file(
    data: Seq<u8>,
    key: Seq<u8>,
    file_size: nat,
    ranges: Seq<(i64, i64)>,
    at: int,
    slot: (i64, i64),
)
    requires
        0 <= at <= ranges.len(),
        range_is_unused(slot),
    ensures
        decrypted_file(data, key, file_size, ranges.insert(at, slot)) == decrypted_file(
            data,
            key,
            file_size,
            ranges,
        ),
{
    let with_slot = ranges.insert(at, slot);
    lemma_unused_slot_in_ranges(key, data, ranges, at, slot);
    if ranges_fit(ranges, data.len()) {
        assert forall|i: int| 0 <= i < with_slot.len() implies range_fits(
            #[trigger] with_slot[i],
            data.len(),
        ) by {
            if i < at {
                assert(with_slot[i] == ranges[i]);
            } else if i > at {
                assert(with_slot[i] == ranges[i - 1]);
            }
        }
    }
    if ranges_fit(with_slot, data.len()) {
        assert forall|i: int| 0 <= i < ranges.len() implies range_fits(
            #[trigger] ranges[i],
            data.len(),
        ) by {
            if i < at {
                assert(with_slot[i] == ranges[i]);
            } else {
                assert(with_slot[i + 1] == ranges[i]);
            }
        }
    }
}

/// No key of 16 bytes is refused: whether a file can be recovered, and how
/// long it comes out, is the same under every such key. A wrong key is not
/// found out; it gives other bytes.
pub proof fn lemma_key_is_never_refused(
    data: Seq<u8>,
    key: Seq<u8>,
    other_key: Seq<u8>,
    file_size: nat,
    ranges: Seq<(i64, i64)>,
)
    requires
        key.len() == 16,
        other_key.len() == 16,
    ensures
        decrypted_file(data, key, file_size, ranges) is Ok <==> decrypted_file(
            data,
            other_key,
            file_size,
            ranges,
        ) is Ok,
        decrypted_file(data, key, file_size, ranges) matches Ok(plain) ==> decrypted_file(
            data,
            other_key,
            file_size,
            ranges,
        ) matches Ok(other) && other.len() == plain.len(),
        decrypted_file(data, key, file_size, ranges) matches Err(e) ==> decrypted_file(
            data,
            other_key,
            file_size,
            ranges,
        ) == Err::<Seq<u8>, FileExtractionError>(e),
{
    lemma_apply_ranges_len(key, data, ranges);
    lemma_apply_ranges_len(other_key, data, ranges);
}

/// Decrypts in place the span of `buf` from `start` up to `end`, in chunks
/// of 16 bytes that are decrypted each on its own. A last chunk that the
/// span does not fill is decrypted with zeros after it, and only the bytes
/// within the span are written back.
pub fn decrypt_span(buf: &mut Vec<u8>, key: &[u8; 16], start: usize, end: usize)
    requires
        start <= end <= old(buf)@.len(),
    ensures
        final(buf)@ == decrypted_span(key@, old(buf)@, start as int, end as int),
{
    let ghost goal = decrypted_span(key@, old(buf)@, start as int, end as int);
    let mut at: usize = start;
    while at < end
        invariant
            start <= at <= end <= buf@.len(),
            buf@.len() == old(buf)@.len(),
            (at - start) % 16 == 0 || at == end,
            goal == decrypted_span(key@, old(buf)@, start as int, end as int),
            forall|i: int|
                0 <= i < buf@.len() ==> #[trigger] buf@[i] == if i < at {
                    goal[i]
                } else {
                    old(buf)@[i]
                },
        decreases end - at,
    {
        let count: usize = if end - at < BLOCK_SIZE {
            end - at
        } else {
            BLOCK_SIZE
        };
        let mut block: [u8; 16] = [0u8; 16];
        let mut k: usize = 0;
        while k < count
            invariant
                k <= count <= 16,
                at + count <= buf.len(),
                forall|j: int| 0 <= j < k ==> #[trigger] block@[j] == buf@[at + j],
                forall|j: int| k <= j < 16 ==> #[trigger] block@[j] == 0u8,
            decreases count - k,
        {
            block[k] = buf[at + k];
            k = k + 1;
        }
        proof {
            assert(block@ =~= chunk_input(old(buf)@, at as int, end as int));
        }
        let plain: [u8; 16] = aes128_decrypt(key, &block);
        let ghost before = buf@;
        k = 0;
        while k < count
            invariant
                k <= count <= 16,
                at + count <= buf.len(),
                buf@.len() == before.len(),
                forall|i: int|
                    0 <= i < buf@.len() ==> #[trigger] buf@[i] == if at <= i < at + k {
                        plain@[i - at]
                    } else {
                        before[i]
                    },
            decreases count - k,
        {
            buf[at + k] = plain[k];
            k = k + 1;
        }
        proof {
            assert forall|i: int| 0 <= i < buf@.len() implies #[trigger] buf@[i] == if i < at
                + count {
                goal[i]
            } else {
                old(buf)@[i]
            } by {
                if at <= i < at + count {
                    assert((i - start) % 16 == i - at);
                }
            }
        }
        at = at + count;
    }
}

/// Decrypts the listed ranges of a payload under a key that is known to be
/// 16 bytes long, and trims the result to `file_size` bytes.
fn decrypt_ranges_keyed(
    encrypted_data: &[u8],
    key: &[u8; 16],
    file_size: u32,
    ranges: &[(i64, i64)],
) -> (res: Result<Vec<u8>, FileExtractionError>)
    ensures
        is_outcome(res, decrypted_file(encrypted_data@, key@, file_size as nat, ranges@)),
{
    let mut data_copy: Vec<u8> = Vec::new();
    data_copy.extend_from_slice(encrypted_data);
    let mut i: usize = 0;
    while i < ranges.len()
        invariant
            i <= ranges.len(),
            data_copy@.len() == encrypted_data@.len(),
            data_copy@ == apply_ranges(key@, encrypted_data@, ranges@.take(i as int)),
            forall|j: int| 0 <= j < i ==> range_fits(#[trigger] ranges@[j], encrypted_data@.len()),
        decreases ranges.len() - i,
    {
        let (start, end) = ranges[i];
        proof {
            let done = ranges@.take(i + 1);
            assert(done.drop_last() =~= ranges@.take(i as int));
        }
        if start != -1 {
            if start < 0 || end < start || end as u64 > data_copy.len() as u64 {
                return Err(FileExtractionError::Decrypt);
            }
            decrypt_span(&mut data_copy, key, start as usize, end as usize);
        }
        i = i + 1;
    }
    proof {
        assert(ranges@.take(i as int) =~= ranges@);
    }
    data_copy.truncate(file_size as usize);
    Ok(data_copy)
}

/// Recovers the plaintext of a file from its raw payload.
///
/// Works on a copy of `encrypted_data`. Each entry of `ranges`, in the
/// order given, is skipped if its start is `-1`, and else names a span of
/// the copy that is decrypted with AES-128 under `key`, 16 bytes at a time
/// and each chunk on its own. Bytes outside the spans stay as they are.
/// The copy is then cut to `file_size` bytes.
///
/// Fails with [`FileExtractionError::InvalidKey`] when the key is not 16
/// bytes long, and with [`FileExtractionError::Decrypt`] when a range that
/// is not skipped does not lie within the payload. A wrong key of the right
/// length is not detected: it gives other bytes.
pub fn decrypt_ranges(encrypted_data: &[u8], key: &[u8], file_size: u32, ranges: &[(i64, i64)]) -> (res:
    Result<Vec<u8>, FileExtractionError>)
    ensures
        is_outcome(res, decrypted_file(encrypted_data@, key@, file_size as nat, ranges@)),
{
    if key.len() != 16 {
        return Err(FileExtractionError::InvalidKey);
    }
    let mut key_block: [u8; 16] = [0u8; 16];
    let mut k: usize = 0;
    while k < 16
        invariant
            k <= 16,
            key@.len() == 16,
            forall|j: int| 0 <= j < k ==> #[trigger] key_block@[j] == key@[j],
        decreases 16 - k,
    {
        key_block[k] = key[k];
        k = k + 1;
    }
    proof {
        assert(key_block@ =~= key@);
    }
    decrypt_ranges_keyed(encrypted_data, &key_block, file_size, ranges)
}

/// Recovers the plaintext of the file that `header` describes from its raw
/// payload, with the key, the ranges and the true size of the record.
///
/// Fails with [`FileExtractionError::Decrypt`] when a range of the record
/// that is not skipped does not lie within the payload, and never for the
/// key.
pub fn decrypt_with_file_header(encrypted_data: &[u8], header: &FileHeader) -> (res: Result<
    Vec<u8>,
    FileExtractionError,
>)
    ensures
        is_outcome(
            res,
            decrypted_file(
                encrypted_data@,
                header.aes_key@,
                header.file_size as nat,
                header.aes_ranges@,
            ),
        ),
        res is Err <==> !ranges_fit(header.aes_ranges@, encrypted_data@.len()),
        res is Err ==> res == Err::<Vec<u8>, FileExtractionError>(FileExtractionError::Decrypt),
{
    decrypt_ranges_keyed(
        encrypted_data,
        &header.aes_key,
        header.file_size,
        header.aes_ranges.as_slice(),
    )
}

} // verus!
