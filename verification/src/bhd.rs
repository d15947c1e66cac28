//! The records of the metadata blob: the container header, the bucket
//! descriptors that follow it, and the file records that the buckets point
//! to.

use vstd::prelude::*;
use crate::cursor::{field, signed_at, unsigned_at, Cursor, LayoutError};

verus! {

/// Bytes that a header takes before its salt.
pub const HEADER_SIZE: u64 = 28;

/// Bytes of one bucket descriptor.
pub const BUCKET_SIZE: u64 = 8;

/// Bytes that a file record takes in its bucket.
pub const FILE_HEADER_SIZE: u64 = 40;

/// Bytes of a key table entry before its ranges: the key and the range
/// count.
pub const KEY_ENTRY_SIZE: u64 = 20;

/// Bytes of one range of a key table entry.
pub const RANGE_SIZE: u64 = 16;

/// The top-level fields of the metadata blob.
///
/// The magic tag and the endianness flag are read and handed on as they
/// stand: neither is held against an expected value.
#[derive(Debug, Clone, PartialEq, Eq)]
pub struct Header {
    /// The tag that identifies the format.
    pub magic: [u8; 4],
    /// The flag that tells the byte order of the archive.
    pub endianness: i8,
    /// Reserved.
    pub unk1: u8,
    /// Reserved.
    pub unk2: u8,
    /// Reserved.
    pub unk3: u8,
    /// Reserved.
    pub unk4: u32,
    /// The size that the metadata declares for itself.
    pub file_size: u32,
    /// The number of bucket descriptors.
    pub bucket_count: u32,
    /// The offset of the bucket table in the blob.
    pub bucket_offset: u32,
    /// The number of salt bytes after the fixed fields.
    pub salt_length: u32,
    /// The salt, which extraction carries along and does not use.
    pub salt: Vec<u8>,
}

/// Why no header can be read at offset `at` of `bytes`, if none can.
pub open spec fn header_failure(bytes: Seq<u8>, at: int) -> Option<LayoutError> {
    if at + HEADER_SIZE > bytes.len() {
        Some(LayoutError::UnexpectedEnd)
    } else if at + HEADER_SIZE + unsigned_at(bytes, at + 24, 4) > bytes.len() {
        Some(LayoutError::UnexpectedEnd)
    } else if unsigned_at(bytes, at + 20, 4) + BUCKET_SIZE * unsigned_at(bytes, at + 16, 4)
        > bytes.len() {
        Some(LayoutError::BucketTable)
    } else {
        None
    }
}

impl Header {
    /// Whether every field of `self` is what `bytes` hold at offset `at`.
    pub open spec fn is_decoded_from(&self, bytes: Seq<u8>, at: int) -> bool {
        &&& self.magic@ == field(bytes, at, 4)
        &&& self.endianness == signed_at(bytes, at + 4, 1)
        &&& self.unk1 == unsigned_at(bytes, at + 5, 1)
        &&& self.unk2 == unsigned_at(bytes, at + 6, 1)
        &&& self.unk3 == unsigned_at(bytes, at + 7, 1)
        &&& self.unk4 == unsigned_at(bytes, at + 8, 4)
        &&& self.file_size == unsigned_at(bytes, at + 12, 4)
        &&& self.bucket_count == unsigned_at(bytes, at + 16, 4)
        &&& self.bucket_offset == unsigned_at(bytes, at + 20, 4)
        &&& self.salt_length == unsigned_at(bytes, at + 24, 4)
        &&& self.salt@ == field(bytes, at + 28, self.salt_length as int)
    }

    /// The bucket table that the header declares lies within a blob of
    /// `blob_len` bytes.
    pub open spec fn well_formed(&self, blob_len: nat) -> bool {
        self.bucket_offset + BUCKET_SIZE * self.bucket_count <= blob_len
    }

    /// Bytes that the header takes in the blob, salt included.
    pub open spec fn encoded_len(&self) -> nat {
        (HEADER_SIZE + self.salt_length) as nat
    }

    /// Reads a header at the cursor and moves the cursor past its salt.
    ///
    /// Fails, leaving the cursor where it was, when the fixed fields or the
    /// salt run past the end of the blob, or when the bucket table that the
    /// header declares does not fit in the blob.
    pub fn from_reader(reader: &mut Cursor) -> (res: Result<Header, LayoutError>)
        ensures
            match res {
                Ok(header) => {
                    &&& header_failure(old(reader)@.bytes, old(reader)@.position as int) is None
                    &&& header.is_decoded_from(old(reader)@.bytes, old(reader)@.position as int)
                    &&& header.well_formed(old(reader)@.bytes.len())
                    &&& final(reader)@ == old(reader)@.advanced(header.encoded_len())
                },
                Err(e) => {
                    &&& header_failure(old(reader)@.bytes, old(reader)@.position as int) == Some(e)
                    &&& final(reader)@ == old(reader)@
                },
            },
    {
        let start: u64 = reader.position();
        if !reader.has_remaining(HEADER_SIZE) {
            return Err(LayoutError::UnexpectedEnd);
        }
        let magic = reader.read_array::<4>()?;
        let endianness: i8 = reader.read_i8()?;
        let unk1: u8 = reader.read_u8()?;
        let unk2: u8 = reader.read_u8()?;
        let unk3: u8 = reader.read_u8()?;
        let unk4: u32 = reader.read_u32()?;
        let file_size: u32 = reader.read_u32()?;
        let bucket_count: u32 = reader.read_u32()?;
        let bucket_offset: u32 = reader.read_u32()?;
        let salt_length: u32 = reader.read_u32()?;
        let salt = match reader.read_bytes(salt_length as usize) {
            Ok(salt) => salt,
            Err(e) => {
                reader.set_position(start);
                return Err(e);
            },
        };
        if bucket_offset as u64 + BUCKET_SIZE * bucket_count as u64 > reader.len() as u64 {
            reader.set_position(start);
            return Err(LayoutError::BucketTable);
        }
        Ok(
            Header {
                magic,
                endianness,
                unk1,
                unk2,
                unk3,
                unk4,
                file_size,
                bucket_count,
                bucket_offset,
                salt_length,
                salt,
            },
        )
    }
}

/// One entry of the bucket table: how many file records the bucket has and
/// where in the blob the first of them starts.
#[derive(Debug, Clone, Copy, PartialEq, Eq)]
pub struct Bucket {
    /// The number of file records of the bucket.
    pub file_header_count: i32,
    /// The offset in the blob of the first of them.
    pub file_header_offset: i32,
}

/// Whether a record count and a record offset lie within a blob of
/// `blob_len` bytes: the count is not negative, and the offset is neither
/// negative nor past the end.
pub open spec fn run_in_bounds(count: int, offset: int, blob_len: nat) -> bool {
    0 <= count && 0 <= offset <= blob_len
}

impl Bucket {
    /// Whether both fields of `self` are what `bytes` hold at offset `at`.
    pub open spec fn is_decoded_from(&self, bytes: Seq<u8>, at: int) -> bool {
        &&& self.file_header_count == signed_at(bytes, at, 4)
        &&& self.file_header_offset == signed_at(bytes, at + 4, 4)
    }

    /// Whether the count and the offset of the bucket lie within a blob of
    /// `blob_len` bytes.
    pub open spec fn well_formed(&self, blob_len: nat) -> bool {
        run_in_bounds(self.file_header_count as int, self.file_header_offset as int, blob_len)
    }

    /// Tests whether the count and the offset of the bucket lie within a
    /// blob of `blob_len` bytes.
    pub fn lies_within(&self, blob_len: usize) -> (within: bool)
        ensures
            within == self.well_formed(blob_len as nat),
    {
        self.file_header_count >= 0 && self.file_header_offset >= 0
            && self.file_header_offset as u64 <= blob_len as u64
    }

    /// Reads a bucket descriptor at the cursor and moves the cursor past it.
    /// The two fields are handed on as they stand; whether they lie within
    /// the blob is for [`Bucket::lies_within`] to say.
    ///
    /// Fails, leaving the cursor where it was, when fewer than eight bytes
    /// are left.
    pub fn from_reader(reader: &mut Cursor) -> (res: Result<Bucket, LayoutError>)
        ensures
            match res {
                Ok(bucket) => {
                    &&& old(reader)@.holds(BUCKET_SIZE as nat)
                    &&& bucket.is_decoded_from(old(reader)@.bytes, old(reader)@.position as int)
                    &&& final(reader)@ == old(reader)@.advanced(BUCKET_SIZE as nat)
                },
                Err(e) => {
                    &&& !old(reader)@.holds(BUCKET_SIZE as nat)
                    &&& e == LayoutError::UnexpectedEnd
                    &&& final(reader)@ == old(reader)@
                },
            },
    {
        if !reader.has_remaining(BUCKET_SIZE) {
            return Err(LayoutError::UnexpectedEnd);
        }
        let file_header_count: i32 = reader.read_i32()?;
        let file_header_offset: i32 = reader.read_i32()?;
        Ok(Bucket { file_header_count, file_header_offset })
    }
}

/// The key table entry of a file record, stored away from the record
/// itself: the AES key of the file, then the spans of its payload that are
/// encrypted.
#[derive(Debug, Clone, PartialEq, Eq)]
pub struct KeyTableEntry {
    /// The AES-128 key of the file.
    pub aes_key: [u8; 16],
    /// The encrypted spans of the payload, each from its start up to its
    /// end. A start of `-1` marks a slot that is not in use.
    pub aes_ranges: Vec<(i64, i64)>,
}

/// Whether a key table entry, with all the ranges that it declares, lies
/// within `bytes` at offset `at`.
pub open spec fn key_entry_fits(bytes: Seq<u8>, at: int) -> bool {
    &&& at + KEY_ENTRY_SIZE <= bytes.len()
    &&& at + KEY_ENTRY_SIZE + RANGE_SIZE * unsigned_at(bytes, at + 16, 4) <= bytes.len()
}

/// Whether `key` and `ranges` are what the key table entry at offset `at` of
/// `bytes` holds: the key, then the count, then that many pairs of signed
/// 64-bit offsets with no gap between them.
pub open spec fn key_entry_matches(
    key: Seq<u8>,
    ranges: Seq<(i64, i64)>,
    bytes: Seq<u8>,
    at: int,
) -> bool {
    &&& key == field(bytes, at, 16)
    &&& ranges.len() == unsigned_at(bytes, at + 16, 4)
    &&& forall|i: int|
        0 <= i < ranges.len() ==> {
            &&& (#[trigger] ranges[i]).0 == signed_at(bytes, at + KEY_ENTRY_SIZE + RANGE_SIZE * i, 8)
            &&& ranges[i].1 == signed_at(bytes, at + KEY_ENTRY_SIZE + RANGE_SIZE * i + 8, 8)
        }
}

impl KeyTableEntry {
    /// Whether `self` is what `bytes` hold at offset `at`.
    pub open spec fn is_decoded_from(&self, bytes: Seq<u8>, at: int) -> bool {
        key_entry_matches(self.aes_key@, self.aes_ranges@, bytes, at)
    }

    /// Bytes that the entry takes in the blob.
    pub open spec fn encoded_len(&self) -> nat {
        (KEY_ENTRY_SIZE + RANGE_SIZE * self.aes_ranges@.len()) as nat
    }

    /// Reads a key table entry at the cursor and moves the cursor past its
    /// last range.
    ///
    /// Fails, leaving the cursor where it was, when the key, the count or
    /// one of the ranges runs past the end of the blob.
    pub fn from_reader(reader: &mut Cursor) -> (res: Result<KeyTableEntry, LayoutError>)
        ensures
            match res {
                Ok(entry) => {
                    &&& key_entry_fits(old(reader)@.bytes, old(reader)@.position as int)
                    &&& entry.is_decoded_from(old(reader)@.bytes, old(reader)@.position as int)
                    &&& final(reader)@ == old(reader)@.advanced(entry.encoded_len())
                },
                Err(e) => {
                    &&& !key_entry_fits(old(reader)@.bytes, old(reader)@.position as int)
                    &&& e == LayoutError::UnexpectedEnd
                    &&& final(reader)@ == old(reader)@
                },
            },
    {
        let start: u64 = reader.position();
        if !reader.has_remaining(KEY_ENTRY_SIZE) {
            return Err(LayoutError::UnexpectedEnd);
        }
        let aes_key = reader.read_array::<16>()?;
        let aes_range_count: u32 = reader.read_u32()?;
        if !reader.has_remaining(RANGE_SIZE * aes_range_count as u64) {
            reader.set_position(start);
            return Err(LayoutError::UnexpectedEnd);
        }
        let mut aes_ranges: Vec<(i64, i64)> = Vec::new();
        let mut i: u32 = 0;
        while i < aes_range_count
            invariant
                i <= aes_range_count,
                reader@ == old(reader)@.advanced((KEY_ENTRY_SIZE + RANGE_SIZE * i) as nat),
                start == old(reader)@.position,
                start + KEY_ENTRY_SIZE + RANGE_SIZE * aes_range_count <= reader@.bytes.len(),
                aes_ranges@.len() == i,
                forall|j: int|
                    0 <= j < i ==> {
                        &&& (#[trigger] aes_ranges@[j]).0 == signed_at(
                            reader@.bytes,
                            start + KEY_ENTRY_SIZE + RANGE_SIZE * j,
                            8,
                        )
                        &&& aes_ranges@[j].1 == signed_at(
                            reader@.bytes,
                            start + KEY_ENTRY_SIZE + RANGE_SIZE * j + 8,
                            8,
                        )
                    },
            decreases aes_range_count - i,
        {
            let range_start: i64 = reader.read_i64()?;
            let range_end: i64 = reader.read_i64()?;
            aes_ranges.push((range_start, range_end));
            i = i + 1;
        }
        Ok(KeyTableEntry { aes_key, aes_ranges })
    }
}

/// One stored file: where its payload lies in the payload file, how long it
/// is with and without padding, and how to decrypt it.
#[derive(Debug, Clone, PartialEq, Eq)]
pub struct FileHeader {
    /// The hash of the path of the file.
    pub file_path_hash: u64,
    /// The length of the payload as stored, padded to whole cipher blocks.
    pub padded_file_size: u32,
    /// The length of the file itself.
    pub file_size: u32,
    /// The offset of the payload in the payload file.
    pub file_offset: u64,
    /// The AES-128 key of the file.
    pub aes_key: [u8; 16],
    /// The encrypted spans of the payload, each from its start up to its
    /// end. A start of `-1` marks a slot that is not in use.
    pub aes_ranges: Vec<(i64, i64)>,
}

/// Where in the blob the record at offset `at` says its key table entry is.
pub open spec fn key_entry_offset(bytes: Seq<u8>, at: int) -> int {
    unsigned_at(bytes, at + 32, 8) as int
}

/// Whether a file record lies within `bytes` at offset `at`, and its key
/// table entry where the record says.
pub open spec fn file_header_fits(bytes: Seq<u8>, at: int) -> bool {
    &&& at + FILE_HEADER_SIZE <= bytes.len()
    &&& key_entry_fits(bytes, key_entry_offset(bytes, at))
}

impl FileHeader {
    /// Whether every field of `self` is what `bytes` hold: the leading
    /// fields at offset `at`, the key and the ranges in the key table entry
    /// that the record points to.
    pub open spec fn is_decoded_from(&self, bytes: Seq<u8>, at: int) -> bool {
        &&& self.file_path_hash == unsigned_at(bytes, at, 8)
        &&& self.padded_file_size == unsigned_at(bytes, at + 8, 4)
        &&& self.file_size == unsigned_at(bytes, at + 12, 4)
        &&& self.file_offset == unsigned_at(bytes, at + 16, 8)
        &&& key_entry_matches(
            self.aes_key@,
            self.aes_ranges@,
            bytes,
            key_entry_offset(bytes, at),
        )
    }

    /// Reads a file record at the cursor and moves the cursor to the next
    /// record of the bucket.
    ///
    /// The key and the ranges are fetched from the key table entry that the
    /// record points to; whatever that detour reads, the cursor ends exactly
    /// [`FILE_HEADER_SIZE`] bytes after where it started. Fails, leaving the
    /// cursor where it was, when the record or its key table entry runs past
    /// the end of the blob.
    pub fn from_reader(reader: &mut Cursor) -> (res: Result<FileHeader, LayoutError>)
        ensures
            match res {
                Ok(header) => {
                    &&& file_header_fits(old(reader)@.bytes, old(reader)@.position as int)
                    &&& header.is_decoded_from(old(reader)@.bytes, old(reader)@.position as int)
                    &&& final(reader)@ == old(reader)@.advanced(FILE_HEADER_SIZE as nat)
                },
                Err(e) => {
                    &&& !file_header_fits(old(reader)@.bytes, old(reader)@.position as int)
                    &&& e == LayoutError::UnexpectedEnd
                    &&& final(reader)@ == old(reader)@
                },
            },
    {
        let start: u64 = reader.position();
        if !reader.has_remaining(FILE_HEADER_SIZE) {
            return Err(LayoutError::UnexpectedEnd);
        }
        let file_path_hash: u64 = reader.read_u64()?;
        let padded_file_size: u32 = reader.read_u32()?;
        let file_size: u32 = reader.read_u32()?;
        let file_offset: u64 = reader.read_u64()?;
        let _sha_offset: u64 = reader.read_u64()?;
        let aes_key_offset: u64 = reader.read_u64()?;

        let current_position: u64 = reader.position();
        reader.set_position(aes_key_offset);
        match KeyTableEntry::from_reader(reader) {
            Ok(entry) => {
                reader.set_position(current_position);
                Ok(
                    FileHeader {
                        file_path_hash,
                        padded_file_size,
                        file_size,
                        file_offset,
                        aes_key: entry.aes_key,
                        aes_ranges: entry.aes_ranges,
                    },
                )
            },
            Err(e) => {
                reader.set_position(start);
                Err(e)
            },
        }
    }
}

} // verus!
