//! Opening an archive: from the metadata file to the list of file records,
//! and from a file record to the plaintext of its file.

use vstd::prelude::*;
use crate::bhd::{
    file_header_fits, header_failure, run_in_bounds, Bucket, FileHeader, Header, BUCKET_SIZE,
    FILE_HEADER_SIZE, HEADER_SIZE,
};
use crate::cursor::{signed_at, unsigned_at, Cursor, LayoutError};
use crate::util::{
    decrypt_header, decrypt_with_file_header, decrypted_file, decrypted_header, is_outcome,
    lemma_decrypted_file_len, FileExtractionError, HeaderParseError,
};

verus! {

/// Offset of the bucket table of a blob: right after the header and its
/// salt.
pub open spec fn bucket_table_offset(bytes: Seq<u8>) -> int {
    HEADER_SIZE + unsigned_at(bytes, 24, 4)
}

/// Number of buckets that the header of a blob declares.
pub open spec fn bucket_count(bytes: Seq<u8>) -> nat {
    unsigned_at(bytes, 16, 4)
}

/// Offsets of the file records of one bucket: `count` records, one after
/// the other from `offset` on.
pub open spec fn bucket_record_offsets(count: int, offset: int) -> Seq<int> {
    Seq::new(
        if count > 0 {
            count as nat
        } else {
            0
        },
        |j: int| offset + FILE_HEADER_SIZE * j,
    )
}

/// The record count of entry `i` of the bucket table at offset `table` of
/// `bytes`.
pub open spec fn entry_count(bytes: Seq<u8>, table: int, i: int) -> int {
    signed_at(bytes, table + BUCKET_SIZE * i, 4)
}

/// The record offset of entry `i` of the bucket table at offset `table` of
/// `bytes`.
pub open spec fn entry_offset(bytes: Seq<u8>, table: int, i: int) -> int {
    signed_at(bytes, table + BUCKET_SIZE * i + 4, 4)
}

/// Whether entry `i` of the bucket table at offset `table` of `bytes` lies
/// within the blob: it counts no fewer than zero records, from an offset
/// that is neither negative nor past the end.
pub open spec fn bucket_in_bounds(bytes: Seq<u8>, table: int, i: int) -> bool {
    run_in_bounds(entry_count(bytes, table, i), entry_offset(bytes, table, i), bytes.len())
}

/// Why a bucket table of `count` entries cannot be read at offset `table`
/// of `bytes`, if it cannot: it runs past the end, or one of its entries
/// does not lie within the blob.
pub open spec fn table_failure(bytes: Seq<u8>, table: int, count: nat) -> Option<LayoutError> {
    if table + BUCKET_SIZE * count > bytes.len() {
        Some(LayoutError::UnexpectedEnd)
    } else if exists|i: int|
        #![trigger bucket_in_bounds(bytes, table, i)]
        #![trigger entry_count(bytes, table, i)]
        #![trigger entry_offset(bytes, table, i)]
        0 <= i < count && !bucket_in_bounds(bytes, table, i) {
        Some(LayoutError::Bucket)
    } else {
        None
    }
}

/// Why the records of a bucket with the given count and offset cannot be
/// read from `bytes`, if they cannot: the count or the offset does not lie
/// within the blob, or one of the records, or its key table entry, runs
/// past the end.
pub open spec fn run_failure(bytes: Seq<u8>, count: int, offset: int) -> Option<LayoutError> {
    if !run_in_bounds(count, offset, bytes.len()) {
        Some(LayoutError::Bucket)
    } else if exists|j: int|
        0 <= j < count && !file_header_fits(
            bytes,
            #[trigger] bucket_record_offsets(count, offset)[j],
        ) {
        Some(LayoutError::UnexpectedEnd)
    } else {
        None
    }
}

/// Offsets of the file records of the first `buckets` buckets of a blob, in
/// the order of the bucket table.
pub open spec fn record_offsets(bytes: Seq<u8>, buckets: nat) -> Seq<int>
    decreases buckets,
{
    if buckets == 0 {
        Seq::empty()
    } else {
        record_offsets(bytes, (buckets - 1) as nat) + bucket_record_offsets(
            entry_count(bytes, bucket_table_offset(bytes), buckets - 1),
            entry_offset(bytes, bucket_table_offset(bytes), buckets - 1),
        )
    }
}

/// Offsets of all file records of a blob, in reading order.
pub open spec fn all_record_offsets(bytes: Seq<u8>) -> Seq<int> {
    record_offsets(bytes, bucket_count(bytes))
}

/// Why a blob cannot be read as archive metadata, if it cannot. In this
/// order: its header fails; its bucket table runs past the end; a bucket
/// counts fewer than zero records or points outside the blob; one of the
/// file records that the buckets point to, or its key table entry, runs
/// past the end.
pub open spec fn metadata_failure(bytes: Seq<u8>) -> Option<LayoutError> {
    if header_failure(bytes, 0) is Some {
        header_failure(bytes, 0)
    } else if table_failure(bytes, bucket_table_offset(bytes), bucket_count(bytes)) is Some {
        table_failure(bytes, bucket_table_offset(bytes), bucket_count(bytes))
    } else if exists|k: int|
        0 <= k < all_record_offsets(bytes).len() && !file_header_fits(
            bytes,
            #[trigger] all_record_offsets(bytes)[k],
        ) {
        Some(LayoutError::UnexpectedEnd)
    } else {
        None
    }
}

/// Whether `headers` are the file records of a blob: one for each record
/// offset, in reading order, each decoded from its offset.
pub open spec fn is_file_table(headers: Seq<FileHeader>, bytes: Seq<u8>) -> bool {
    &&& headers.len() == all_record_offsets(bytes).len()
    &&& forall|k: int|
        0 <= k < headers.len() ==> (#[trigger] headers[k]).is_decoded_from(
            bytes,
            all_record_offsets(bytes)[k],
        )
}

/// The records of fewer buckets are a prefix of the records of more.
pub proof fn lemma_record_offsets_prefix(bytes: Seq<u8>, part: nat, total: nat)
    requires
        part <= total,
    ensures
        record_offsets(bytes, part).len() <= record_offsets(bytes, total).len(),
        forall|k: int|
            0 <= k < record_offsets(bytes, part).len() ==> record_offsets(bytes, total)[k]
                == #[trigger] record_offsets(bytes, part)[k],
    decreases total,
{
    if part < total {
        lemma_record_offsets_prefix(bytes, part, (total - 1) as nat);
    }
}

/// A blob in which a bucket does not lie within the blob is no archive
/// metadata, whatever the other buckets hold and whether or not any bucket
/// counts a record.
pub proof fn lemma_bucket_out_of_bounds_is_refused(bytes: Seq<u8>, i: int)
    requires
        0 <= i < bucket_count(bytes),
        !bucket_in_bounds(bytes, bucket_table_offset(bytes), i),
    ensures
        metadata_failure(bytes) is Some,
{
}

/// A blob in which a bucket counts fewer than zero records is no archive
/// metadata: such a bucket is not read as an empty one.
pub proof fn lemma_negative_count_is_refused(bytes: Seq<u8>, i: int)
    requires
        0 <= i < bucket_count(bytes),
        entry_count(bytes, bucket_table_offset(bytes), i) < 0,
    ensures
        metadata_failure(bytes) is Some,
{
    lemma_bucket_out_of_bounds_is_refused(bytes, i);
}

/// A blob in which the record offset of a bucket is negative or past the
/// end is no archive metadata, also where the bucket counts no record.
pub proof fn lemma_offset_out_of_bounds_is_refused(bytes: Seq<u8>, i: int)
    requires
        0 <= i < bucket_count(bytes),
        entry_offset(bytes, bucket_table_offset(bytes), i) < 0 || entry_offset(
            bytes,
            bucket_table_offset(bytes),
            i,
        ) > bytes.len(),
    ensures
        metadata_failure(bytes) is Some,
{
    lemma_bucket_out_of_bounds_is_refused(bytes, i);
}

/// Reads `count` bucket descriptors, one after the other from the cursor
/// on, and moves the cursor past the last of them.
///
/// Fails, leaving the cursor where it was: with
/// [`LayoutError::UnexpectedEnd`] when the table runs past the end of the
/// blob, else with [`LayoutError::Bucket`] when one of the buckets counts
/// fewer than zero records or names an offset that is negative or past the
/// end of the blob.
pub fn read_bucket_table(reader: &mut Cursor, count: u32) -> (res: Result<Vec<Bucket>, LayoutError>)
    ensures
        match res {
            Ok(buckets) => {
                &&& table_failure(
                    old(reader)@.bytes,
                    old(reader)@.position as int,
                    count as nat,
                ) is None
                &&& buckets@.len() == count
                &&& forall|i: int|
                    0 <= i < count ==> (#[trigger] buckets@[i]).is_decoded_from(
                        old(reader)@.bytes,
                        old(reader)@.position + BUCKET_SIZE * i,
                    )
                &&& forall|i: int|
                    0 <= i < count ==> (#[trigger] buckets@[i]).well_formed(
                        old(reader)@.bytes.len(),
                    )
                &&& final(reader)@ == old(reader)@.advanced((BUCKET_SIZE * count) as nat)
            },
            Err(e) => {
                &&& table_failure(
                    old(reader)@.bytes,
                    old(reader)@.position as int,
                    count as nat,
                ) == Some(e)
                &&& final(reader)@ == old(reader)@
            },
        },
{
    if !reader.has_remaining(BUCKET_SIZE * count as u64) {
        return Err(LayoutError::UnexpectedEnd);
    }
    let start: u64 = reader.position();
    let mut buckets: Vec<Bucket> = Vec::new();
    let mut b: u32 = 0;
    while b < count
        invariant
            b <= count,
            start == old(reader)@.position,
            old(reader)@.holds((BUCKET_SIZE * count) as nat),
            reader@ == old(reader)@.advanced((BUCKET_SIZE * b) as nat),
            buckets@.len() == b,
            forall|i: int|
                0 <= i < b ==> (#[trigger] buckets@[i]).is_decoded_from(
                    old(reader)@.bytes,
                    old(reader)@.position + BUCKET_SIZE * i,
                ),
            forall|i: int|
                0 <= i < b ==> (#[trigger] buckets@[i]).well_formed(old(reader)@.bytes.len()),
        decreases count - b,
    {
        let bucket = Bucket::from_reader(reader)?;
        if !bucket.lies_within(reader.len()) {
            proof {
                assert(!bucket_in_bounds(
                    old(reader)@.bytes,
                    old(reader)@.position as int,
                    b as int,
                ));
            }
            reader.set_position(start);
            return Err(LayoutError::Bucket);
        }
        buckets.push(bucket);
        b = b + 1;
    }
    proof {
        assert forall|i: int| 0 <= i < count implies #[trigger] bucket_in_bounds(
            old(reader)@.bytes,
            old(reader)@.position as int,
            i,
        ) by {
            assert(buckets@[i].well_formed(old(reader)@.bytes.len()));
        }
    }
    Ok(buckets)
}

/// Reads the file records of one bucket: the cursor is moved to the offset
/// that the bucket names, and as many records are read as it counts, one
/// after the other.
///
/// Fails, leaving the cursor where it was: with [`LayoutError::Bucket`]
/// when the bucket counts fewer than zero records or names an offset that
/// is negative or past the end of the blob, else with
/// [`LayoutError::UnexpectedEnd`] when one of the records or its key table
/// entry does not fit in the blob.
pub fn read_bucket_records(reader: &mut Cursor, bucket: &Bucket) -> (res: Result<
    Vec<FileHeader>,
    LayoutError,
>)
    ensures
        match res {
            Ok(records) => {
                let offsets = bucket_record_offsets(
                    bucket.file_header_count as int,
                    bucket.file_header_offset as int,
                );
                &&& run_failure(
                    old(reader)@.bytes,
                    bucket.file_header_count as int,
                    bucket.file_header_offset as int,
                ) is None
                &&& records@.len() == bucket.file_header_count
                &&& forall|j: int|
                    0 <= j < records@.len() ==> (#[trigger] records@[j]).is_decoded_from(
                        old(reader)@.bytes,
                        offsets[j],
                    )
                &&& final(reader)@ == old(reader)@.at(
                    (bucket.file_header_offset + FILE_HEADER_SIZE * bucket.file_header_count) as nat,
                )
            },
            Err(e) => {
                &&& run_failure(
                    old(reader)@.bytes,
                    bucket.file_header_count as int,
                    bucket.file_header_offset as int,
                ) == Some(e)
                &&& final(reader)@ == old(reader)@
            },
        },
{
    if !bucket.lies_within(reader.len()) {
        return Err(LayoutError::Bucket);
    }
    let ghost offsets = bucket_record_offsets(
        bucket.file_header_count as int,
        bucket.file_header_offset as int,
    );
    let mut records: Vec<FileHeader> = Vec::new();
    let start: u64 = reader.position();
    reader.set_position(bucket.file_header_offset as u64);
    let mut j: i32 = 0;
    while j < bucket.file_header_count
        invariant
            0 <= j <= bucket.file_header_count,
            bucket.well_formed(old(reader)@.bytes.len()),
            start == old(reader)@.position,
            offsets == bucket_record_offsets(
                bucket.file_header_count as int,
                bucket.file_header_offset as int,
            ),
            reader@.bytes == old(reader)@.bytes,
            reader@.position == bucket.file_header_offset + FILE_HEADER_SIZE * j,
            records@.len() == j,
            forall|i: int|
                0 <= i < j ==> file_header_fits(old(reader)@.bytes, #[trigger] offsets[i]),
            forall|i: int|
                0 <= i < j ==> (#[trigger] records@[i]).is_decoded_from(
                    old(reader)@.bytes,
                    offsets[i],
                ),
        decreases bucket.file_header_count - j,
    {
        let file_header = match FileHeader::from_reader(reader) {
            Ok(file_header) => file_header,
            Err(e) => {
                proof {
                    assert(!file_header_fits(old(reader)@.bytes, offsets[j as int]));
                }
                reader.set_position(start);
                return Err(e);
            },
        };
        records.push(file_header);
        j = j + 1;
    }
    Ok(records)
}

/// Reads the file records of a decrypted metadata blob.
///
/// The header is read at offset zero and the bucket descriptors right after
/// it. Then, bucket by bucket, the cursor is moved to the offset that the
/// bucket names and as many records are read as it counts, one after the
/// other. Fails when the header, the bucket table or one of the records
/// does not fit in the blob, and when a bucket counts fewer than zero
/// records or names an offset outside the blob.
pub fn parse_file_headers(blob: Vec<u8>) -> (res: Result<Vec<FileHeader>, LayoutError>)
    ensures
        match res {
            Ok(headers) => metadata_failure(blob@) is None && is_file_table(headers@, blob@),
            Err(e) => metadata_failure(blob@) == Some(e),
        },
{
    let ghost bytes = blob@;
    let mut bhd_reader = Cursor::new(blob);
    let header = Header::from_reader(&mut bhd_reader)?;
    let buckets = read_bucket_table(&mut bhd_reader, header.bucket_count)?;

    let mut file_headers: Vec<FileHeader> = Vec::new();
    let mut b: usize = 0;
    while b < buckets.len()
        invariant
            b <= buckets.len(),
            bytes == blob@,
            buckets@.len() == bucket_count(bytes),
            header_failure(bytes, 0) is None,
            table_failure(bytes, bucket_table_offset(bytes), bucket_count(bytes)) is None,
            bhd_reader@.bytes == bytes,
            forall|i: int|
                0 <= i < buckets@.len() ==> (#[trigger] buckets@[i]).is_decoded_from(
                    bytes,
                    bucket_table_offset(bytes) + BUCKET_SIZE * i,
                ),
            forall|i: int|
                0 <= i < buckets@.len() ==> (#[trigger] buckets@[i]).well_formed(bytes.len()),
            file_headers@.len() == record_offsets(bytes, b as nat).len(),
            forall|k: int|
                0 <= k < file_headers@.len() ==> file_header_fits(
                    bytes,
                    #[trigger] record_offsets(bytes, b as nat)[k],
                ),
            forall|k: int|
                0 <= k < file_headers@.len() ==> (#[trigger] file_headers@[k]).is_decoded_from(
                    bytes,
                    record_offsets(bytes, b as nat)[k],
                ),
        decreases buckets.len() - b,
    {
        let ghost done = record_offsets(bytes, b as nat);
        let ghost here = bucket_record_offsets(
            buckets@[b as int].file_header_count as int,
            buckets@[b as int].file_header_offset as int,
        );
        proof {
            assert(buckets@[b as int].is_decoded_from(
                bytes,
                bucket_table_offset(bytes) + BUCKET_SIZE * b,
            ));
            assert(buckets@[b as int].well_formed(bytes.len()));
            lemma_record_offsets_prefix(bytes, (b + 1) as nat, bucket_count(bytes));
        }
        let mut records = match read_bucket_records(&mut bhd_reader, &buckets[b]) {
            Ok(records) => records,
            Err(e) => {
                proof {
                    let j = choose|j: int|
                        0 <= j < here.len() && !file_header_fits(bytes, #[trigger] here[j]);
                    let k = done.len() + j;
                    assert((done + here)[k] == here[j]);
                    assert(!file_header_fits(bytes, all_record_offsets(bytes)[k]));
                }
                return Err(e);
            },
        };
        let ghost before = file_headers@;
        let ghost added = records@;
        file_headers.append(&mut records);
        proof {
            assert forall|k: int| 0 <= k < file_headers@.len() implies file_header_fits(
                bytes,
                #[trigger] (done + here)[k],
            ) by {
                if k < before.len() {
                    assert((done + here)[k] == done[k]);
                } else {
                    let j = k - done.len();
                    assert((done + here)[k] == here[j]);
                    assert(file_header_fits(bytes, here[j]));
                }
            }
            assert forall|k: int| 0 <= k < file_headers@.len() implies (#[trigger] file_headers@[k])
                .is_decoded_from(bytes, (done + here)[k]) by {
                if k < before.len() {
                    assert(file_headers@[k] == before[k]);
                } else {
                    assert(file_headers@[k] == added[k - before.len()]);
                }
            }
        }
        b = b + 1;
    }
    Ok(file_headers)
}

/// Reads the file records of an archive from its metadata file `file`,
/// which is encrypted with the PEM-encoded public key `key`.
///
/// Fails as [`decrypt_header`] does when the blob cannot be decrypted, and
/// with [`HeaderParseError::Layout`] when the decrypted blob cannot be read
/// as [`parse_file_headers`] reads it.
pub fn get_file_headers(file: &[u8], key: &[u8]) -> (res: Result<
    Vec<FileHeader>,
    HeaderParseError,
>)
    ensures
        match decrypted_header(file@, key@) {
            Ok(blob) => match res {
                Ok(headers) => metadata_failure(blob) is None && is_file_table(headers@, blob),
                Err(e) => metadata_failure(blob) is Some && e == HeaderParseError::Layout(
                    metadata_failure(blob).unwrap(),
                ),
            },
            Err(e) => res == Err::<Vec<FileHeader>, HeaderParseError>(e),
        },
{
    let decrypted_header = decrypt_header(file, key)?;
    match parse_file_headers(decrypted_header) {
        Ok(headers) => Ok(headers),
        Err(e) => Err(HeaderParseError::Layout(e)),
    }
}

/// The raw payload of a file within the payload file `data`: the bytes from
/// `file_offset` on, `padded_file_size` of them, or as many as the payload
/// file still holds there.
pub open spec fn payload_of(data: Seq<u8>, file_offset: nat, padded_file_size: nat) -> Seq<u8> {
    let start = if file_offset <= data.len() {
        file_offset
    } else {
        data.len()
    };
    let end = if start + padded_file_size <= data.len() {
        start + padded_file_size
    } else {
        data.len()
    };
    data.subrange(start as int, end as int)
}

/// A file whose payload lies within the payload file, and whose true size
/// is not above its padded size, comes out exactly as long as its true size
/// says.
pub proof fn lemma_extracted_file_len(data: Seq<u8>, header: FileHeader)
    requires
        header.file_size <= header.padded_file_size,
        header.file_offset + header.padded_file_size <= data.len(),
        decrypted_file(
            payload_of(data, header.file_offset as nat, header.padded_file_size as nat),
            header.aes_key@,
            header.file_size as nat,
            header.aes_ranges@,
        ) is Ok,
    ensures
        decrypted_file(
            payload_of(data, header.file_offset as nat, header.padded_file_size as nat),
            header.aes_key@,
            header.file_size as nat,
            header.aes_ranges@,
        ).unwrap().len() == header.file_size,
{
    lemma_decrypted_file_len(
        payload_of(data, header.file_offset as nat, header.padded_file_size as nat),
        header.aes_key@,
        header.file_size as nat,
        header.aes_ranges@,
    );
}

/// Cuts the raw payload of the file that `header` describes out of the
/// payload file.
pub fn file_payload<'a>(data_buffer: &'a [u8], header: &FileHeader) -> (payload: &'a [u8])
    ensures
        payload@ == payload_of(
            data_buffer@,
            header.file_offset as nat,
            header.padded_file_size as nat,
        ),
{
    let len: u64 = data_buffer.len() as u64;
    let start: u64 = if header.file_offset <= len {
        header.file_offset
    } else {
        len
    };
    let end: u64 = if header.padded_file_size as u64 <= len - start {
        start + header.padded_file_size as u64
    } else {
        len
    };
    &data_buffer[start as usize..end as usize]
}

/// Recovers the plaintext of the file that `header` describes from the
/// payload file: cuts out its raw payload, decrypts the ranges that the
/// record lists, and trims the result to the true size of the file.
///
/// Fails with [`FileExtractionError::Decrypt`] when a range of the record
/// that is not skipped does not lie within the raw payload.
pub fn extract_file(data_buffer: &[u8], header: &FileHeader) -> (res: Result<
    Vec<u8>,
    FileExtractionError,
>)
    ensures
        is_outcome(
            res,
            decrypted_file(
                payload_of(
                    data_buffer@,
                    header.file_offset as nat,
                    header.padded_file_size as nat,
                ),
                header.aes_key@,
                header.file_size as nat,
                header.aes_ranges@,
            ),
        ),
{
    decrypt_with_file_header(file_payload(data_buffer, header), header)
}

} // verus!
