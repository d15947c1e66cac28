//! A read position over the decrypted metadata blob.
//!
//! Every multi-byte integer of the archive is fixed-width and little-endian.
//! A [`Cursor`] owns the blob and decodes one field at a time; it can be
//! moved to any offset and back, which is how a file record reaches the key
//! table entry that is stored elsewhere in the same blob.

use vstd::prelude::*;

verus! {

/// Why a blob cannot be read as archive metadata.
#[derive(Debug, Clone, Copy, PartialEq, Eq, Structural)]
pub enum LayoutError {
    /// A field extends past the end of the blob.
    UnexpectedEnd,
    /// The bucket table that the header declares does not fit in the blob.
    BucketTable,
    /// A bucket counts fewer than zero records, or the offset of its
    /// records is negative or past the end of the blob.
    Bucket,
}

/// `256` to the power `digits`.
pub open spec fn radix_power(digits: nat) -> nat
    decreases digits,
{
    if digits == 0 {
        1
    } else {
        256 * radix_power((digits - 1) as nat)
    }
}

/// The unsigned integer that `bytes` spell, least significant byte first.
pub open spec fn le_value(bytes: Seq<u8>) -> nat
    decreases bytes.len(),
{
    if bytes.len() == 0 {
        0
    } else {
        bytes[0] as nat + 256 * le_value(bytes.drop_first())
    }
}

/// The two's-complement integer that `bytes` spell, least significant byte
/// first.
pub open spec fn le_signed(bytes: Seq<u8>) -> int {
    let value = le_value(bytes);
    if 2 * value >= radix_power(bytes.len()) {
        value - radix_power(bytes.len())
    } else {
        value as int
    }
}

/// The `width` bytes of `bytes` that start at offset `at`.
pub open spec fn field(bytes: Seq<u8>, at: int, width: int) -> Seq<u8> {
    bytes.subrange(at, at + width)
}

/// The unsigned little-endian integer of `width` bytes at offset `at`.
pub open spec fn unsigned_at(bytes: Seq<u8>, at: int, width: int) -> nat {
    le_value(field(bytes, at, width))
}

/// The signed little-endian integer of `width` bytes at offset `at`.
pub open spec fn signed_at(bytes: Seq<u8>, at: int, width: int) -> int {
    le_signed(field(bytes, at, width))
}

/// The powers of 256 that the field widths of the format need.
pub proof fn lemma_radix_power_values()
    ensures
        radix_power(0) == 1,
        radix_power(1) == 0x100,
        radix_power(2) == 0x1_0000,
        radix_power(3) == 0x100_0000,
        radix_power(4) == 0x1_0000_0000,
        radix_power(5) == 0x100_0000_0000,
        radix_power(6) == 0x1_0000_0000_0000,
        radix_power(7) == 0x100_0000_0000_0000,
        radix_power(8) == 0x1_0000_0000_0000_0000,
{
    reveal_with_fuel(radix_power, 9);
}

/// A little-endian value of `n` bytes is below `256^n`.
pub proof fn lemma_le_value_bound(bytes: Seq<u8>)
    ensures
        le_value(bytes) < radix_power(bytes.len()),
    decreases bytes.len(),
{
    if bytes.len() > 0 {
        lemma_le_value_bound(bytes.drop_first());
    }
}

/// What a [`Cursor`] stands for: the blob and the offset of the next read.
pub struct CursorView {
    pub bytes: Seq<u8>,
    pub position: nat,
}

impl CursorView {
    /// Whether `width` more bytes lie between the position and the end.
    pub open spec fn holds(self, width: nat) -> bool {
        self.position + width <= self.bytes.len()
    }

    /// The `width` bytes at the position.
    pub open spec fn next(self, width: nat) -> Seq<u8> {
        self.bytes.subrange(self.position as int, (self.position + width) as int)
    }

    /// The same blob, read position moved `width` bytes on.
    pub open spec fn advanced(self, width: nat) -> CursorView {
        CursorView { bytes: self.bytes, position: self.position + width }
    }

    /// The same blob, read position at `position`.
    pub open spec fn at(self, position: nat) -> CursorView {
        CursorView { bytes: self.bytes, position }
    }
}

/// The blob together with the offset at which the next field is read.
///
/// The position may lie anywhere, also past the end of the blob: moving it
/// never fails, and a read that does not fit reports
/// [`LayoutError::UnexpectedEnd`] and leaves the cursor where it was.
pub struct Cursor {
    data: Vec<u8>,
    position: u64,
}

impl View for Cursor {
    type V = CursorView;

    closed spec fn view(&self) -> CursorView {
        CursorView { bytes: self.data@, position: self.position as nat }
    }
}

/// Decodes the `width` bytes of `bytes` that start at `start`.
fn decode_le(bytes: &[u8], start: usize, width: usize) -> (value: u64)
    requires
        width <= 8,
        start + width <= bytes.len(),
    ensures
        value == le_value(bytes@.subrange(start as int, start + width)),
        value < radix_power(width as nat),
{
    let mut value: u64 = 0;
    let mut left: usize = width;
    while left > 0
        invariant
            left <= width <= 8,
            start + width <= bytes.len(),
            value == le_value(bytes@.subrange(start + left, start + width)),
        decreases left,
    {
        proof {
            lemma_le_value_bound(bytes@.subrange(start + left, start + width));
            lemma_radix_power_values();
        }
        left = left - 1;
        proof {
            let tail = bytes@.subrange(start + left, start + width);
            assert(tail.drop_first() =~= bytes@.subrange(start + left + 1, start + width));
        }
        value = value * 256 + bytes[start + left] as u64;
    }
    proof {
        lemma_le_value_bound(bytes@.subrange(start as int, start + width));
    }
    value
}

impl Cursor {
    /// A cursor at the start of `data`.
    pub fn new(data: Vec<u8>) -> (cursor: Cursor)
        ensures
            cursor@ == (CursorView { bytes: data@, position: 0 }),
    {
        Cursor { data, position: 0 }
    }

    /// The offset of the next read.
    pub fn position(&self) -> (position: u64)
        ensures
            position == self@.position,
    {
        self.position
    }

    /// Moves the read position to `position`, counted from the start of the
    /// blob.
    pub fn set_position(&mut self, position: u64)
        ensures
            final(self)@ == old(self)@.at(position as nat),
    {
        self.position = position;
    }

    /// The length of the blob.
    pub fn len(&self) -> (len: usize)
        ensures
            len == self@.bytes.len(),
    {
        self.data.len()
    }

    /// The blob.
    pub fn bytes(&self) -> (bytes: &[u8])
        ensures
            bytes@ == self@.bytes,
    {
        self.data.as_slice()
    }

    /// Gives the blob back.
    pub fn into_inner(self) -> (data: Vec<u8>)
        ensures
            data@ == self@.bytes,
    {
        self.data
    }

    /// Whether `width` bytes can be read at the position.
    pub fn has_remaining(&self, width: u64) -> (fits: bool)
        ensures
            fits == self@.holds(width as nat),
    {
        let len: u64 = self.data.len() as u64;
        self.position <= len && width <= len - self.position
    }

    /// Moves over `width` bytes and says where they start, or fails and
    /// stays.
    fn claim(&mut self, width: usize) -> (res: Result<usize, LayoutError>)
        ensures
            match res {
                Ok(start) => old(self)@.holds(width as nat) && start == old(self)@.position
                    && final(self)@ == old(self)@.advanced(width as nat),
                Err(e) => !old(self)@.holds(width as nat) && e == LayoutError::UnexpectedEnd
                    && final(self)@ == old(self)@,
            },
    {
        if self.has_remaining(width as u64) {
            assert(self.position + width <= self.data.len());
            let start: usize = self.position as usize;
            self.position = self.position + width as u64;
            Ok(start)
        } else {
            Err(LayoutError::UnexpectedEnd)
        }
    }

    /// Reads one unsigned byte.
    pub fn read_u8(&mut self) -> (res: Result<u8, LayoutError>)
        ensures
            match res {
                Ok(value) => old(self)@.holds(1) && value == le_value(old(self)@.next(1))
                    && final(self)@ == old(self)@.advanced(1),
                Err(e) => !old(self)@.holds(1) && e == LayoutError::UnexpectedEnd
                    && final(self)@ == old(self)@,
            },
    {
        let start: usize = self.claim(1)?;
        proof {
            lemma_radix_power_values();
        }
        Ok(decode_le(self.data.as_slice(), start, 1) as u8)
    }

    /// Reads one signed byte.
    pub fn read_i8(&mut self) -> (res: Result<i8, LayoutError>)
        ensures
            match res {
                Ok(value) => old(self)@.holds(1) && value == le_signed(old(self)@.next(1))
                    && final(self)@ == old(self)@.advanced(1),
                Err(e) => !old(self)@.holds(1) && e == LayoutError::UnexpectedEnd
                    && final(self)@ == old(self)@,
            },
    {
        let start: usize = self.claim(1)?;
        proof {
            lemma_radix_power_values();
        }
        let raw: u64 = decode_le(self.data.as_slice(), start, 1);
        if raw >= 0x80 {
            Ok((raw as i16 - 0x100) as i8)
        } else {
            Ok(raw as i8)
        }
    }

    /// Reads an unsigned 32-bit integer.
    pub fn read_u32(&mut self) -> (res: Result<u32, LayoutError>)
        ensures
            match res {
                Ok(value) => old(self)@.holds(4) && value == le_value(old(self)@.next(4))
                    && final(self)@ == old(self)@.advanced(4),
                Err(e) => !old(self)@.holds(4) && e == LayoutError::UnexpectedEnd
                    && final(self)@ == old(self)@,
            },
    {
        let start: usize = self.claim(4)?;
        proof {
            lemma_radix_power_values();
        }
        Ok(decode_le(self.data.as_slice(), start, 4) as u32)
    }

    /// Reads a signed 32-bit integer.
    pub fn read_i32(&mut self) -> (res: Result<i32, LayoutError>)
        ensures
            match res {
                Ok(value) => old(self)@.holds(4) && value == le_signed(old(self)@.next(4))
                    && final(self)@ == old(self)@.advanced(4),
                Err(e) => !old(self)@.holds(4) && e == LayoutError::UnexpectedEnd
                    && final(self)@ == old(self)@,
            },
    {
        let start: usize = self.claim(4)?;
        proof {
            lemma_radix_power_values();
        }
        let raw: u64 = decode_le(self.data.as_slice(), start, 4);
        if raw >= 0x8000_0000 {
            Ok((raw as i64 - 0x1_0000_0000) as i32)
        } else {
            Ok(raw as i32)
        }
    }

    /// Reads an unsigned 64-bit integer.
    pub fn read_u64(&mut self) -> (res: Result<u64, LayoutError>)
        ensures
            match res {
                Ok(value) => old(self)@.holds(8) && value == le_value(old(self)@.next(8))
                    && final(self)@ == old(self)@.advanced(8),
                Err(e) => !old(self)@.holds(8) && e == LayoutError::UnexpectedEnd
                    && final(self)@ == old(self)@,
            },
    {
        let start: usize = self.claim(8)?;
        Ok(decode_le(self.data.as_slice(), start, 8))
    }

    /// Reads a signed 64-bit integer.
    pub fn read_i64(&mut self) -> (res: Result<i64, LayoutError>)
        ensures
            match res {
                Ok(value) => old(self)@.holds(8) && value == le_signed(old(self)@.next(8))
                    && final(self)@ == old(self)@.advanced(8),
                Err(e) => !old(self)@.holds(8) && e == LayoutError::UnexpectedEnd
                    && final(self)@ == old(self)@,
            },
    {
        let start: usize = self.claim(8)?;
        proof {
            lemma_radix_power_values();
        }
        let raw: u64 = decode_le(self.data.as_slice(), start, 8);
        if raw >= 0x8000_0000_0000_0000 {
            Ok((raw - 0x8000_0000_0000_0000) as i64 + i64::MIN)
        } else {
            Ok(raw as i64)
        }
    }

    /// Reads `N` bytes as they stand.
    pub fn read_array<const N: usize>(&mut self) -> (res: Result<[u8; N], LayoutError>)
        ensures
            match res {
                Ok(value) => old(self)@.holds(N as nat) && value@ == old(self)@.next(N as nat)
                    && final(self)@ == old(self)@.advanced(N as nat),
                Err(e) => !old(self)@.holds(N as nat) && e == LayoutError::UnexpectedEnd
                    && final(self)@ == old(self)@,
            },
    {
        let start: usize = self.claim(N)?;
        let mut value: [u8; N] = [0u8; N];
        let mut i: usize = 0;
        while i < N
            invariant
                i <= N,
                start + N <= self.data.len(),
                forall|j: int| 0 <= j < i ==> value@[j] == self.data@[start + j],
            decreases N - i,
        {
            value[i] = self.data[start + i];
            i = i + 1;
        }
        Ok(value)
    }

    /// Reads `count` bytes as they stand.
    pub fn read_bytes(&mut self, count: usize) -> (res: Result<Vec<u8>, LayoutError>)
        ensures
            match res {
                Ok(value) => old(self)@.holds(count as nat) && value@ == old(self)@.next(
                    count as nat,
                ) && final(self)@ == old(self)@.advanced(count as nat),
                Err(e) => !old(self)@.holds(count as nat) && e == LayoutError::UnexpectedEnd
                    && final(self)@ == old(self)@,
            },
    {
        let start: usize = self.claim(count)?;
        assert(start + count <= self.data.len());
        let mut value: Vec<u8> = Vec::new();
        value.extend_from_slice(&self.data.as_slice()[start..start + count]);
        Ok(value)
    }
}

} // verus!
