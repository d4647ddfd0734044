//! The backing store: a flat array of little-endian 8-byte records, the record
//! of key `k` at byte offset `8 * k`.

use crate::error::IoError;
use std::collections::HashMap;
use vstd::bytes::{spec_u64_from_le_bytes, spec_u64_to_le_bytes, u64_from_le_bytes, u64_to_le_bytes};
use vstd::prelude::*;
use vstd::slice::slice_subrange;

verus! {

/// The number of bytes in one record.
pub const RECORD_SIZE: u64 = 8;

/// The largest run of zero bytes that `write_zeros` appends in one piece.
pub const MAX_BUF_SIZE: u64 = 4096;

/// The byte offset of the record of `key`.
pub open spec fn offset_of(key: u32) -> int {
    key as int * 8
}

/// `n` zero bytes.
pub open spec fn zeros(n: nat) -> Seq<u8> {
    Seq::new(n, |i: int| 0u8)
}

/// The file `file` after `bytes` were written at `pos`: a file that ended
/// before `pos` is first filled up to there with zero bytes.
pub open spec fn patched(file: Seq<u8>, pos: int, bytes: Seq<u8>) -> Seq<u8> {
    let len = if file.len() >= pos + bytes.len() {
        file.len() as int
    } else {
        pos + bytes.len()
    };
    Seq::new(
        len as nat,
        |i: int|
            if pos <= i < pos + bytes.len() {
                bytes[i - pos]
            } else if i < file.len() {
                file[i]
            } else {
                0u8
            },
    )
}

/// The value that the file `file` holds for `key`: the record at the key's
/// offset, and zero where the file ends before the record does.
pub open spec fn record_in(file: Seq<u8>, key: u32) -> u64 {
    if offset_of(key) + 8 <= file.len() {
        spec_u64_from_le_bytes(file.subrange(offset_of(key), offset_of(key) + 8))
    } else {
        0
    }
}

/// A record of zero bytes holds the value zero.
pub proof fn lemma_zero_record()
    ensures
        spec_u64_to_le_bytes(0) == zeros(8),
        spec_u64_from_le_bytes(zeros(8)) == 0,
{
    vstd::bytes::lemma_auto_spec_u64_to_from_le_bytes();
    vstd::bytes::spec_u64_to_le_bytes_to_open(0);
    assert(0u64 & 0xff == 0 && (0u64 >> 8) & 0xff == 0 && (0u64 >> 16) & 0xff == 0 && (0u64 >> 24)
        & 0xff == 0 && (0u64 >> 32) & 0xff == 0 && (0u64 >> 40) & 0xff == 0 && (0u64 >> 48) & 0xff
        == 0 && (0u64 >> 56) & 0xff == 0) by (bit_vector);
    assert(vstd::bytes::spec_u64_to_le_bytes_open(0) =~= zeros(8));
}

/// A file of zero bytes holds the value zero for every key.
pub proof fn lemma_blank_file(size: nat, key: u32)
    ensures
        record_in(zeros(size), key) == 0,
{
    if offset_of(key) + 8 <= size {
        lemma_zero_record();
        assert(zeros(size).subrange(offset_of(key), offset_of(key) + 8) =~= zeros(8));
    }
}

/// The byte offset of the record of `key`.
pub fn record_offset(key: u32) -> (pos: u64)
    ensures
        pos == offset_of(key),
{
    let wide: u64 = key.into();
    wide * RECORD_SIZE
}

/// Appends `size` zero bytes to `writer`, at most `MAX_BUF_SIZE` at a time.
pub fn write_zeros(writer: &mut Vec<u8>, size: u64)
    ensures
        final(writer)@ == old(writer)@ + zeros(size as nat),
{
    let mut buf: Vec<u8> = Vec::new();
    let mut filled: u64 = 0;
    while filled < MAX_BUF_SIZE
        invariant
            filled <= MAX_BUF_SIZE,
            buf@ == zeros(filled as nat),
        decreases MAX_BUF_SIZE - filled,
    {
        buf.push(0u8);
        filled += 1;
        proof {
            assert(buf@ =~= zeros(filled as nat));
        }
    }
    let mut left: u64 = size;
    proof {
        assert(writer@ =~= old(writer)@ + zeros(0));
    }
    while left > 0
        invariant
            left <= size,
            buf@ == zeros(MAX_BUF_SIZE as nat),
            writer@ == old(writer)@ + zeros((size - left) as nat),
        decreases left,
    {
        let buf_size: u64 = if left < MAX_BUF_SIZE {
            left
        } else {
            MAX_BUF_SIZE
        };
        let ghost before = writer@;
        let chunk = slice_subrange(buf.as_slice(), 0, buf_size as usize);
        writer.extend_from_slice(chunk);
        left -= buf_size;
        proof {
            assert(writer@ =~= old(writer)@ + zeros((size - left) as nat));
        }
    }
}

/// Reads one record from the front of `reader`. Fails with `UnexpectedEof`
/// exactly when `reader` holds fewer bytes than a record.
pub fn read(reader: &[u8]) -> (r: Result<u64, IoError>)
    ensures
        reader@.len() >= 8 ==> r == Ok::<u64, IoError>(
            spec_u64_from_le_bytes(reader@.subrange(0, 8)),
        ),
        reader@.len() < 8 ==> r == Err::<u64, IoError>(IoError::UnexpectedEof),
{
    if reader.len() < 8 {
        return Err(IoError::UnexpectedEof);
    }
    Ok(u64_from_le_bytes(slice_subrange(reader, 0, 8)))
}

/// Appends the record `src` to `writer`.
pub fn write(writer: &mut Vec<u8>, src: u64)
    ensures
        final(writer)@ == old(writer)@ + spec_u64_to_le_bytes(src),
{
    let bytes = u64_to_le_bytes(src);
    let ghost before = writer@;
    writer.extend_from_slice(bytes.as_slice());
    proof {
        vstd::bytes::lemma_auto_spec_u64_to_from_le_bytes();
        assert(writer@ =~= before + spec_u64_to_le_bytes(src));
    }
}

/// Reads the record that starts at byte `pos` of `file`. Fails with
/// `UnexpectedEof` exactly when the file ends before the record does.
pub fn read_at(file: &[u8], pos: u64) -> (r: Result<u64, IoError>)
    ensures
        pos + 8 <= file@.len() ==> r == Ok::<u64, IoError>(
            spec_u64_from_le_bytes(file@.subrange(pos as int, pos + 8)),
        ),
        pos + 8 > file@.len() ==> r == Err::<u64, IoError>(IoError::UnexpectedEof),
{
    let len = file.len();
    if len < 8 || pos > (len - 8) as u64 {
        return Err(IoError::UnexpectedEof);
    }
    let start = pos as usize;
    let rest = slice_subrange(file, start, len);
    proof {
        assert(rest@.subrange(0, 8) =~= file@.subrange(pos as int, pos + 8));
    }
    read(rest)
}

/// Writes the record `src` at byte `pos` of `file`, over what is there, after
/// filling a file that ends before `pos` up to there with zero bytes. Fails with
/// `InvalidInput`, and leaves the file alone, exactly when the end of the record
/// cannot be addressed.
pub fn write_at(file: &mut Vec<u8>, pos: u64, src: u64) -> (r: Result<(), IoError>)
    ensures
        pos + 8 <= usize::MAX ==> r is Ok && final(file)@ == patched(
            old(file)@,
            pos as int,
            spec_u64_to_le_bytes(src),
        ),
        pos + 8 > usize::MAX ==> r == Err::<(), IoError>(IoError::InvalidInput) && final(file)@ == old(
            file,
        )@,
{
    if pos > (usize::MAX - 8) as u64 {
        return Err(IoError::InvalidInput);
    }
    let start = pos as usize;
    if file.len() < start {
        let gap = start - file.len();
        write_zeros(file, gap as u64);
    }
    let bytes = u64_to_le_bytes(src);
    proof {
        vstd::bytes::lemma_auto_spec_u64_to_from_le_bytes();
    }
    let ghost filled = file@;
    let mut n: usize = 0;
    while n < 8
        invariant
            n <= 8,
            start + 8 <= usize::MAX,
            bytes@.len() == 8,
            filled.len() >= start,
            file@.len() == (if filled.len() >= start + n {
                filled.len() as int
            } else {
                start + n
            }),
            forall|i: int|
                0 <= i < file@.len() ==> #[trigger] file@[i] == (if start <= i < start + n {
                    bytes@[i - start]
                } else {
                    filled[i]
                }),
        decreases 8 - n,
    {
        if start + n < file.len() {
            file.set(start + n, bytes[n]);
        } else {
            file.push(bytes[n]);
        }
        n += 1;
    }
    proof {
        assert(file@ =~= patched(old(file)@, pos as int, spec_u64_to_le_bytes(src)));
    }
    Ok(())
}

/// A store of records by key.
pub trait Storage {
    /// The store is consistent.
    spec fn wf(&self) -> bool;

    /// The value that the store holds for `key`.
    spec fn value_at(&self, key: u32) -> u64;

    /// The store is of a kind whose transfers never fail.
    spec fn unfailing(&self) -> bool;

    /// Reads the record of `key`. No record changes, whatever the outcome.
    fn read(&mut self, key: u32) -> (r: Result<u64, IoError>)
        requires
            old(self).wf(),
        ensures
            final(self).wf(),
            forall|k: u32| #[trigger] final(self).value_at(k) == old(self).value_at(k),
            final(self).unfailing() == old(self).unfailing(),
            r matches Ok(value) ==> value == old(self).value_at(key),
            old(self).unfailing() ==> r is Ok,
    ;

    /// Writes `value` as the record of `key`. No other record changes, whatever
    /// the outcome.
    fn write(&mut self, key: u32, value: u64) -> (r: Result<(), IoError>)
        requires
            old(self).wf(),
        ensures
            final(self).wf(),
            forall|k: u32| k != key ==> #[trigger] final(self).value_at(k) == old(self).value_at(k),
            final(self).unfailing() == old(self).unfailing(),
            r is Ok ==> final(self).value_at(key) == value,
            old(self).unfailing() ==> r is Ok,
    ;

    /// Makes what was written durable. No record changes.
    fn sync(&mut self) -> (r: Result<(), IoError>)
        requires
            old(self).wf(),
        ensures
            final(self).wf(),
            forall|k: u32| #[trigger] final(self).value_at(k) == old(self).value_at(k),
            final(self).unfailing() == old(self).unfailing(),
            old(self).unfailing() ==> r is Ok,
    ;
}

/// A store in memory, for use in place of a file. It never fails.
pub struct StorageMock {
    data: HashMap<u32, u64>,
}

impl StorageMock {
    /// The records that have been read or written so far.
    pub closed spec fn records(&self) -> Map<u32, u64> {
        self.data@
    }

    /// A store in which every record is zero.
    pub fn new() -> (storage: StorageMock)
        ensures
            storage.records() == Map::<u32, u64>::empty(),
    {
        StorageMock { data: HashMap::new() }
    }
}

impl Storage for StorageMock {
    open spec fn wf(&self) -> bool {
        true
    }

    /// The record of `key`, and zero where none was read or written.
    open spec fn value_at(&self, key: u32) -> u64 {
        if self.records().contains_key(key) {
            self.records()[key]
        } else {
            0
        }
    }

    open spec fn unfailing(&self) -> bool {
        true
    }

    /// Reads the record of `key`, which is zero where none was written, and
    /// notes the key among the records.
    fn read(&mut self, key: u32) -> (r: Result<u64, IoError>)
        ensures
            r == Ok::<u64, IoError>(old(self).value_at(key)),
            final(self).records() == old(self).records().insert(key, old(self).value_at(key)),
    {
        let value = *self.data.entry(key).or_insert(0);
        Ok(value)
    }

    /// Sets the record of `key` to `value`.
    fn write(&mut self, key: u32, value: u64) -> (r: Result<(), IoError>)
        ensures
            r is Ok,
            final(self).records() == old(self).records().insert(key, value),
    {
        self.data.insert(key, value);
        Ok(())
    }

    /// Does nothing: there is nothing to make durable.
    fn sync(&mut self) -> (r: Result<(), IoError>)
        ensures
            r is Ok,
            final(self).records() == old(self).records(),
    {
        Ok(())
    }
}

/// A file of records held in memory, laid out as on disk. A read past its end
/// fails as a read past the end of a file does; a write past its end extends it.
pub struct StorageImage {
    file: Vec<u8>,
}

impl StorageImage {
    /// The bytes of the file.
    pub closed spec fn bytes(&self) -> Seq<u8> {
        self.file@
    }

    /// A file of `n_data` records, all zero.
    pub fn new(n_data: u32) -> (storage: StorageImage)
        ensures
            storage.wf(),
            storage.bytes() == zeros(n_data as nat * 8),
            forall|key: u32| #[trigger] storage.value_at(key) == 0,
    {
        let mut file: Vec<u8> = Vec::new();
        write_zeros(&mut file, record_offset(n_data));
        let storage = StorageImage { file };
        proof {
            assert(storage.bytes() =~= zeros(n_data as nat * 8));
            assert forall|key: u32| #[trigger] storage.value_at(key) == 0 by {
                lemma_blank_file(n_data as nat * 8, key);
            }
        }
        storage
    }

    /// The bytes of the file.
    pub fn as_bytes(&self) -> (bytes: &[u8])
        ensures
            bytes@ == self.bytes(),
    {
        self.file.as_slice()
    }
}

/// A write of a whole record into a file of whole records changes the record
/// of its key and no other.
proof fn lemma_patched_record(file: Seq<u8>, key: u32, value: u64, other: u32)
    requires
        file.len() % 8 == 0,
    ensures
        patched(file, offset_of(key), spec_u64_to_le_bytes(value)).len() % 8 == 0,
        record_in(patched(file, offset_of(key), spec_u64_to_le_bytes(value)), other) == (if other
            == key {
            value
        } else {
            record_in(file, other)
        }),
{
    vstd::bytes::lemma_auto_spec_u64_to_from_le_bytes();
    let bytes = spec_u64_to_le_bytes(value);
    let after = patched(file, offset_of(key), bytes);
    let at = offset_of(other);
    if other == key {
        assert(after.subrange(at, at + 8) =~= bytes);
    } else if at + 8 <= file.len() {
        assert(after.subrange(at, at + 8) =~= file.subrange(at, at + 8));
    } else if at + 8 <= after.len() {
        lemma_zero_record();
        assert(after.subrange(at, at + 8) =~= zeros(8));
    }
}

impl Storage for StorageImage {
    /// The file is made of whole records.
    open spec fn wf(&self) -> bool {
        self.bytes().len() % 8 == 0
    }

    /// The record at the offset of `key`, and zero past the end of the file.
    open spec fn value_at(&self, key: u32) -> u64 {
        record_in(self.bytes(), key)
    }

    open spec fn unfailing(&self) -> bool {
        false
    }

    /// Reads the record at the offset of `key`. Fails with `UnexpectedEof`
    /// exactly when the file ends before the record does.
    fn read(&mut self, key: u32) -> (r: Result<u64, IoError>)
        ensures
            final(self).bytes() == old(self).bytes(),
            offset_of(key) + 8 <= old(self).bytes().len() ==> r == Ok::<u64, IoError>(
                old(self).value_at(key),
            ),
            offset_of(key) + 8 > old(self).bytes().len() ==> r == Err::<u64, IoError>(
                IoError::UnexpectedEof,
            ),
    {
        read_at(self.file.as_slice(), record_offset(key))
    }

    /// Writes `value` at the offset of `key`, after extending a shorter file
    /// with zero records up to there. Fails with `InvalidInput`, and changes
    /// nothing, exactly when the end of the record cannot be addressed.
    fn write(&mut self, key: u32, value: u64) -> (r: Result<(), IoError>)
        ensures
            offset_of(key) + 8 <= usize::MAX ==> r is Ok && final(self).bytes() == patched(
                old(self).bytes(),
                offset_of(key),
                spec_u64_to_le_bytes(value),
            ),
            offset_of(key) + 8 > usize::MAX ==> r == Err::<(), IoError>(IoError::InvalidInput)
                && final(self).bytes() == old(self).bytes(),
    {
        let ghost before = self.file@;
        proof {
            assert forall|k: u32|
                #[trigger] record_in(patched(before, offset_of(key), spec_u64_to_le_bytes(value)), k)
                    == (if k == key {
                    value
                } else {
                    record_in(before, k)
                }) by {
                lemma_patched_record(before, key, value, k);
            }
            lemma_patched_record(before, key, value, key);
        }
        write_at(&mut self.file, record_offset(key), value)
    }

    /// Does nothing: there is nothing to make durable.
    fn sync(&mut self) -> (r: Result<(), IoError>)
        ensures
            r is Ok,
            final(self).bytes() == old(self).bytes(),
    {
        Ok(())
    }
}

} // verus!
