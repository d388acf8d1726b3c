//! Fixed-size records of the archive file format: the file header and the entries of
//! the region map.
use vstd::prelude::*;
use crate::bytes;

pub mod flags;

verus! {

/// Version of the format.
pub const VERSION: u8 = 0x03;

/// Length of a file header.
pub const HEADER_LEN: usize = 40;

/// Length of a region map entry.
pub const ENTRY_LEN: usize = 6;

/// Why a record could not be read.
#[derive(Clone, Copy, Debug, PartialEq, Eq, Structural)]
pub enum FormatError {
    /// The input ends before the record does.
    Truncated,
    /// The file is of another kind.
    BadMagic,
}

/// "CPGC".
pub open spec fn magic() -> Seq<u8> {
    seq![67u8, 80, 71, 67]
}

/// File header: exactly 40 bytes.
#[derive(Debug, Clone, Copy, PartialEq, Eq, Structural)]
pub struct FileHeader {
    pub version: u8,
    pub level: u8,
    /// 0 = disabled, 5 = 32, 6 = 64, 7 = 128, 8 = 256.
    pub lstm_hidden_log2: u8,
    pub flags: u8,
    pub uncompressed_size: u64,
    pub compressed_size: u64,
    pub crc32: u32,
    pub xxhash3_lo: u32,
    pub region_map_len: u32,
    pub file_table_offset: u32,
}

impl FileHeader {
    /// The header as it stands in a file.
    pub open spec fn encoded(self) -> Seq<u8> {
        magic() + seq![self.version, self.level, self.lstm_hidden_log2, self.flags] + bytes::le(
            self.uncompressed_size as nat,
            8,
        ) + bytes::le(self.compressed_size as nat, 8) + bytes::le(self.crc32 as nat, 4) + bytes::le(
            self.xxhash3_lo as nat,
            4,
        ) + bytes::le(self.region_map_len as nat, 4) + bytes::le(self.file_table_offset as nat, 4)
    }

    /// The header at the front of `b`.
    pub open spec fn decoded(b: Seq<u8>) -> Result<FileHeader, FormatError> {
        if b.len() < 4 {
            Err(FormatError::Truncated)
        } else if b.take(4) != magic() {
            Err(FormatError::BadMagic)
        } else if b.len() < 40 {
            Err(FormatError::Truncated)
        } else {
            Ok(
                FileHeader {
                    version: b[4],
                    level: b[5],
                    lstm_hidden_log2: b[6],
                    flags: b[7],
                    uncompressed_size: bytes::field(b, 8, 8) as u64,
                    compressed_size: bytes::field(b, 16, 8) as u64,
                    crc32: bytes::field(b, 24, 4) as u32,
                    xxhash3_lo: bytes::field(b, 28, 4) as u32,
                    region_map_len: bytes::field(b, 32, 4) as u32,
                    file_table_offset: bytes::field(b, 36, 4) as u32,
                },
            )
        }
    }

    /// Where the fields of a header stand.
    pub proof fn header_layout(self)
        ensures
            ({
                let b = self.encoded();
                &&& b.len() == 40
                &&& b[0] == 67 && b[1] == 80 && b[2] == 71 && b[3] == 67
                &&& b[4] == self.version && b[5] == self.level
                &&& b[6] == self.lstm_hidden_log2 && b[7] == self.flags
                &&& b.subrange(8, 16) == bytes::le(self.uncompressed_size as nat, 8)
                &&& b.subrange(16, 24) == bytes::le(self.compressed_size as nat, 8)
                &&& b.subrange(24, 28) == bytes::le(self.crc32 as nat, 4)
                &&& b.subrange(28, 32) == bytes::le(self.xxhash3_lo as nat, 4)
                &&& b.subrange(32, 36) == bytes::le(self.region_map_len as nat, 4)
                &&& b.subrange(36, 40) == bytes::le(self.file_table_offset as nat, 4)
            }),
    {
        let b = self.encoded();
        bytes::lemma_widths();
        bytes::le_round_trip(self.uncompressed_size as nat, 8);
        bytes::le_round_trip(self.compressed_size as nat, 8);
        bytes::le_round_trip(self.crc32 as nat, 4);
        bytes::le_round_trip(self.xxhash3_lo as nat, 4);
        bytes::le_round_trip(self.region_map_len as nat, 4);
        bytes::le_round_trip(self.file_table_offset as nat, 4);
        assert(b.subrange(8, 16) =~= bytes::le(self.uncompressed_size as nat, 8));
        assert(b.subrange(16, 24) =~= bytes::le(self.compressed_size as nat, 8));
        assert(b.subrange(24, 28) =~= bytes::le(self.crc32 as nat, 4));
        assert(b.subrange(28, 32) =~= bytes::le(self.xxhash3_lo as nat, 4));
        assert(b.subrange(32, 36) =~= bytes::le(self.region_map_len as nat, 4));
        assert(b.subrange(36, 40) =~= bytes::le(self.file_table_offset as nat, 4));
    }

    /// A header takes 40 bytes and is read back as written, whatever follows it.
    pub proof fn header_round_trip(self, rest: Seq<u8>)
        ensures
            self.encoded().len() == 40,
            FileHeader::decoded(self.encoded() + rest) == Ok::<FileHeader, FormatError>(self),
    {
        let b = self.encoded() + rest;
        bytes::lemma_widths();
        bytes::le_round_trip(self.uncompressed_size as nat, 8);
        bytes::le_round_trip(self.compressed_size as nat, 8);
        bytes::le_round_trip(self.crc32 as nat, 4);
        bytes::le_round_trip(self.xxhash3_lo as nat, 4);
        bytes::le_round_trip(self.region_map_len as nat, 4);
        bytes::le_round_trip(self.file_table_offset as nat, 4);
        assert(b.take(4) =~= magic());
        assert(b.subrange(8, 16) =~= bytes::le(self.uncompressed_size as nat, 8));
        assert(b.subrange(16, 24) =~= bytes::le(self.compressed_size as nat, 8));
        assert(b.subrange(24, 28) =~= bytes::le(self.crc32 as nat, 4));
        assert(b.subrange(28, 32) =~= bytes::le(self.xxhash3_lo as nat, 4));
        assert(b.subrange(32, 36) =~= bytes::le(self.region_map_len as nat, 4));
        assert(b.subrange(36, 40) =~= bytes::le(self.file_table_offset as nat, 4));
    }

    /// Append the header to `out`.
    pub fn write(&self, out: &mut Vec<u8>)
        ensures
            final(out)@ == old(out)@ + self.encoded(),
    {
        let ghost was = out@;
        out.push(67);
        out.push(80);
        out.push(71);
        out.push(67);
        out.push(self.version);
        out.push(self.level);
        out.push(self.lstm_hidden_log2);
        out.push(self.flags);
        bytes::push_le(out, self.uncompressed_size, 8);
        bytes::push_le(out, self.compressed_size, 8);
        bytes::push_le(out, self.crc32 as u64, 4);
        bytes::push_le(out, self.xxhash3_lo as u64, 4);
        bytes::push_le(out, self.region_map_len as u64, 4);
        bytes::push_le(out, self.file_table_offset as u64, 4);
        assert(out@ =~= was + self.encoded());
    }

    /// Read the header at the front of `b`.
    pub fn read(b: &[u8]) -> (r: Result<FileHeader, FormatError>)
        ensures
            r == FileHeader::decoded(b@),
    {
        if b.len() < 4 {
            return Err(FormatError::Truncated);
        }
        let m = [67u8, 80, 71, 67];
        assert(m@ =~= magic());
        assert(b@.subrange(0, 4) =~= b@.take(4));
        if !bytes::same_bytes(&b[0..4], &m) {
            return Err(FormatError::BadMagic);
        }
        if b.len() < HEADER_LEN {
            return Err(FormatError::Truncated);
        }
        proof {
            bytes::lemma_widths();
        }
        Ok(
            FileHeader {
                version: b[4],
                level: b[5],
                lstm_hidden_log2: b[6],
                flags: b[7],
                uncompressed_size: bytes::read_le(b, 8, 8),
                compressed_size: bytes::read_le(b, 16, 8),
                crc32: bytes::read_le(b, 24, 4) as u32,
                xxhash3_lo: bytes::read_le(b, 28, 4) as u32,
                region_map_len: bytes::read_le(b, 32, 4) as u32,
                file_table_offset: bytes::read_le(b, 36, 4) as u32,
            },
        )
    }
}

/// Region map entry: 6 bytes each.
#[derive(Debug, Clone, Copy, PartialEq, Eq, Structural)]
pub struct RegionEntry {
    pub offset: u32,
    pub preproc: u8,
    pub _pad: u8,
}

impl RegionEntry {
    /// The entry as it stands in a file.
    pub open spec fn encoded(self) -> Seq<u8> {
        bytes::le(self.offset as nat, 4) + seq![self.preproc, self._pad]
    }

    /// The entry at the front of `b`.
    pub open spec fn decoded(b: Seq<u8>) -> Result<RegionEntry, FormatError> {
        if b.len() < 6 {
            Err(FormatError::Truncated)
        } else {
            Ok(RegionEntry { offset: bytes::field(b, 0, 4) as u32, preproc: b[4], _pad: b[5] })
        }
    }

    /// Where the fields of an entry stand.
    pub proof fn entry_layout(self)
        ensures
            ({
                let b = self.encoded();
                &&& b.len() == 6
                &&& b.take(4) == bytes::le(self.offset as nat, 4)
                &&& b[4] == self.preproc && b[5] == self._pad
            }),
    {
        bytes::lemma_widths();
        bytes::le_round_trip(self.offset as nat, 4);
        assert(self.encoded().take(4) =~= bytes::le(self.offset as nat, 4));
    }

    /// An entry takes 6 bytes and is read back as written, whatever follows it.
    pub proof fn entry_round_trip(self, rest: Seq<u8>)
        ensures
            self.encoded().len() == 6,
            RegionEntry::decoded(self.encoded() + rest) == Ok::<RegionEntry, FormatError>(self),
    {
        let b = self.encoded() + rest;
        bytes::lemma_widths();
        bytes::le_round_trip(self.offset as nat, 4);
        assert(b.subrange(0, 4) =~= bytes::le(self.offset as nat, 4));
    }

    /// Append the entry to `out`.
    pub fn write(&self, out: &mut Vec<u8>)
        ensures
            final(out)@ == old(out)@ + self.encoded(),
    {
        let ghost was = out@;
        bytes::push_le(out, self.offset as u64, 4);
        out.push(self.preproc);
        out.push(self._pad);
        assert(out@ =~= was + self.encoded());
    }

    /// Read the entry at the front of `b`.
    pub fn read(b: &[u8]) -> (r: Result<RegionEntry, FormatError>)
        ensures
            r == RegionEntry::decoded(b@),
    {
        if b.len() < ENTRY_LEN {
            return Err(FormatError::Truncated);
        }
        proof {
            bytes::lemma_widths();
        }
        Ok(RegionEntry { offset: bytes::read_le(b, 0, 4) as u32, preproc: b[4], _pad: b[5] })
    }
}

} // verus!
