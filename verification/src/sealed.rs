//! Sealed-volume integrity metadata and file-content hash verification.
//!
//! A sealed volume, the macOS Signed System Volume, carries integrity metadata
//! (`integrity_meta_phys_t`) and per-file content hashes. Verifying a file
//! against its stored hash detects tampering of the system volume.

use std::collections::BTreeMap;

use sha2::Digest;
use vstd::prelude::*;

use crate::bytes;
use crate::catalog;
use crate::catalog::{Catalog, CatalogRecord, J_KEY_SIZE, JObjType, RecordView, Selection};
use crate::error;
use crate::error::ApfsError;
use crate::extent;
use crate::extent::{File, FileExtent, FileView};
use crate::fext;
use crate::fext::{FextRecord, FextTree};
use crate::io::{Device, Reader};
use crate::object::OBJ_PHYS_SIZE;
use crate::sort;
use crate::tree;

verus! {

/// Largest hash this parser handles.
pub const APFS_HASH_MAX_SIZE: usize = 64;

/// `info_and_lba` type for a file-data-hash record.
pub const APFS_FILE_INFO_DATA_HASH: u64 = 1;

/// The number of LBA values that `info_and_lba` can hold beside its type.
pub const J_FILE_INFO_LBA_RANGE: u64 = 0x0100_0000_0000_0000;

/// Size of the fixed `integrity_meta_phys_t` fields (before the root hash).
pub const INTEGRITY_META_FIXED_SIZE: usize = OBJ_PHYS_SIZE + 96;

/// Size of the fixed part of a `j_file_data_hash_val_t`.
pub const FILE_DATA_HASH_HEADER_SIZE: usize = 3;

/// Integrity-metadata flags (`integrity_meta_flags`).
#[derive(Debug, Clone, Copy, PartialEq, Eq, Structural)]
pub struct IntegrityMetaFlags(pub u32);

impl IntegrityMetaFlags {
    /// The volume's seal has been broken by a modification.
    pub const SEAL_BROKEN: u32 = 0x0000_0001;

    /// The raw bits of the set.
    #[must_use]
    pub fn bits(self) -> (bits: u32)
        ensures
            bits == self.0,
    {
        self.0
    }

    /// The set with the given bits, known or not.
    #[must_use]
    pub fn from_bits_retain(bits: u32) -> (flags: IntegrityMetaFlags)
        ensures
            flags == IntegrityMetaFlags(bits),
    {
        IntegrityMetaFlags(bits)
    }

    /// Whether every bit of `flag` is set.
    pub open spec fn has(self, flag: u32) -> bool {
        self.0 & flag == flag
    }

    /// Whether every bit of `flag` is set.
    #[must_use]
    pub fn contains(self, flag: u32) -> (set: bool)
        ensures
            set == self.has(flag),
    {
        self.0 & flag == flag
    }
}

/// The SHA-256 digest of `data`.
pub uninterp spec fn sha256(data: Seq<u8>) -> Seq<u8>;

/// Computes the SHA-256 digest of `data` with `sha2::Sha256::digest`: a function of
/// the data, of 32 bytes.
#[verifier::external_body]
fn sha256_digest(data: &[u8]) -> (digest: Vec<u8>)
    ensures
        digest@ == sha256(data@),
        digest@.len() == 32,
{
    sha2::Sha256::digest(data).to_vec()
}

/// The SHA-512/256 digest of `data`.
pub uninterp spec fn sha512_256(data: Seq<u8>) -> Seq<u8>;

/// Computes the SHA-512/256 digest of `data` with `sha2::Sha512_256::digest`: a function of
/// the data, of 32 bytes.
#[verifier::external_body]
fn sha512_256_digest(data: &[u8]) -> (digest: Vec<u8>)
    ensures
        digest@ == sha512_256(data@),
        digest@.len() == 32,
{
    sha2::Sha512_256::digest(data).to_vec()
}

/// The SHA-384 digest of `data`.
pub uninterp spec fn sha384(data: Seq<u8>) -> Seq<u8>;

/// Computes the SHA-384 digest of `data` with `sha2::Sha384::digest`: a function of
/// the data, of 48 bytes.
#[verifier::external_body]
fn sha384_digest(data: &[u8]) -> (digest: Vec<u8>)
    ensures
        digest@ == sha384(data@),
        digest@.len() == 48,
{
    sha2::Sha384::digest(data).to_vec()
}

/// The SHA-512 digest of `data`.
pub uninterp spec fn sha512(data: Seq<u8>) -> Seq<u8>;

/// Computes the SHA-512 digest of `data` with `sha2::Sha512::digest`: a function of
/// the data, of 64 bytes.
#[verifier::external_body]
fn sha512_digest(data: &[u8]) -> (digest: Vec<u8>)
    ensures
        digest@ == sha512(data@),
        digest@.len() == 64,
{
    sha2::Sha512::digest(data).to_vec()
}

/// A hash algorithm used by a sealed volume (`apfs_hash_type_t`).
#[derive(Debug, Clone, Copy, PartialEq, Eq, Structural)]
pub enum ApfsHashType {
    /// SHA-256.
    Sha256,
    /// SHA-512/256.
    Sha512_256,
    /// SHA-384.
    Sha384,
    /// SHA-512.
    Sha512,
    /// A hash-type value this parser does not recognize.
    Unknown(u32),
}

/// The algorithm with the given value.
pub open spec fn hash_type_of(value: u32) -> ApfsHashType {
    if value == 1 {
        ApfsHashType::Sha256
    } else if value == 2 {
        ApfsHashType::Sha512_256
    } else if value == 3 {
        ApfsHashType::Sha384
    } else if value == 4 {
        ApfsHashType::Sha512
    } else {
        ApfsHashType::Unknown(value)
    }
}

/// The digest size of an algorithm.
pub open spec fn hash_size_of(hash_type: ApfsHashType) -> Option<usize> {
    match hash_type {
        ApfsHashType::Sha256 => Some(32),
        ApfsHashType::Sha512_256 => Some(32),
        ApfsHashType::Sha384 => Some(48),
        ApfsHashType::Sha512 => Some(64),
        ApfsHashType::Unknown(_) => None,
    }
}

/// The digest of `data` under an algorithm.
pub open spec fn digest_of(hash_type: ApfsHashType, data: Seq<u8>) -> Result<Seq<u8>, ApfsError> {
    match hash_type {
        ApfsHashType::Sha256 => Ok(sha256(data)),
        ApfsHashType::Sha512_256 => Ok(sha512_256(data)),
        ApfsHashType::Sha384 => Ok(sha384(data)),
        ApfsHashType::Sha512 => Ok(sha512(data)),
        ApfsHashType::Unknown(_) => Err(ApfsError::Unsupported("unrecognized integrity hash type")),
    }
}

/// Whether the digest of `data` under an algorithm is `expected`.
pub open spec fn verified_as(
    hash_type: ApfsHashType,
    data: Seq<u8>,
    expected: Seq<u8>,
) -> Result<bool, ApfsError> {
    match digest_of(hash_type, data) {
        Err(error) => Err(error),
        Ok(digest) => Ok(digest == expected),
    }
}

impl ApfsHashType {
    /// Decodes an `apfs_hash_type_t` value.
    #[must_use]
    pub fn from_value(value: u32) -> (hash_type: ApfsHashType)
        ensures
            hash_type == hash_type_of(value),
    {
        match value {
            1 => ApfsHashType::Sha256,
            2 => ApfsHashType::Sha512_256,
            3 => ApfsHashType::Sha384,
            4 => ApfsHashType::Sha512,
            other => ApfsHashType::Unknown(other),
        }
    }

    /// The digest size of the hash, in bytes, or `None` for an unknown type.
    #[must_use]
    pub fn hash_size(self) -> (size: Option<usize>)
        ensures
            size == hash_size_of(self),
    {
        match self {
            ApfsHashType::Sha256 => Some(32),
            ApfsHashType::Sha512_256 => Some(32),
            ApfsHashType::Sha384 => Some(48),
            ApfsHashType::Sha512 => Some(64),
            ApfsHashType::Unknown(_) => None,
        }
    }

    /// Computes the hash of `data` with this algorithm.
    pub fn digest(self, data: &[u8]) -> (digest: Result<Vec<u8>, ApfsError>)
        ensures
            error::viewed(digest) == digest_of(self, data@),
            digest matches Ok(hash) ==> hash_size_of(self) == Some(hash@.len() as usize),
    {
        match self {
            ApfsHashType::Sha256 => Ok(sha256_digest(data)),
            ApfsHashType::Sha512_256 => Ok(sha512_256_digest(data)),
            ApfsHashType::Sha384 => Ok(sha384_digest(data)),
            ApfsHashType::Sha512 => Ok(sha512_digest(data)),
            ApfsHashType::Unknown(_) => Err(
                ApfsError::Unsupported("unrecognized integrity hash type"),
            ),
        }
    }

    /// Computes the hash of `data` and compares it to `expected`.
    pub fn verify(self, data: &[u8], expected: &[u8]) -> (verified: Result<bool, ApfsError>)
        ensures
            verified == verified_as(self, data@, expected@),
    {
        match self.digest(data) {
            Err(error) => Err(error),
            Ok(digest) => Ok(bytes::same_bytes(digest.as_slice(), expected)),
        }
    }
}

/// Parsed sealed-volume integrity metadata (`integrity_meta_phys_t`).
#[derive(Debug, Clone, PartialEq, Eq)]
pub struct IntegrityMeta {
    /// The structure's version (1 or 2).
    pub version: u32,
    /// Integrity-metadata flags.
    pub flags: IntegrityMetaFlags,
    /// The hash algorithm the volume's hashes use.
    pub hash_type: ApfsHashType,
    /// Transaction id at which the seal was broken, or zero if intact.
    pub broken_xid: u64,
    /// The volume's root hash.
    pub root_hash: Vec<u8>,
}

/// The content of an [`IntegrityMeta`].
#[verifier::ext_equal]
pub struct IntegrityMetaView {
    /// The structure's version.
    pub version: u32,
    /// Integrity-metadata flags.
    pub flags: IntegrityMetaFlags,
    /// The hash algorithm the volume's hashes use.
    pub hash_type: ApfsHashType,
    /// Transaction id at which the seal was broken, or zero if intact.
    pub broken_xid: u64,
    /// The volume's root hash.
    pub root_hash: Seq<u8>,
}

impl View for IntegrityMeta {
    type V = IntegrityMetaView;

    open spec fn view(&self) -> IntegrityMetaView {
        IntegrityMetaView {
            version: self.version,
            flags: self.flags,
            hash_type: self.hash_type,
            broken_xid: self.broken_xid,
            root_hash: self.root_hash@,
        }
    }
}

/// The size of the root hash: the digest size of a known algorithm, and the
/// largest size otherwise.
pub open spec fn root_hash_size(hash_type: ApfsHashType) -> usize {
    match hash_size_of(hash_type) {
        Some(size) => size,
        None => APFS_HASH_MAX_SIZE,
    }
}

/// The integrity metadata in `block`.
pub open spec fn integrity_of(block: Seq<u8>) -> Result<IntegrityMetaView, ApfsError> {
    let hash_type = hash_type_of(bytes::le_u32(block, OBJ_PHYS_SIZE + 8));
    let start = bytes::le_u32(block, OBJ_PHYS_SIZE + 12);
    if block.len() < INTEGRITY_META_FIXED_SIZE {
        error::truncated("integrity_meta_phys_t", INTEGRITY_META_FIXED_SIZE as int, block.len())
    } else {
        match bytes::range(block, start as int, start + root_hash_size(hash_type)) {
            None => error::malformed("integrity_meta_phys_t", "root-hash offset is out of range"),
            Some(root_hash) => Ok(
                IntegrityMetaView {
                    version: bytes::le_u32(block, OBJ_PHYS_SIZE as int),
                    flags: IntegrityMetaFlags(bytes::le_u32(block, OBJ_PHYS_SIZE + 4)),
                    hash_type,
                    broken_xid: bytes::le_u64(block, OBJ_PHYS_SIZE + 16),
                    root_hash,
                },
            ),
        }
    }
}

/// Whether the flags or the transaction mark the seal broken.
pub open spec fn seal_broken(integrity: IntegrityMetaView) -> bool {
    integrity.flags.has(IntegrityMetaFlags::SEAL_BROKEN) || integrity.broken_xid != 0
}

impl IntegrityMeta {
    /// Parses integrity metadata from its block.
    pub fn parse(block: &[u8]) -> (parsed: Result<IntegrityMeta, ApfsError>)
        ensures
            error::viewed(parsed) == integrity_of(block@),
    {
        if block.len() < INTEGRITY_META_FIXED_SIZE {
            return Err(
                ApfsError::Truncated {
                    structure: "integrity_meta_phys_t",
                    expected: INTEGRITY_META_FIXED_SIZE,
                    actual: block.len(),
                },
            );
        }
        let version: u32 = bytes::read_u32(block, OBJ_PHYS_SIZE);
        let flags: IntegrityMetaFlags = IntegrityMetaFlags::from_bits_retain(
            bytes::read_u32(block, OBJ_PHYS_SIZE + 4),
        );
        let hash_type: ApfsHashType = ApfsHashType::from_value(
            bytes::read_u32(block, OBJ_PHYS_SIZE + 8),
        );
        let start: u32 = bytes::read_u32(block, OBJ_PHYS_SIZE + 12);
        let broken_xid: u64 = bytes::read_u64(block, OBJ_PHYS_SIZE + 16);
        let size: usize = match hash_type.hash_size() {
            Some(size) => size,
            None => APFS_HASH_MAX_SIZE,
        };
        if start as u64 + size as u64 > block.len() as u64 {
            return Err(
                ApfsError::Malformed {
                    structure: "integrity_meta_phys_t",
                    reason: "root-hash offset is out of range",
                },
            );
        }
        let root_hash: Vec<u8> = vstd::slice::slice_to_vec(
            vstd::slice::slice_subrange(block, start as usize, start as usize + size),
        );
        Ok(IntegrityMeta { version, flags, hash_type, broken_xid, root_hash })
    }

    /// Whether the volume's seal has been broken.
    #[must_use]
    pub fn is_seal_broken(&self) -> (broken: bool)
        ensures
            broken == seal_broken(self@),
    {
        self.flags.contains(IntegrityMetaFlags::SEAL_BROKEN) || self.broken_xid != 0
    }
}

/// A per-file content hash (`j_file_data_hash_val_t`).
#[derive(Debug, Clone, PartialEq, Eq)]
pub struct FileDataHash {
    /// Length, in blocks, of the data segment that was hashed.
    pub hashed_len: u16,
    /// The hash of that segment.
    pub hash: Vec<u8>,
}

/// The content of a [`FileDataHash`].
#[verifier::ext_equal]
pub struct FileDataHashView {
    /// Length, in blocks, of the data segment that was hashed.
    pub hashed_len: u16,
    /// The hash of that segment.
    pub hash: Seq<u8>,
}

impl View for FileDataHash {
    type V = FileDataHashView;

    open spec fn view(&self) -> FileDataHashView {
        FileDataHashView { hashed_len: self.hashed_len, hash: self.hash@ }
    }
}

/// The content hash in a record value.
pub open spec fn file_data_hash_of(value: Seq<u8>) -> Result<FileDataHashView, ApfsError> {
    let end = FILE_DATA_HASH_HEADER_SIZE + value[2];
    if value.len() < FILE_DATA_HASH_HEADER_SIZE {
        error::truncated(
            "j_file_data_hash_val_t",
            FILE_DATA_HASH_HEADER_SIZE as int,
            value.len(),
        )
    } else if end > value.len() {
        error::truncated("j_file_data_hash_val_t", end, value.len())
    } else {
        Ok(
            FileDataHashView {
                hashed_len: bytes::le_u16(value, 0),
                hash: value.subrange(FILE_DATA_HASH_HEADER_SIZE as int, end),
            },
        )
    }
}

impl FileDataHash {
    /// Parses a `j_file_data_hash_val_t` value.
    pub fn parse(value: &[u8]) -> (parsed: Result<FileDataHash, ApfsError>)
        ensures
            error::viewed(parsed) == file_data_hash_of(value@),
    {
        if value.len() < FILE_DATA_HASH_HEADER_SIZE {
            return Err(
                ApfsError::Truncated {
                    structure: "j_file_data_hash_val_t",
                    expected: FILE_DATA_HASH_HEADER_SIZE,
                    actual: value.len(),
                },
            );
        }
        let hashed_len: u16 = bytes::read_u16(value, 0);
        let end: usize = FILE_DATA_HASH_HEADER_SIZE + value[2] as usize;
        match bytes::get_range(value, FILE_DATA_HASH_HEADER_SIZE, end) {
            None => Err(
                ApfsError::Truncated {
                    structure: "j_file_data_hash_val_t",
                    expected: end,
                    actual: value.len(),
                },
            ),
            Some(hash) => Ok(
                FileDataHash { hashed_len, hash: vstd::slice::slice_to_vec(hash) },
            ),
        }
    }

    /// Verifies `data` against this stored hash under `hash_type`.
    pub fn verify(&self, hash_type: ApfsHashType, data: &[u8]) -> (verified: Result<
        bool,
        ApfsError,
    >)
        ensures
            verified == verified_as(hash_type, data@, self.hash@),
    {
        hash_type.verify(data, self.hash.as_slice())
    }
}

/// A file-content block whose hash does not match the sealed-volume integrity
/// record: the structured outcome of detected tampering.
#[derive(Debug, Clone, Copy, PartialEq, Eq, Structural)]
pub struct HashMismatch {
    /// Object identifier of the file (its inode number).
    pub obj_id: u64,
    /// Byte offset of the mismatching segment within the file.
    pub offset: u64,
    /// Length of the mismatching segment, in bytes.
    pub length: u64,
}

/// The result of verifying every file-data hash of a sealed volume.
#[derive(Debug, Clone)]
pub struct SealReport {
    /// The hash algorithm the volume's integrity metadata declares.
    pub hash_type: ApfsHashType,
    /// Number of file-data-hash segments verified.
    pub segments_verified: usize,
    /// Every segment whose content failed verification.
    pub mismatches: Vec<HashMismatch>,
}

/// The content of a [`SealReport`].
#[verifier::ext_equal]
pub struct SealReportView {
    /// The hash algorithm the volume's integrity metadata declares.
    pub hash_type: ApfsHashType,
    /// Number of file-data-hash segments verified.
    pub segments_verified: int,
    /// Every segment whose content failed verification.
    pub mismatches: Seq<HashMismatch>,
}

impl View for SealReport {
    type V = SealReportView;

    open spec fn view(&self) -> SealReportView {
        SealReportView {
            hash_type: self.hash_type,
            segments_verified: self.segments_verified as int,
            mismatches: self.mismatches@,
        }
    }
}

impl SealReport {
    /// Whether every verified segment matched its stored hash.
    #[must_use]
    pub fn is_intact(&self) -> (intact: bool)
        ensures
            intact == (self@.mismatches.len() == 0),
    {
        self.mismatches.len() == 0
    }

    /// Counts a segment whose content has the given digest, and records a
    /// mismatch unless that is the expected one.
    pub fn judge(&mut self, segment: HashMismatch, digest: &[u8], expected: &[u8])
        requires
            old(self).segments_verified < usize::MAX,
        ensures
            final(self)@ == judged(old(self)@, segment, digest@ == expected@),
    {
        self.segments_verified = self.segments_verified + 1;
        if !bytes::same_bytes(digest, expected) {
            self.mismatches.push(segment);
        }
    }
}

/// The outcome of a whole-volume seal verification.
#[derive(Debug, Clone)]
pub enum SealVerification {
    /// The volume is not a sealed volume: nothing to verify.
    NotSealed,
    /// The volume is sealed but its integrity metadata marks the seal already
    /// broken; per-file verification is not attempted.
    SealBroken,
    /// The volume was verified; the report lists any mismatches.
    Verified(SealReport),
}

/// A report after one more segment.
pub open spec fn judged(report: SealReportView, segment: HashMismatch, matched: bool) -> SealReportView {
    SealReportView {
        hash_type: report.hash_type,
        segments_verified: report.segments_verified + 1,
        mismatches: if matched {
            report.mismatches
        } else {
            report.mismatches.push(segment)
        },
    }
}

/// Whether a record is one of those that carry a content hash to verify: its
/// key holds an `info_and_lba` field of the data-hash type.
pub open spec fn is_data_hash(record: RecordView) -> bool {
    record.key.len() >= J_KEY_SIZE + 8 && bytes::le_u64(record.key, J_KEY_SIZE as int)
        / J_FILE_INFO_LBA_RANGE == APFS_FILE_INFO_DATA_HASH
}

/// The product of two numbers, or the largest number when they have none.
pub open spec fn capped_product(a: int, b: int) -> u64 {
    if a * b <= u64::MAX {
        (a * b) as u64
    } else {
        u64::MAX
    }
}

/// The file segment that a data-hash record covers.
pub open spec fn segment_of(record: RecordView, hashed_len: u16, block_size: u32) -> HashMismatch {
    let lba = bytes::le_u64(record.key, J_KEY_SIZE as int) % J_FILE_INFO_LBA_RANGE;
    HashMismatch {
        obj_id: record.key_header.obj_id,
        offset: capped_product(lba as int, block_size as int),
        length: (hashed_len * block_size) as u64,
    }
}

/// The part of a file that ends where a segment does.
pub open spec fn hashed_file(extents: Seq<FextRecord>, segment: HashMismatch) -> FileView {
    FileView {
        size: if segment.offset + segment.length <= u64::MAX {
            (segment.offset + segment.length) as u64
        } else {
            u64::MAX
        },
        extents: extent::sorted_extents(fext::runs_of(extents, segment.obj_id)),
    }
}

/// A report after one more record.
pub open spec fn with_record(
    device: Device,
    block_size: u32,
    extents: Seq<FextRecord>,
    report: SealReportView,
    record: RecordView,
) -> Result<SealReportView, ApfsError> {
    if !is_data_hash(record) {
        Ok(report)
    } else {
        match file_data_hash_of(record.value) {
            Err(error) => Err(error),
            Ok(stored) => {
                let segment = segment_of(record, stored.hashed_len, block_size);
                if segment.length > usize::MAX {
                    error::malformed(
                        "j_file_data_hash_val_t",
                        "hashed segment length exceeds the addressable range",
                    )
                } else {
                    match extent::content_at(
                        device,
                        block_size,
                        hashed_file(extents, segment),
                        segment.offset,
                        segment.length as nat,
                    ) {
                        Err(error) => Err(error),
                        Ok(content) => match verified_as(report.hash_type, content, stored.hash) {
                            Err(error) => Err(error),
                            Ok(matched) => Ok(judged(report, segment, matched)),
                        },
                    }
                }
            },
        }
    }
}

/// The report on the first `count` records.
pub open spec fn report_on(
    device: Device,
    block_size: u32,
    extents: Seq<FextRecord>,
    hash_type: ApfsHashType,
    records: Seq<RecordView>,
    count: nat,
) -> Result<SealReportView, ApfsError>
    decreases count,
{
    if count == 0 {
        Ok(SealReportView { hash_type, segments_verified: 0, mismatches: Seq::empty() })
    } else {
        match report_on(device, block_size, extents, hash_type, records, (count - 1) as nat) {
            Err(error) => Err(error),
            Ok(report) => with_record(device, block_size, extents, report, records[count - 1]),
        }
    }
}

/// The report on every data-hash record of a catalog; there is none for an
/// algorithm that is not known.
pub open spec fn seal_report(
    device: Device,
    catalog: Catalog,
    fext: FextTree,
    hash_type: ApfsHashType,
    block_size: u32,
) -> Result<SealReportView, ApfsError> {
    if hash_size_of(hash_type) is None {
        Err(ApfsError::Unsupported("unrecognized integrity hash type"))
    } else {
        match tree::tree_records::<FextRecord>(device, block_size, fext.root) {
            Err(error) => Err(error),
            Ok(extents) => match catalog::catalog_records(
                device,
                catalog,
                Selection::Kind(JObjType::FileInfo),
            ) {
                Err(error) => Err(error),
                Ok(records) => report_on(
                    device,
                    block_size,
                    extents,
                    hash_type,
                    records,
                    records.len(),
                ),
            },
        }
    }
}

proof fn lemma_report_on_error(
    device: Device,
    block_size: u32,
    extents: Seq<FextRecord>,
    hash_type: ApfsHashType,
    records: Seq<RecordView>,
    some: nat,
    all: nat,
    error: ApfsError,
)
    requires
        some <= all,
        report_on(device, block_size, extents, hash_type, records, some) == Err::<
            SealReportView,
            ApfsError,
        >(error),
    ensures
        report_on(device, block_size, extents, hash_type, records, all) == Err::<
            SealReportView,
            ApfsError,
        >(error),
    decreases all,
{
    if some < all {
        lemma_report_on_error(
            device,
            block_size,
            extents,
            hash_type,
            records,
            some,
            (all - 1) as nat,
            error,
        );
    }
}

/// Whether the content that a record covers has the digest that the record
/// stores.
pub open spec fn segment_matches(
    device: Device,
    block_size: u32,
    extents: Seq<FextRecord>,
    hash_type: ApfsHashType,
    record: RecordView,
) -> bool {
    let stored = file_data_hash_of(record.value)->Ok_0;
    let segment = segment_of(record, stored.hashed_len, block_size);
    let content = extent::content_at(
        device,
        block_size,
        hashed_file(extents, segment),
        segment.offset,
        segment.length as nat,
    )->Ok_0;
    digest_of(hash_type, content) == Ok::<Seq<u8>, ApfsError>(stored.hash)
}

/// A report is intact exactly when each data-hash record's content has the
/// stored digest; it counts those records, and lists no more mismatches than
/// them.
pub proof fn law_report_is_complete(
    device: Device,
    block_size: u32,
    extents: Seq<FextRecord>,
    hash_type: ApfsHashType,
    records: Seq<RecordView>,
    count: nat,
)
    requires
        count <= records.len(),
        report_on(device, block_size, extents, hash_type, records, count) is Ok,
    ensures
        ({
            let report = report_on(device, block_size, extents, hash_type, records, count)->Ok_0;
            &&& report.hash_type == hash_type
            &&& report.mismatches.len() <= report.segments_verified <= count
            &&& report.mismatches.len() == 0 <==> (forall|i: int|
                0 <= i < count && is_data_hash(#[trigger] records[i]) ==> segment_matches(
                    device,
                    block_size,
                    extents,
                    hash_type,
                    records[i],
                ))
        }),
    decreases count,
{
    if count > 0 {
        let last = (count - 1) as nat;
        law_report_is_complete(device, block_size, extents, hash_type, records, last);
        let before = report_on(device, block_size, extents, hash_type, records, last)->Ok_0;
        let report = report_on(device, block_size, extents, hash_type, records, count)->Ok_0;
        let record = records[last as int];
        if report.mismatches.len() == 0 {
            assert(before.mismatches.len() == 0);
        }
    }
}

/// Whether a key's second word, its bytes 8 to 16, has 1 in its top byte and the
/// file block `lba` in the seven bytes below.
pub open spec fn is_key_of_block(key: Seq<u8>, lba: int) -> bool {
    &&& key.len() >= 16
    &&& key[15] == 1
    &&& lba == key[8] + 0x100 * key[9] + 0x1_0000 * key[10] + 0x100_0000 * key[11] + 0x1_0000_0000
        * key[12] + 0x100_0000_0000 * key[13] + 0x1_0000_0000_0000 * key[14]
}

/// The mismatch of the segment that starts at block `lba` of a record's object and
/// has as many blocks as the first two bytes of the record's value count.
pub open spec fn mismatch_at(record: RecordView, lba: int, block_size: u32) -> HashMismatch {
    HashMismatch {
        obj_id: record.key_header.obj_id,
        offset: if lba * block_size <= u64::MAX {
            (lba * block_size) as u64
        } else {
            u64::MAX
        },
        length: ((record.value[0] + 0x100 * record.value[1]) * block_size) as u64,
    }
}

/// Whether the bytes of a record's object in the segment from block `lba` on have
/// another digest than the one that the record's value holds from byte 3 on, its
/// length in byte 2. The file is that of the extents with the object's identifier.
pub open spec fn is_altered(
    device: Device,
    block_size: u32,
    extents: Seq<FextRecord>,
    hash_type: ApfsHashType,
    record: RecordView,
    lba: int,
) -> bool {
    let at = mismatch_at(record, lba, block_size);
    let runs = extents.filter(
        |extent: FextRecord| extent.private_id == record.key_header.obj_id,
    ).map_values(|extent: FextRecord| extent.extent);
    let file = FileView {
        size: if at.offset + at.length <= u64::MAX {
            (at.offset + at.length) as u64
        } else {
            u64::MAX
        },
        extents: extent::sorted_extents(runs),
    };
    extent::content_at(device, block_size, file, at.offset, at.length as nat) matches Ok(content)
        && digest_of(hash_type, content) != Ok::<Seq<u8>, ApfsError>(
        record.value.subrange(3, 3 + record.value[2]),
    )
}

/// Whether a report counts the records with a key of a block, and lists the altered
/// segments among them and nothing else.
pub open spec fn tells_of_blocks(
    device: Device,
    block_size: u32,
    extents: Seq<FextRecord>,
    hash_type: ApfsHashType,
    records: Seq<RecordView>,
    report: SealReportView,
) -> bool {
    &&& report.hash_type == hash_type
    &&& report.segments_verified == records.filter(
        |record: RecordView| record.key.len() >= 16 && record.key[15] == 1,
    ).len()
    &&& report.mismatches.len() == records.filter(
        |record: RecordView|
            exists|lba: int| #[trigger]
                is_key_of_block(record.key, lba) && is_altered(
                    device,
                    block_size,
                    extents,
                    hash_type,
                    record,
                    lba,
                ),
    ).len()
    &&& forall|i: int, lba: int|
        0 <= i < records.len() && #[trigger] is_key_of_block(records[i].key, lba) && is_altered(
            device,
            block_size,
            extents,
            hash_type,
            records[i],
            lba,
        ) ==> report.mismatches.contains(mismatch_at(records[i], lba, block_size))
    &&& forall|mismatch: HashMismatch| #[trigger]
        report.mismatches.contains(mismatch) ==> exists|i: int, lba: int|
            0 <= i < records.len() && #[trigger] is_key_of_block(records[i].key, lba) && is_altered(
                device,
                block_size,
                extents,
                hash_type,
                records[i],
                lba,
            ) && mismatch == mismatch_at(records[i], lba, block_size)
}

proof fn lemma_key_word(key: Seq<u8>, lba: int)
    requires
        key.len() >= 16,
    ensures
        bytes::le_u64(key, 8) / 0x0100_0000_0000_0000u64 == key[15],
        is_key_of_block(key, lba) ==> lba == bytes::le_u64(key, 8) % 0x0100_0000_0000_0000u64,
        is_key_of_block(key, (bytes::le_u64(key, 8) % 0x0100_0000_0000_0000u64) as int)
            <==> key[15] == 1,
{
    let low = key[8] + 0x100 * key[9] + 0x1_0000 * key[10] + 0x100_0000 * key[11] + 0x1_0000_0000
        * key[12] + 0x100_0000_0000 * key[13] + 0x1_0000_0000_0000 * key[14];
    bytes::law_bytes_weigh_by_their_place(key, 8);
    assert(bytes::le_u64(key, 8) == low + 0x0100_0000_0000_0000 * key[15]);
    assert(0 <= low < 0x0100_0000_0000_0000);
}

proof fn lemma_block_of_key(
    device: Device,
    block_size: u32,
    extents: Seq<FextRecord>,
    report: SealReportView,
    record: RecordView,
)
    requires
        with_record(device, block_size, extents, report, record) is Ok,
    ensures
        ({
            let after = with_record(device, block_size, extents, report, record)->Ok_0;
            let lba = (bytes::le_u64(record.key, 8) % 0x0100_0000_0000_0000u64) as int;
            let hash_type = report.hash_type;
            if record.key.len() >= 16 && record.key[15] == 1 {
                &&& is_key_of_block(record.key, lba)
                &&& after.hash_type == hash_type
                &&& after.segments_verified == report.segments_verified + 1
                &&& after.mismatches == if is_altered(
                    device,
                    block_size,
                    extents,
                    hash_type,
                    record,
                    lba,
                ) {
                    report.mismatches.push(mismatch_at(record, lba, block_size))
                } else {
                    report.mismatches
                }
            } else {
                after == report
            }
        }),
{
    if record.key.len() >= 16 {
        let lba = (bytes::le_u64(record.key, 8) % 0x0100_0000_0000_0000u64) as int;
        lemma_key_word(record.key, lba);
        fext::law_runs_are_those_of_the_file(extents, record.key_header.obj_id);
        let len = (record.value[0] + 0x100 * record.value[1]) as u16;
        assert(len * block_size <= 0xFFFF * 0xFFFF_FFFF) by (nonlinear_arith)
            requires
                len <= 0xFFFF,
                block_size <= 0xFFFF_FFFF,
        ;
    }
}

proof fn lemma_report_tells_of_blocks(
    device: Device,
    block_size: u32,
    extents: Seq<FextRecord>,
    hash_type: ApfsHashType,
    records: Seq<RecordView>,
    count: nat,
)
    requires
        count <= records.len(),
        report_on(device, block_size, extents, hash_type, records, count) is Ok,
    ensures
        tells_of_blocks(
            device,
            block_size,
            extents,
            hash_type,
            records.take(count as int),
            report_on(device, block_size, extents, hash_type, records, count)->Ok_0,
        ),
    decreases count,
{
    reveal(Seq::filter);
    let now = records.take(count as int);
    if count > 0 {
        let last = (count - 1) as nat;
        let record = records[last as int];
        let then = records.take(last as int);
        assert(now.drop_last() =~= then);
        assert(now.last() == record);
        lemma_report_tells_of_blocks(device, block_size, extents, hash_type, records, last);
        let before = report_on(device, block_size, extents, hash_type, records, last)->Ok_0;
        let after = report_on(device, block_size, extents, hash_type, records, count)->Ok_0;
        lemma_block_of_key(device, block_size, extents, before, record);
        let found = (bytes::le_u64(record.key, 8) % 0x0100_0000_0000_0000u64) as int;
        assert forall|lba: int| #[trigger] is_key_of_block(record.key, lba) implies lba
            == found by {
            lemma_key_word(record.key, lba);
        }
        let hashed = |record: RecordView| record.key.len() >= 16 && record.key[15] == 1;
        let bad = |record: RecordView|
            exists|lba: int| #[trigger]
                is_key_of_block(record.key, lba) && is_altered(
                    device,
                    block_size,
                    extents,
                    hash_type,
                    record,
                    lba,
                );
        assert(now.filter(hashed) == if hashed(record) {
            then.filter(hashed).push(record)
        } else {
            then.filter(hashed)
        });
        assert(now.filter(bad) == if bad(record) {
            then.filter(bad).push(record)
        } else {
            then.filter(bad)
        });
        assert(after.segments_verified == now.filter(hashed).len());
        assert(after.mismatches.len() == now.filter(bad).len());
        assert forall|i: int, lba: int|
            0 <= i < now.len() && #[trigger] is_key_of_block(now[i].key, lba) && is_altered(
                device,
                block_size,
                extents,
                hash_type,
                now[i],
                lba,
            ) implies after.mismatches.contains(mismatch_at(now[i], lba, block_size)) by {
            let wanted = mismatch_at(now[i], lba, block_size);
            if i < last {
                assert(is_key_of_block(then[i].key, lba));
                let k = before.mismatches.index_of(wanted);
                assert(after.mismatches[k] == wanted);
            } else {
                assert(after.mismatches.last() == wanted);
            }
        }
        assert forall|mismatch: HashMismatch| #[trigger]
            after.mismatches.contains(mismatch) implies exists|i: int, lba: int|
            0 <= i < now.len() && #[trigger] is_key_of_block(now[i].key, lba) && is_altered(
                device,
                block_size,
                extents,
                hash_type,
                now[i],
                lba,
            ) && mismatch == mismatch_at(now[i], lba, block_size) by {
            let k = after.mismatches.index_of(mismatch);
            if k < before.mismatches.len() {
                assert(before.mismatches[k] == mismatch);
                assert(before.mismatches.contains(mismatch));
                let (i, lba) = choose|i: int, lba: int|
                    0 <= i < then.len() && #[trigger] is_key_of_block(then[i].key, lba)
                        && is_altered(device, block_size, extents, hash_type, then[i], lba)
                        && mismatch == mismatch_at(then[i], lba, block_size);
                assert(is_key_of_block(now[i].key, lba));
            } else {
                assert(is_key_of_block(now[last as int].key, found));
            }
        }
    } else {
        assert(now =~= Seq::<RecordView>::empty());
    }
}

/// Every block of a file whose hash is stored is verified, whichever block it is. A
/// record whose key has 1 in the top byte of its second word is counted, and no
/// other is. For each such record there is a mismatch, with the object, the byte
/// offset and the length that the record states, exactly when the file's bytes there
/// have another digest than the stored one; and there are no other mismatches.
pub proof fn law_every_hashed_block_is_verified(
    device: Device,
    catalog: Catalog,
    fext: FextTree,
    hash_type: ApfsHashType,
    block_size: u32,
    extents: Seq<FextRecord>,
    records: Seq<RecordView>,
)
    requires
        tree::tree_records::<FextRecord>(device, block_size, fext.root) == Ok::<
            Seq<FextRecord>,
            ApfsError,
        >(extents),
        catalog::catalog_records(device, catalog, Selection::Kind(JObjType::FileInfo)) == Ok::<
            Seq<RecordView>,
            ApfsError,
        >(records),
        seal_report(device, catalog, fext, hash_type, block_size) is Ok,
    ensures
        tells_of_blocks(
            device,
            block_size,
            extents,
            hash_type,
            records,
            seal_report(device, catalog, fext, hash_type, block_size)->Ok_0,
        ),
{
    lemma_report_tells_of_blocks(device, block_size, extents, hash_type, records, records.len());
    assert(records.take(records.len() as int) =~= records);
}

/// Verifies one record, and adds the outcome to the report.
fn verify_record<T: Reader>(
    reader: &mut T,
    block_size: u32,
    groups: &BTreeMap<u64, Vec<FileExtent>>,
    record: &CatalogRecord,
    report: &mut SealReport,
    Ghost(extents): Ghost<Seq<FextRecord>>,
) -> (done: Result<(), ApfsError>)
    requires
        fext::groups_records(groups@, extents),
        old(report).segments_verified < usize::MAX,
    ensures
        final(reader).device() == old(reader).device(),
        match done {
            Ok(()) => with_record(
                old(reader).device(),
                block_size,
                extents,
                old(report)@,
                record@,
            ) == Ok::<SealReportView, ApfsError>(final(report)@),
            Err(error) => with_record(
                old(reader).device(),
                block_size,
                extents,
                old(report)@,
                record@,
            ) == Err::<SealReportView, ApfsError>(error),
        },
{
    // The key is a `j_key_t` header followed by `info_and_lba`.
    if record.key.len() < J_KEY_SIZE + 8 {
        return Ok(());
    }
    let info_and_lba: u64 = bytes::read_u64(record.key.as_slice(), J_KEY_SIZE);
    // Only data-hash records carry a content hash to verify.
    if info_and_lba / J_FILE_INFO_LBA_RANGE != APFS_FILE_INFO_DATA_HASH {
        return Ok(());
    }
    let stored: FileDataHash = match FileDataHash::parse(record.value.as_slice()) {
        Ok(stored) => stored,
        Err(error) => return Err(error),
    };
    let lba: u64 = info_and_lba % J_FILE_INFO_LBA_RANGE;
    let offset: u64 = match lba.checked_mul(block_size as u64) {
        Some(offset) => offset,
        None => u64::MAX,
    };
    assert(stored.hashed_len * block_size <= 0xFFFF * 0xFFFF_FFFF) by (nonlinear_arith)
        requires
            stored.hashed_len <= 0xFFFF,
            block_size <= 0xFFFF_FFFF,
    ;
    let length: u64 = stored.hashed_len as u64 * block_size as u64;
    let segment: HashMismatch = HashMismatch {
        obj_id: record.key_header.obj_id,
        offset,
        length,
    };
    let runs: Vec<FileExtent> = fext::runs_for(groups, segment.obj_id, Ghost(extents));
    let file: File = File::from_extents(offset.saturating_add(length), runs);
    proof {
        let rank = sort::rank_of::<FileExtent>();
        let unsorted = fext::runs_of(extents, segment.obj_id);
        sort::law_stable_sort_sorts(unsorted, rank);
        sort::law_stable_sort_of_sorted(sort::stable_sort(unsorted, rank), rank);
        assert(file@ == hashed_file(extents, segment));
    }
    if length > usize::MAX as u64 {
        return Err(
            ApfsError::Malformed {
                structure: "j_file_data_hash_val_t",
                reason: "hashed segment length exceeds the addressable range",
            },
        );
    }
    let mut content: Vec<u8> = vec![0u8; length as usize];
    let read: usize = match file.read_at(reader, block_size, offset, content.as_mut_slice()) {
        Ok(read) => read,
        Err(error) => return Err(error),
    };
    content.truncate(read);
    match report.hash_type.digest(content.as_slice()) {
        Ok(digest) => {
            report.judge(segment, digest.as_slice(), stored.hash.as_slice());
            Ok(())
        },
        Err(error) => Err(error),
    }
}

/// Verifies every file-data hash recorded by a sealed volume.
///
/// Walks the catalog's `FILE_INFO` records, and for each data-hash record reads
/// the covered file segment, hashes it with the volume's algorithm, and
/// compares it to the stored hash. A segment that fails is recorded as a
/// [`HashMismatch`]; verification continues so the report is complete.
///
/// A sealed volume keeps its file extents in the dedicated file-extent tree,
/// not as catalog `FILE_EXTENT` records, so extents are resolved through
/// [`FextTree`]. The tree is keyed by the file's data-stream `private_id`,
/// which equals the `FILE_INFO` record's object id for the uncloned files of a
/// system volume.
///
/// An unknown algorithm is an error, also where no hash is recorded.
pub fn verify_file_hashes<T: Reader>(
    catalog: &Catalog,
    fext: &FextTree,
    reader: &mut T,
    integrity: &IntegrityMeta,
    block_size: u32,
) -> (verified: Result<SealReport, ApfsError>)
    ensures
        final(reader).device() == old(reader).device(),
        error::viewed(verified) == seal_report(
            old(reader).device(),
            *catalog,
            *fext,
            integrity.hash_type,
            block_size,
        ),
{
    let ghost device = reader.device();
    // Without a known algorithm nothing can be verified, whatever is stored.
    if integrity.hash_type.hash_size().is_none() {
        return Err(ApfsError::Unsupported("unrecognized integrity hash type"));
    }
    let mut report: SealReport = SealReport {
        hash_type: integrity.hash_type,
        segments_verified: 0,
        mismatches: Vec::new(),
    };
    // The whole file-extent tree is resolved once; every hashed file then
    // reads through its own extents without walking the tree again.
    let groups: BTreeMap<u64, Vec<FileExtent>> = match fext.collect(reader, block_size) {
        Ok(groups) => groups,
        Err(error) => return Err(error),
    };
    let ghost extents = tree::tree_records::<FextRecord>(device, block_size, fext.root)->Ok_0;
    let records: Vec<CatalogRecord> = match catalog.records_of_kind(reader, JObjType::FileInfo) {
        Ok(records) => records,
        Err(error) => return Err(error),
    };
    let ghost hash_type = integrity.hash_type;
    let ghost all = error::views(records@);
    let mut i: usize = 0;
    while i < records.len()
        invariant
            i <= records@.len(),
            device == old(reader).device(),
            reader.device() == device,
            hash_type == integrity.hash_type,
            hash_size_of(hash_type) is Some,
            all == error::views(records@),
            fext::groups_records(groups@, extents),
            tree::tree_records::<FextRecord>(device, block_size, fext.root) == Ok::<
                Seq<FextRecord>,
                ApfsError,
            >(extents),
            catalog::catalog_records(device, *catalog, Selection::Kind(JObjType::FileInfo)) == Ok::<
                Seq<RecordView>,
                ApfsError,
            >(all),
            report.segments_verified <= i,
            report_on(device, block_size, extents, hash_type, all, i as nat) == Ok::<
                SealReportView,
                ApfsError,
            >(report@),
        decreases records@.len() - i,
    {
        proof {
            assert(all[i as int] == records@[i as int]@);
        }
        match verify_record(
            reader,
            block_size,
            &groups,
            &records[i],
            &mut report,
            Ghost(extents),
        ) {
            Ok(()) => {},
            Err(error) => {
                proof {
                    lemma_report_on_error(
                        device,
                        block_size,
                        extents,
                        hash_type,
                        all,
                        (i + 1) as nat,
                        all.len(),
                        error,
                    );
                }
                return Err(error);
            },
        }
        i += 1;
    }
    Ok(report)
}

/// Each known algorithm's digest is the one of its name, a hash type of another number has
/// none, and data is verified exactly when its digest is the expected one.
pub proof fn law_data_is_verified_by_its_digest(value: u32, data: Seq<u8>, expected: Seq<u8>)
    ensures
        value == 1 ==> verified_as(hash_type_of(value), data, expected) == Ok::<bool, ApfsError>(
            expected == sha256(data),
        ) && hash_size_of(hash_type_of(value)) == Some(32usize),
        value == 2 ==> verified_as(hash_type_of(value), data, expected) == Ok::<bool, ApfsError>(
            expected == sha512_256(data),
        ) && hash_size_of(hash_type_of(value)) == Some(32usize),
        value == 3 ==> verified_as(hash_type_of(value), data, expected) == Ok::<bool, ApfsError>(
            expected == sha384(data),
        ) && hash_size_of(hash_type_of(value)) == Some(48usize),
        value == 4 ==> verified_as(hash_type_of(value), data, expected) == Ok::<bool, ApfsError>(
            expected == sha512(data),
        ) && hash_size_of(hash_type_of(value)) == Some(64usize),
        value == 0 || value > 4 ==> verified_as(hash_type_of(value), data, expected) is Err
            && hash_size_of(hash_type_of(value)) is None,
{
}

/// A volume whose hash type has a number that is not known is not verified at all.
pub proof fn law_unknown_algorithm_is_an_error(
    device: Device,
    catalog: Catalog,
    fext: FextTree,
    value: u32,
    block_size: u32,
)
    requires
        value == 0 || value > 4,
    ensures
        seal_report(device, catalog, fext, hash_type_of(value), block_size) == Err::<
            SealReportView,
            ApfsError,
        >(ApfsError::Unsupported("unrecognized integrity hash type")),
{
}

/// Whether the hash that a record stores and the bytes that it is of can be read.
pub open spec fn is_readable(
    device: Device,
    block_size: u32,
    extents: Seq<FextRecord>,
    record: RecordView,
    lba: int,
) -> bool {
    let at = mismatch_at(record, lba, block_size);
    let runs = extents.filter(
        |extent: FextRecord| extent.private_id == record.key_header.obj_id,
    ).map_values(|extent: FextRecord| extent.extent);
    let file = FileView {
        size: if at.offset + at.length <= u64::MAX {
            (at.offset + at.length) as u64
        } else {
            u64::MAX
        },
        extents: extent::sorted_extents(runs),
    };
    &&& record.value.len() >= 3
    &&& 3 + record.value[2] <= record.value.len()
    &&& at.length <= usize::MAX
    &&& extent::content_at(device, block_size, file, at.offset, at.length as nat) is Ok
}

/// A report is given, whatever it finds, wherever the algorithm is known, the extents and the
/// records can be read, and the stored hash and the bytes of each hashed segment can be read.
pub proof fn law_report_is_given(
    device: Device,
    catalog: Catalog,
    fext: FextTree,
    hash_type: ApfsHashType,
    block_size: u32,
    extents: Seq<FextRecord>,
    records: Seq<RecordView>,
)
    requires
        !(hash_type is Unknown),
        tree::tree_records::<FextRecord>(device, block_size, fext.root) == Ok::<
            Seq<FextRecord>,
            ApfsError,
        >(extents),
        catalog::catalog_records(device, catalog, Selection::Kind(JObjType::FileInfo)) == Ok::<
            Seq<RecordView>,
            ApfsError,
        >(records),
        forall|i: int, lba: int|
            0 <= i < records.len() && #[trigger] is_key_of_block(records[i].key, lba)
                ==> is_readable(device, block_size, extents, records[i], lba),
    ensures
        seal_report(device, catalog, fext, hash_type, block_size) is Ok,
{
    lemma_report_is_given(device, block_size, extents, hash_type, records, records.len());
}

proof fn lemma_report_is_given(
    device: Device,
    block_size: u32,
    extents: Seq<FextRecord>,
    hash_type: ApfsHashType,
    records: Seq<RecordView>,
    count: nat,
)
    requires
        !(hash_type is Unknown),
        count <= records.len(),
        forall|i: int, lba: int|
            0 <= i < records.len() && #[trigger] is_key_of_block(records[i].key, lba)
                ==> is_readable(device, block_size, extents, records[i], lba),
    ensures
        report_on(device, block_size, extents, hash_type, records, count) matches Ok(report)
            && report.hash_type == hash_type,
    decreases count,
{
    if count > 0 {
        let last = (count - 1) as nat;
        let record = records[last as int];
        lemma_report_is_given(device, block_size, extents, hash_type, records, last);
        let before = report_on(device, block_size, extents, hash_type, records, last)->Ok_0;
        if record.key.len() >= 16 {
            let lba = (bytes::le_u64(record.key, 8) % 0x0100_0000_0000_0000u64) as int;
            lemma_key_word(record.key, lba);
            if record.key[15] == 1 {
                assert(is_key_of_block(records[last as int].key, lba));
                fext::law_runs_are_those_of_the_file(extents, record.key_header.obj_id);
                let len = (record.value[0] + 0x100 * record.value[1]) as u16;
                assert(len * block_size <= 0xFFFF * 0xFFFF_FFFF) by (nonlinear_arith)
                    requires
                        len <= 0xFFFF,
                        block_size <= 0xFFFF_FFFF,
                ;
            }
        }
    }
}

} // verus!
