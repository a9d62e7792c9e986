//! The common object header (`obj_phys_t`) shared by every APFS
//! container-layer object: 32 bytes that carry its Fletcher-64 checksum,
//! identifiers, and type information.

use vstd::prelude::*;

use crate::bytes;
use crate::error;
use crate::error::ApfsError;
use crate::types;
use crate::types::ObjectType;

verus! {

/// Mask selecting the object type from the low 16 bits of `o_type`.
pub const OBJECT_TYPE_MASK: u32 = 0x0000_FFFF;

/// Mask selecting the flag bits from the high 16 bits of `o_type`.
pub const OBJECT_TYPE_FLAGS_MASK: u32 = 0xFFFF_0000;

/// Mask selecting the storage-class bits of `o_type`.
pub const OBJ_STORAGETYPE_MASK: u32 = 0xC000_0000;

/// Mask of all `o_type` bits for which flags are currently defined.
pub const OBJECT_TYPE_FLAGS_DEFINED_MASK: u32 = 0xF800_0000;

/// Storage-class flag: the object is virtual (located via an object map).
pub const OBJ_VIRTUAL: u32 = 0x0000_0000;

/// Storage-class flag: the object is ephemeral (lives in a checkpoint).
pub const OBJ_EPHEMERAL: u32 = 0x8000_0000;

/// Storage-class flag: the object is physical (at a fixed block address).
pub const OBJ_PHYSICAL: u32 = 0x4000_0000;

/// Flag: the object is stored without an `obj_phys_t` header.
pub const OBJ_NOHEADER: u32 = 0x2000_0000;

/// Flag: the object is encrypted.
pub const OBJ_ENCRYPTED: u32 = 0x1000_0000;

/// Flag: the object is not persisted across unmounts.
pub const OBJ_NONPERSISTENT: u32 = 0x0800_0000;

/// Size of the `obj_phys_t` header in bytes.
pub const OBJ_PHYS_SIZE: usize = 32;

/// How an object is located on disk, encoded in the `o_type` flag bits.
#[derive(Debug, Clone, Copy, PartialEq, Eq, Structural)]
pub enum StorageClass {
    /// Located through an object map, keyed by (object id, transaction id).
    Virtual,
    /// Held in memory and persisted in checkpoints.
    Ephemeral,
    /// Stored at a fixed physical block address.
    Physical,
    /// The storage-class bits held a value APFS does not define.
    Unknown,
}

/// A parsed APFS common object header.
#[derive(Debug, Clone, Copy, PartialEq, Eq, Structural)]
pub struct ObjPhys {
    /// The stored Fletcher-64 checksum of the object block.
    pub checksum: u64,
    /// The object's identifier.
    pub oid: u64,
    /// The transaction identifier of the object's most recent modification.
    pub xid: u64,
    /// The object's subtype (for B-tree nodes, the kind of records held).
    pub subtype: u32,
    /// The raw `o_type` field: type in the low 16 bits, flags in the high.
    pub raw_type: u32,
}

/// The object header stored at the start of `bytes`.
pub open spec fn header_at(bytes: Seq<u8>) -> Result<ObjPhys, ApfsError> {
    if bytes.len() < OBJ_PHYS_SIZE {
        error::truncated("obj_phys_t", OBJ_PHYS_SIZE as int, bytes.len())
    } else {
        Ok(
            ObjPhys {
                checksum: bytes::le_u64(bytes, 0x00),
                oid: bytes::le_u64(bytes, 0x08),
                xid: bytes::le_u64(bytes, 0x10),
                raw_type: bytes::le_u32(bytes, 0x18),
                subtype: bytes::le_u32(bytes, 0x1C),
            },
        )
    }
}

impl ObjPhys {
    /// Parses an object header from the start of `bytes`, typically a whole
    /// object block; only the leading bytes are consumed.
    pub fn parse(bytes: &[u8]) -> (parsed: Result<ObjPhys, ApfsError>)
        ensures
            parsed == header_at(bytes@),
    {
        if bytes.len() < OBJ_PHYS_SIZE {
            return Err(
                ApfsError::Truncated {
                    structure: "obj_phys_t",
                    expected: OBJ_PHYS_SIZE,
                    actual: bytes.len(),
                },
            );
        }
        Ok(
            ObjPhys {
                checksum: bytes::read_u64(bytes, 0x00),
                oid: bytes::read_u64(bytes, 0x08),
                xid: bytes::read_u64(bytes, 0x10),
                raw_type: bytes::read_u32(bytes, 0x18),
                subtype: bytes::read_u32(bytes, 0x1C),
            },
        )
    }

    /// The object type: the low 16 bits of `o_type`.
    #[must_use]
    pub fn object_type(&self) -> (value: u16)
        ensures
            value == self.raw_type % 0x1_0000,
    {
        (self.raw_type % 0x1_0000) as u16
    }

    /// The object type flags: the high 16 bits of `o_type`.
    #[must_use]
    pub fn type_flags(&self) -> (flags: u16)
        ensures
            flags == self.raw_type / 0x1_0000,
    {
        (self.raw_type / 0x1_0000) as u16
    }

    /// The raw, undecoded `o_type` field.
    #[must_use]
    pub fn raw_type(&self) -> (raw: u32)
        ensures
            raw == self.raw_type,
    {
        self.raw_type
    }

    /// The decoded object type.
    #[must_use]
    pub fn object_kind(&self) -> (kind: ObjectType)
        ensures
            kind == types::object_type_of(self.raw_type),
    {
        ObjectType::from_type_field(self.raw_type)
    }

    /// The decoded object subtype: for a B-tree node, the kind of records it
    /// holds.
    #[must_use]
    pub fn subtype_kind(&self) -> (kind: ObjectType)
        ensures
            kind == types::object_type_of(self.subtype),
    {
        ObjectType::from_type_field(self.subtype)
    }

    /// How the object is stored on disk.
    #[must_use]
    pub fn storage_class(&self) -> (class: StorageClass)
        ensures
            class == match self.raw_type & OBJ_STORAGETYPE_MASK {
                0x0000_0000 => StorageClass::Virtual,
                0x8000_0000 => StorageClass::Ephemeral,
                0x4000_0000 => StorageClass::Physical,
                _ => StorageClass::Unknown,
            },
    {
        let bits: u32 = self.raw_type & OBJ_STORAGETYPE_MASK;
        if bits == OBJ_VIRTUAL {
            StorageClass::Virtual
        } else if bits == OBJ_EPHEMERAL {
            StorageClass::Ephemeral
        } else if bits == OBJ_PHYSICAL {
            StorageClass::Physical
        } else {
            StorageClass::Unknown
        }
    }

    /// Whether the object is encrypted (`OBJ_ENCRYPTED`).
    #[must_use]
    pub fn is_encrypted(&self) -> (set: bool)
        ensures
            set == (self.raw_type & OBJ_ENCRYPTED != 0),
    {
        self.raw_type & OBJ_ENCRYPTED != 0
    }

    /// Whether the object is stored without an `obj_phys_t` header
    /// (`OBJ_NOHEADER`).
    #[must_use]
    pub fn is_headerless(&self) -> (set: bool)
        ensures
            set == (self.raw_type & OBJ_NOHEADER != 0),
    {
        self.raw_type & OBJ_NOHEADER != 0
    }

    /// Whether the object is non-persistent (`OBJ_NONPERSISTENT`).
    #[must_use]
    pub fn is_nonpersistent(&self) -> (set: bool)
        ensures
            set == (self.raw_type & OBJ_NONPERSISTENT != 0),
    {
        self.raw_type & OBJ_NONPERSISTENT != 0
    }
}

} // verus!
