//! EFI jumpstart and APFS partition detection.
//!
//! A bootable APFS container carries an EFI jumpstart record
//! (`nx_efi_jumpstart_t`) locating the EFI driver embedded in the container.
//! An APFS container on a GPT disk is identified by a fixed partition-type
//! GUID.

use vstd::prelude::*;

use crate::bytes;
use crate::container::{NX_MAGIC, NX_MINIMUM_BLOCK_SIZE};
use crate::error;
use crate::error::ApfsError;
use crate::io;
use crate::io::{Device, ErrorKind, Reader, SeekFrom};
use crate::object;
use crate::object::{OBJ_PHYS_SIZE, ObjPhys};
use crate::types;
use crate::types::{ObjectType, PRANGE_SIZE, Prange};

verus! {

/// EFI jumpstart magic as the little-endian `u32` it forms on disk: the bytes
/// `JSDR`.
pub const NX_EFI_JUMPSTART_MAGIC: u32 = 0x5244_534A;

/// The only supported EFI jumpstart version.
pub const NX_EFI_JUMPSTART_VERSION: u32 = 1;

/// GPT partition-type GUID of an APFS container, in its canonical string form.
pub const APFS_GPT_PARTITION_UUID: &'static str = "7C3457EF-0000-11AA-AA11-00306543ECAC";

/// GPT partition-type GUID of an APFS container, in the mixed-endian 16-byte
/// form GPT stores on disk.
pub const APFS_GPT_PARTITION_TYPE: [u8; 16] = [
    0xEF, 0x57, 0x34, 0x7C, 0x00, 0x00, 0xAA, 0x11, 0xAA, 0x11, 0x00, 0x30, 0x65, 0x43, 0xEC, 0xAC,
];

/// Offset of the `nej_rec_extents` array within `nx_efi_jumpstart_t`.
pub const NEJ_EXTENTS_OFFSET: usize = OBJ_PHYS_SIZE + 16 + 128;

/// Whether a device holds an APFS container: whether the block at its start has
/// the container magic. A device too small to hold a superblock does not.
pub open spec fn holds_container(device: Device) -> Result<bool, ApfsError> {
    match (device.fault)(0) {
        Some(error) => Err(ApfsError::Io(error)),
        None => match io::exact(device, 0, NX_MINIMUM_BLOCK_SIZE as nat) {
            Err(error) => if error.kind == ErrorKind::UnexpectedEof {
                Ok(false)
            } else {
                Err(ApfsError::Io(error))
            },
            Ok(probe) => Ok(bytes::le_u32(probe, 0x20) == NX_MAGIC),
        },
    }
}

/// Returns whether the reader holds an APFS container.
///
/// Reads the block-zero container superblock and checks its magic. A full
/// validation is left to
/// [`NxSuperblock::parse`](crate::container::NxSuperblock::parse).
pub fn is_apfs_container<T: Reader>(reader: &mut T) -> (found: Result<bool, ApfsError>)
    ensures
        final(reader).device() == old(reader).device(),
        found == holds_container(old(reader).device()),
{
    match reader.seek(SeekFrom::Start(0)) {
        Ok(_) => {},
        Err(error) => return Err(ApfsError::Io(error)),
    }
    let ghost device = reader.device();
    let mut probe: Vec<u8> = vec![0u8; NX_MINIMUM_BLOCK_SIZE as usize];
    match io::read_exact(reader, probe.as_mut_slice()) {
        Ok(()) => {
            proof {
                io::lemma_exact_len(device, 0, NX_MINIMUM_BLOCK_SIZE as nat);
            }
            Ok(bytes::read_u32(probe.as_slice(), 0x20) == NX_MAGIC)
        },
        // An image too small to hold a superblock is simply not APFS; any
        // other read failure is a real I/O fault.
        Err(error) => if error.kind() == ErrorKind::UnexpectedEof {
            Ok(false)
        } else {
            Err(ApfsError::Io(error))
        },
    }
}

/// A parsed EFI jumpstart record (`nx_efi_jumpstart_t`).
#[derive(Debug, Clone, PartialEq, Eq)]
pub struct EfiJumpstart {
    /// Length, in bytes, of the embedded EFI driver.
    pub efi_file_len: u32,
    /// Physical extents holding the EFI driver.
    pub extents: Vec<Prange>,
}

/// The content of an [`EfiJumpstart`].
#[verifier::ext_equal]
pub struct EfiJumpstartView {
    /// Length, in bytes, of the embedded EFI driver.
    pub efi_file_len: u32,
    /// Physical extents holding the EFI driver.
    pub extents: Seq<Prange>,
}

impl View for EfiJumpstart {
    type V = EfiJumpstartView;

    open spec fn view(&self) -> EfiJumpstartView {
        EfiJumpstartView { efi_file_len: self.efi_file_len, extents: self.extents@ }
    }
}

/// Entry `index` of a record's extent array.
pub open spec fn extent_at(block: Seq<u8>, index: int) -> Prange {
    let at = NEJ_EXTENTS_OFFSET + index * PRANGE_SIZE;
    Prange {
        start: types::Paddr(bytes::le_i64(block, at)),
        block_count: bytes::le_u64(block, at + 8),
    }
}

/// The EFI jumpstart record in `block`.
pub open spec fn jumpstart_of(block: Seq<u8>) -> Result<EfiJumpstartView, ApfsError> {
    let magic = bytes::le_u32(block, 0x20);
    let count = bytes::le_u32(block, 0x2C);
    if block.len() < NEJ_EXTENTS_OFFSET {
        error::truncated("nx_efi_jumpstart_t", NEJ_EXTENTS_OFFSET as int, block.len())
    } else if types::object_type_of(bytes::le_u32(block, 24)) != ObjectType::EfiJumpstart {
        error::malformed("nx_efi_jumpstart_t", "object type is not an EFI jumpstart record")
    } else if magic != NX_EFI_JUMPSTART_MAGIC {
        Err(
            ApfsError::InvalidMagic {
                structure: "nx_efi_jumpstart_t",
                expected: NX_EFI_JUMPSTART_MAGIC,
                actual: magic,
            },
        )
    } else if bytes::le_u32(block, 0x24) != NX_EFI_JUMPSTART_VERSION {
        Err(ApfsError::Unsupported("unrecognized EFI jumpstart version"))
    } else if NEJ_EXTENTS_OFFSET + count * PRANGE_SIZE > block.len() {
        error::malformed("nx_efi_jumpstart_t", "extent array extends past the block")
    } else {
        Ok(
            EfiJumpstartView {
                efi_file_len: bytes::le_u32(block, 0x28),
                extents: Seq::new(count as nat, |i: int| extent_at(block, i)),
            },
        )
    }
}

impl EfiJumpstart {
    /// Parses an EFI jumpstart record from its block.
    ///
    /// The block is located by the `nx_efi_jumpstart` field of the container
    /// superblock.
    pub fn parse(block: &[u8]) -> (parsed: Result<EfiJumpstart, ApfsError>)
        ensures
            error::viewed(parsed) == jumpstart_of(block@),
    {
        if block.len() < NEJ_EXTENTS_OFFSET {
            return Err(
                ApfsError::Truncated {
                    structure: "nx_efi_jumpstart_t",
                    expected: NEJ_EXTENTS_OFFSET,
                    actual: block.len(),
                },
            );
        }
        let header: ObjPhys = match ObjPhys::parse(block) {
            Ok(header) => header,
            Err(error) => return Err(error),
        };
        if header.object_kind() != ObjectType::EfiJumpstart {
            return Err(
                ApfsError::Malformed {
                    structure: "nx_efi_jumpstart_t",
                    reason: "object type is not an EFI jumpstart record",
                },
            );
        }
        let magic: u32 = bytes::read_u32(block, 0x20);
        if magic != NX_EFI_JUMPSTART_MAGIC {
            return Err(
                ApfsError::InvalidMagic {
                    structure: "nx_efi_jumpstart_t",
                    expected: NX_EFI_JUMPSTART_MAGIC,
                    actual: magic,
                },
            );
        }
        if bytes::read_u32(block, 0x24) != NX_EFI_JUMPSTART_VERSION {
            return Err(ApfsError::Unsupported("unrecognized EFI jumpstart version"));
        }
        let efi_file_len: u32 = bytes::read_u32(block, 0x28);
        let count: u32 = bytes::read_u32(block, 0x2C);
        // The extent array must fit the block before the on-disk count is
        // trusted.
        let end: u64 = NEJ_EXTENTS_OFFSET as u64 + count as u64 * PRANGE_SIZE as u64;
        if end > block.len() as u64 {
            return Err(
                ApfsError::Malformed {
                    structure: "nx_efi_jumpstart_t",
                    reason: "extent array extends past the block",
                },
            );
        }
        let mut extents: Vec<Prange> = Vec::new();
        let mut i: usize = 0;
        while i < count as usize
            invariant
                i <= count,
                NEJ_EXTENTS_OFFSET + count * PRANGE_SIZE <= block.len(),
                extents@ =~= Seq::new(i as nat, |k: int| extent_at(block@, k)),
            decreases count - i,
        {
            let at: usize = NEJ_EXTENTS_OFFSET + i * PRANGE_SIZE;
            extents.push(
                Prange {
                    start: types::Paddr(bytes::read_i64(block, at)),
                    block_count: bytes::read_u64(block, at + 8),
                },
            );
            i += 1;
        }
        Ok(EfiJumpstart { efi_file_len, extents })
    }
}

/// A device is taken for a container exactly when its first 4096 bytes can be read and have
/// `NXSB` at byte 32; one that ends before is none, and any other fault is an error.
pub proof fn law_container_is_known_by_its_magic(device: Device)
    ensures
        holds_container(device) == Ok::<bool, ApfsError>(true) <==> (io::read_at(
            device,
            0,
            4096,
        ) matches Ok(probe) && probe[32] == 0x4E && probe[33] == 0x58 && probe[34] == 0x53
            && probe[35] == 0x42),
        io::read_at(device, 0, 4096) is Ok ==> holds_container(device) is Ok,
        holds_container(device) matches Err(error) ==> error is Io,
{
    if let Ok(probe) = io::read_at(device, 0, 4096) {
        bytes::law_bytes_weigh_by_their_place(probe, 32);
    }
}

/// A device that ends before 4096 bytes holds no container; another fault in reading them is
/// the error.
pub proof fn law_short_device_is_no_container(device: Device)
    ensures
        (device.fault)(0) is None && (io::exact(device, 0, 4096) matches Err(error) && error.kind
            == ErrorKind::UnexpectedEof) ==> holds_container(device) == Ok::<bool, ApfsError>(
            false,
        ),
        (device.fault)(0) is None && (io::exact(device, 0, 4096) matches Err(error) && error.kind
            != ErrorKind::UnexpectedEof) ==> holds_container(device) == Err::<bool, ApfsError>(
            ApfsError::Io(io::exact(device, 0, 4096)->Err_0),
        ),
        (device.fault)(0) matches Some(error) ==> holds_container(device) == Err::<
            bool,
            ApfsError,
        >(ApfsError::Io(error)),
{
}

} // verus!
