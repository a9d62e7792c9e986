//! Sparse files and clone (copy-on-write) extents.
//!
//! APFS files can be sparse, with logical holes that no extent backs, and
//! cloned, where two files share the same physical extents copy-on-write.
//! Sharing is recorded in the physical-extent-reference tree: an extent with a
//! reference count above one is shared.

use vstd::prelude::*;

use crate::bytes;
use crate::catalog;
use crate::catalog::{Catalog, JObjType};
use crate::error;
use crate::error::ApfsError;
use crate::extent::{File, FileExtent};
use crate::io::{Device, Reader};

verus! {

/// Mask selecting the block length of a physical extent.
pub const PEXT_LEN_MASK: u64 = 0x0FFF_FFFF_FFFF_FFFF;

/// Shift selecting the kind of a physical extent.
pub const PEXT_KIND_SHIFT: u64 = 60;

/// The number of lengths that a physical extent can hold beside its kind.
pub const PEXT_LEN_RANGE: u64 = 0x1000_0000_0000_0000;

/// Size of a `j_phys_ext_val_t`.
pub const J_PHYS_EXT_VAL_SIZE: usize = 20;

/// The kind of an extent or record (`j_obj_kinds`).
#[derive(Debug, Clone, Copy, PartialEq, Eq, Structural)]
pub enum JObjKind {
    /// Any kind.
    Any,
    /// A newly created extent.
    New,
    /// An updated extent.
    Update,
    /// A dead extent pending deletion.
    Dead,
    /// An extent whose reference count was updated.
    UpdateRefcnt,
    /// An invalid kind.
    Invalid,
    /// A kind value this parser does not recognize.
    Unknown(u8),
}

/// The kind with the given value.
pub open spec fn obj_kind_of(value: u8) -> JObjKind {
    if value == 0 {
        JObjKind::Any
    } else if value == 1 {
        JObjKind::New
    } else if value == 2 {
        JObjKind::Update
    } else if value == 3 {
        JObjKind::Dead
    } else if value == 4 {
        JObjKind::UpdateRefcnt
    } else if value == 255 {
        JObjKind::Invalid
    } else {
        JObjKind::Unknown(value)
    }
}

impl JObjKind {
    /// Decodes a kind from its `j_obj_kinds` value.
    #[must_use]
    pub fn from_value(value: u8) -> (kind: JObjKind)
        ensures
            kind == obj_kind_of(value),
    {
        match value {
            0 => JObjKind::Any,
            1 => JObjKind::New,
            2 => JObjKind::Update,
            3 => JObjKind::Dead,
            4 => JObjKind::UpdateRefcnt,
            255 => JObjKind::Invalid,
            other => JObjKind::Unknown(other),
        }
    }
}

/// A physical-extent record (`j_phys_ext_val_t`) from the extent-reference
/// tree.
#[derive(Debug, Clone, Copy, PartialEq, Eq, Structural)]
pub struct PhysicalExtent {
    /// Length of the extent, in blocks.
    pub length_blocks: u64,
    /// The extent's kind.
    pub kind: JObjKind,
    /// Identifier of the file-system record that owns the extent.
    pub owning_obj_id: u64,
    /// The extent's reference count; a count above one means it is shared
    /// (cloned).
    pub refcnt: i32,
}

/// The physical extent in a record value: the kind stands in the high four bits
/// of the length.
pub open spec fn physical_extent_of(value: Seq<u8>) -> Result<PhysicalExtent, ApfsError> {
    let len_and_kind = bytes::le_u64(value, 0);
    if value.len() < J_PHYS_EXT_VAL_SIZE {
        error::truncated("j_phys_ext_val_t", J_PHYS_EXT_VAL_SIZE as int, value.len())
    } else {
        Ok(
            PhysicalExtent {
                length_blocks: len_and_kind % PEXT_LEN_RANGE,
                kind: obj_kind_of((len_and_kind / PEXT_LEN_RANGE) as u8),
                owning_obj_id: bytes::le_u64(value, 8),
                refcnt: bytes::le_i32(value, 16),
            },
        )
    }
}

impl PhysicalExtent {
    /// Parses a `j_phys_ext_val_t` value.
    pub fn parse(value: &[u8]) -> (parsed: Result<PhysicalExtent, ApfsError>)
        ensures
            parsed == physical_extent_of(value@),
    {
        if value.len() < J_PHYS_EXT_VAL_SIZE {
            return Err(
                ApfsError::Truncated {
                    structure: "j_phys_ext_val_t",
                    expected: J_PHYS_EXT_VAL_SIZE,
                    actual: value.len(),
                },
            );
        }
        let len_and_kind: u64 = bytes::read_u64(value, 0);
        Ok(
            PhysicalExtent {
                length_blocks: len_and_kind % PEXT_LEN_RANGE,
                kind: JObjKind::from_value((len_and_kind / PEXT_LEN_RANGE) as u8),
                owning_obj_id: bytes::read_u64(value, 8),
                refcnt: bytes::read_i32(value, 16),
            },
        )
    }

    /// Whether the extent is shared by more than one file (a clone).
    #[must_use]
    pub fn is_shared(&self) -> (shared: bool)
        ensures
            shared == (self.refcnt > 1),
    {
        self.refcnt > 1
    }
}

/// The volume's physical-extent-reference tree.
///
/// Keyed by physical block address, it records the reference count of every
/// extent: the basis for recognizing clones.
#[derive(Debug, Clone, Copy)]
pub struct ExtentRefs {
    /// The tree.
    pub tree: Catalog,
}

/// The physical extent that starts at `phys_block`.
pub open spec fn physical_extent_at(device: Device, tree: Catalog, phys_block: u64) -> Result<
    Option<PhysicalExtent>,
    ApfsError,
> {
    match catalog::record_value(device, tree, phys_block, JObjType::Extent) {
        Err(error) => Err(error),
        Ok(None) => Ok(None),
        Ok(Some(value)) => match physical_extent_of(value) {
            Err(error) => Err(error),
            Ok(extent) => Ok(Some(extent)),
        },
    }
}

impl ExtentRefs {
    /// Wraps the extent-reference tree as a lookup handle.
    ///
    /// `tree` is a [`Catalog`] built on the volume's `apfs_extentref_tree_oid`.
    #[must_use]
    pub fn new(tree: Catalog) -> (refs: ExtentRefs)
        ensures
            refs.tree == tree,
    {
        ExtentRefs { tree }
    }

    /// Looks up the physical-extent record starting at `phys_block`.
    pub fn lookup<T: Reader>(&self, reader: &mut T, phys_block: u64) -> (found: Result<
        Option<PhysicalExtent>,
        ApfsError,
    >)
        ensures
            final(reader).device() == old(reader).device(),
            found == physical_extent_at(old(reader).device(), self.tree, phys_block),
    {
        match self.tree.find_record(reader, phys_block, JObjType::Extent) {
            Err(error) => Err(error),
            Ok(None) => Ok(None),
            Ok(Some(value)) => match PhysicalExtent::parse(value.as_slice()) {
                Err(error) => Err(error),
                Ok(extent) => Ok(Some(extent)),
            },
        }
    }
}

/// A file extent paired with the sharing information from the extent-reference
/// tree.
#[derive(Debug, Clone, Copy, PartialEq, Eq, Structural)]
pub struct ClassifiedExtent {
    /// The file extent.
    pub extent: FileExtent,
    /// The physical extent's reference count, or `None` when no
    /// physical-extent record was found.
    pub refcnt: Option<i32>,
}

impl ClassifiedExtent {
    /// Whether the extent is shared with another file (a clone).
    #[must_use]
    pub fn is_shared(&self) -> (shared: bool)
        ensures
            shared == (self.refcnt matches Some(count) && count > 1),
    {
        match self.refcnt {
            Some(count) => count > 1,
            None => false,
        }
    }
}

/// An extent with the reference count of the physical extent that starts where
/// it does.
pub open spec fn classified(device: Device, tree: Catalog, extent: FileExtent) -> Result<
    ClassifiedExtent,
    ApfsError,
> {
    match physical_extent_at(device, tree, extent.phys_block_num) {
        Err(error) => Err(error),
        Ok(None) => Ok(ClassifiedExtent { extent, refcnt: None }),
        Ok(Some(physical)) => Ok(ClassifiedExtent { extent, refcnt: Some(physical.refcnt) }),
    }
}

/// The first `count` extents with their reference counts.
pub open spec fn all_classified(
    device: Device,
    tree: Catalog,
    extents: Seq<FileExtent>,
    count: nat,
) -> Result<Seq<ClassifiedExtent>, ApfsError>
    decreases count,
{
    if count == 0 {
        Ok(Seq::empty())
    } else {
        match all_classified(device, tree, extents, (count - 1) as nat) {
            Err(error) => Err(error),
            Ok(before) => match classified(device, tree, extents[count - 1]) {
                Err(error) => Err(error),
                Ok(last) => Ok(before.push(last)),
            },
        }
    }
}

proof fn lemma_all_classified_error(
    device: Device,
    tree: Catalog,
    extents: Seq<FileExtent>,
    some: nat,
    all: nat,
    error: ApfsError,
)
    requires
        some <= all,
        all_classified(device, tree, extents, some) == Err::<Seq<ClassifiedExtent>, ApfsError>(
            error,
        ),
    ensures
        all_classified(device, tree, extents, all) == Err::<Seq<ClassifiedExtent>, ApfsError>(
            error,
        ),
    decreases all,
{
    if some < all {
        lemma_all_classified_error(device, tree, extents, some, (all - 1) as nat, error);
    }
}

/// Classification keeps every extent and their order.
pub proof fn law_classification_keeps_extents(
    device: Device,
    tree: Catalog,
    extents: Seq<FileExtent>,
    count: nat,
)
    requires
        count <= extents.len(),
    ensures
        all_classified(device, tree, extents, count) matches Ok(out) ==> out.len() == count
            && forall|i: int| 0 <= i < count ==> (#[trigger] out[i]).extent == extents[i],
    decreases count,
{
    if count > 0 {
        law_classification_keeps_extents(device, tree, extents, (count - 1) as nat);
    }
}

/// Looks up the reference count of the physical extent that starts where an
/// extent does.
fn classify_extent<T: Reader>(refs: &ExtentRefs, reader: &mut T, extent: FileExtent) -> (out:
    Result<ClassifiedExtent, ApfsError>)
    ensures
        final(reader).device() == old(reader).device(),
        out == classified(old(reader).device(), refs.tree, extent),
{
    match refs.lookup(reader, extent.phys_block_num) {
        Err(error) => Err(error),
        Ok(None) => Ok(ClassifiedExtent { extent, refcnt: None }),
        Ok(Some(physical)) => Ok(ClassifiedExtent { extent, refcnt: Some(physical.refcnt) }),
    }
}

/// Classifies each extent of `file` as exclusive or shared, using the
/// extent-reference tree.
pub fn classify_extents<T: Reader>(file: &File, extent_refs: &ExtentRefs, reader: &mut T) -> (out:
    Result<Vec<ClassifiedExtent>, ApfsError>)
    ensures
        final(reader).device() == old(reader).device(),
        error::viewed(out) == all_classified(
            old(reader).device(),
            extent_refs.tree,
            file@.extents,
            file@.extents.len(),
        ),
{
    let ghost device = reader.device();
    let extents: &[FileExtent] = file.extents();
    let mut out: Vec<ClassifiedExtent> = Vec::new();
    let mut i: usize = 0;
    while i < extents.len()
        invariant
            i <= extents@.len(),
            extents@ == file@.extents,
            device == old(reader).device(),
            reader.device() == device,
            all_classified(device, extent_refs.tree, extents@, i as nat) == Ok::<
                Seq<ClassifiedExtent>,
                ApfsError,
            >(out@),
        decreases extents@.len() - i,
    {
        match classify_extent(extent_refs, reader, extents[i]) {
            Ok(last) => {
                out.push(last);
            },
            Err(error) => {
                proof {
                    lemma_all_classified_error(
                        device,
                        extent_refs.tree,
                        extents@,
                        (i + 1) as nat,
                        extents@.len(),
                        error,
                    );
                }
                return Err(error);
            },
        }
        i += 1;
    }
    Ok(out)
}

/// Each classified extent has the reference count that the record of its first block has
/// in bytes 16 to 20 of its value, and none where there is no record of that block.
pub proof fn law_extents_have_their_reference_counts(
    device: Device,
    tree: Catalog,
    extents: Seq<FileExtent>,
    count: nat,
)
    requires
        count <= extents.len(),
    ensures
        all_classified(device, tree, extents, count) matches Ok(out) ==> out.len() == count
            && forall|i: int|
            0 <= i < count ==> match catalog::record_value(
                device,
                tree,
                extents[i].phys_block_num,
                JObjType::Extent,
            ) {
                Ok(Some(value)) => value.len() >= 20 && (#[trigger] out[i]).refcnt == Some(
                    bytes::le_i32(value, 16),
                ),
                Ok(None) => out[i].refcnt is None,
                Err(_) => false,
            },
    decreases count,
{
    if count > 0 {
        law_extents_have_their_reference_counts(device, tree, extents, (count - 1) as nat);
    }
}

} // verus!
