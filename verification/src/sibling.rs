//! Hard-link siblings (`j_sibling_link` / `j_sibling_map` records).
//!
//! A hard-linked file has one inode and several directory entries; APFS records
//! each link as a *sibling*. Sibling-link records find every link of an inode;
//! sibling-map records map a sibling identifier back to its inode.

use vstd::prelude::*;

use crate::bytes;
use crate::catalog;
use crate::catalog::{
    Catalog, CatalogRecord, FromRecord, J_KEY_SIZE, JObjType, RecordView, Selection,
};
use crate::error;
use crate::error::ApfsError;
use crate::io::{Device, Reader};
use crate::text;

verus! {

/// Size of the fixed part of a `j_sibling_val_t` (before the name).
pub const J_SIBLING_VAL_SIZE: usize = 10;

/// Size of a `j_sibling_map_val_t`.
pub const J_SIBLING_MAP_VAL_SIZE: usize = 8;

/// One hard link of an inode (`j_sibling_link` record).
#[derive(Debug, Clone, PartialEq, Eq)]
pub struct SiblingLink {
    /// The sibling's unique identifier.
    pub sibling_id: u64,
    /// Object identifier of the parent directory of this link.
    pub parent_id: u64,
    /// The link's name (UTF-8, without the trailing NUL).
    pub name: String,
}

/// The content of a [`SiblingLink`].
#[verifier::ext_equal]
pub struct SiblingLinkView {
    /// The sibling's unique identifier.
    pub sibling_id: u64,
    /// Object identifier of the parent directory of this link.
    pub parent_id: u64,
    /// The link's name.
    pub name: Seq<char>,
}

impl View for SiblingLink {
    type V = SiblingLinkView;

    open spec fn view(&self) -> SiblingLinkView {
        SiblingLinkView {
            sibling_id: self.sibling_id,
            parent_id: self.parent_id,
            name: self.name@,
        }
    }
}

/// The sibling link in a record: the identifier stands in the key, the parent
/// and the name in the value.
pub open spec fn sibling_link_of(key: Seq<u8>, value: Seq<u8>) -> Result<
    SiblingLinkView,
    ApfsError,
> {
    if key.len() < J_KEY_SIZE + 8 {
        error::truncated("j_sibling_key_t", J_KEY_SIZE + 8, key.len())
    } else if value.len() < J_SIBLING_VAL_SIZE {
        error::truncated("j_sibling_val_t", J_SIBLING_VAL_SIZE as int, value.len())
    } else {
        match bytes::range(
            value,
            J_SIBLING_VAL_SIZE as int,
            J_SIBLING_VAL_SIZE + bytes::le_u16(value, 8),
        ) {
            None => error::malformed("j_sibling_val_t", "name extends past the record value"),
            Some(raw) => Ok(
                SiblingLinkView {
                    sibling_id: bytes::le_u64(key, J_KEY_SIZE as int),
                    parent_id: bytes::le_u64(value, 0),
                    name: text::decoded(bytes::before_nul(raw)),
                },
            ),
        }
    }
}

/// Parses a `j_sibling_link` record into a [`SiblingLink`].
pub fn parse_sibling_link(key: &[u8], value: &[u8]) -> (parsed: Result<SiblingLink, ApfsError>)
    ensures
        error::viewed(parsed) == sibling_link_of(key@, value@),
{
    if key.len() < J_KEY_SIZE + 8 {
        return Err(
            ApfsError::Truncated {
                structure: "j_sibling_key_t",
                expected: J_KEY_SIZE + 8,
                actual: key.len(),
            },
        );
    }
    if value.len() < J_SIBLING_VAL_SIZE {
        return Err(
            ApfsError::Truncated {
                structure: "j_sibling_val_t",
                expected: J_SIBLING_VAL_SIZE,
                actual: value.len(),
            },
        );
    }
    let end: usize = J_SIBLING_VAL_SIZE + bytes::read_u16(value, 8) as usize;
    match bytes::get_range(value, J_SIBLING_VAL_SIZE, end) {
        None => Err(
            ApfsError::Malformed {
                structure: "j_sibling_val_t",
                reason: "name extends past the record value",
            },
        ),
        Some(raw) => Ok(
            SiblingLink {
                sibling_id: bytes::read_u64(key, J_KEY_SIZE),
                parent_id: bytes::read_u64(value, 0),
                name: text::decode(bytes::until_nul(raw)),
            },
        ),
    }
}

impl FromRecord<()> for SiblingLink {
    open spec fn spec_kind() -> JObjType {
        JObjType::SiblingLink
    }

    fn record_kind() -> (kind: JObjType) {
        JObjType::SiblingLink
    }

    open spec fn item_of(param: (), record: RecordView) -> Result<SiblingLinkView, ApfsError> {
        sibling_link_of(record.key, record.value)
    }

    fn read_item(param: (), record: &CatalogRecord) -> (item: Result<SiblingLink, ApfsError>) {
        parse_sibling_link(record.key.as_slice(), record.value.as_slice())
    }
}

impl SiblingLink {
    /// Lists every hard link of the inode `inode_id`.
    ///
    /// An inode with no sibling-link records has a single link; its name and
    /// parent come from its directory entry instead.
    pub fn list<T: Reader>(catalog: &Catalog, reader: &mut T, inode_id: u64) -> (links: Result<
        Vec<SiblingLink>,
        ApfsError,
    >)
        ensures
            final(reader).device() == old(reader).device(),
            error::viewed_all(links) == catalog::catalog_items::<(), SiblingLink>(
                old(reader).device(),
                *catalog,
                Selection::Object(inode_id),
                (),
            ),
    {
        match catalog.records_for(reader, inode_id) {
            Ok(records) => catalog::read_items::<(), SiblingLink>((), &records),
            Err(error) => Err(error),
        }
    }
}

/// The inode that a sibling identifier stands for.
pub open spec fn sibling_inode(device: Device, catalog: Catalog, sibling_id: u64) -> Result<
    Option<u64>,
    ApfsError,
> {
    match catalog::record_value(device, catalog, sibling_id, JObjType::SiblingMap) {
        Err(error) => Err(error),
        Ok(None) => Ok(None),
        Ok(Some(value)) => if value.len() < J_SIBLING_MAP_VAL_SIZE {
            error::truncated("j_sibling_map_val_t", J_SIBLING_MAP_VAL_SIZE as int, value.len())
        } else {
            Ok(Some(bytes::le_u64(value, 0)))
        },
    }
}

/// Resolves a sibling identifier to the inode number of its underlying file
/// (`j_sibling_map` record).
pub fn resolve_sibling<T: Reader>(catalog: &Catalog, reader: &mut T, sibling_id: u64) -> (inode:
    Result<Option<u64>, ApfsError>)
    ensures
        final(reader).device() == old(reader).device(),
        inode == sibling_inode(old(reader).device(), *catalog, sibling_id),
{
    match catalog.find_record(reader, sibling_id, JObjType::SiblingMap) {
        Err(error) => Err(error),
        Ok(None) => Ok(None),
        Ok(Some(value)) => if value.len() < J_SIBLING_MAP_VAL_SIZE {
            Err(
                ApfsError::Truncated {
                    structure: "j_sibling_map_val_t",
                    expected: J_SIBLING_MAP_VAL_SIZE,
                    actual: value.len(),
                },
            )
        } else {
            Ok(Some(bytes::read_u64(value.as_slice(), 0)))
        },
    }
}

/// A hard link's inode is the one in the first eight bytes of its map record.
pub proof fn law_sibling_leads_to_its_inode(device: Device, catalog: Catalog, sibling_id: u64)
    ensures
        match catalog::record_value(device, catalog, sibling_id, JObjType::SiblingMap) {
            Ok(Some(value)) => if value.len() >= 8 {
                sibling_inode(device, catalog, sibling_id) == Ok::<Option<u64>, ApfsError>(
                    Some(bytes::le_u64(value, 0)),
                )
            } else {
                sibling_inode(device, catalog, sibling_id) is Err
            },
            Ok(None) => sibling_inode(device, catalog, sibling_id) == Ok::<
                Option<u64>,
                ApfsError,
            >(None),
            Err(error) => sibling_inode(device, catalog, sibling_id) == Err::<
                Option<u64>,
                ApfsError,
            >(error),
        },
{
}

} // verus!
