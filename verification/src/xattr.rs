//! Extended attributes (`j_xattr` records).
//!
//! An extended attribute either holds its data in its record, or names the data
//! stream that holds it.

use vstd::prelude::*;

use crate::bytes;
use crate::catalog;
use crate::catalog::{
    Catalog, CatalogRecord, FromRecord, J_KEY_SIZE, JObjType, RecordView, Selection,
};
use crate::error;
use crate::error::ApfsError;
use crate::extent;
use crate::extent::{DataStream, File, FileExtent, FileView};
use crate::io;
use crate::io::{Device, Reader};
use crate::text;

verus! {

/// Size of the fixed part of a `j_xattr_val_t` (before the data).
pub const J_XATTR_VAL_HEADER_SIZE: usize = 4;

/// Size of the object id at the start of a `j_xattr_dstream_t`.
pub const XATTR_OBJ_ID_SIZE: usize = 8;

/// Extended-attribute flags (`j_xattr_flags`).
#[derive(Debug, Clone, Copy, PartialEq, Eq, Structural)]
pub struct XattrFlags(pub u16);

impl XattrFlags {
    /// The data is stored in a data stream.
    pub const DATA_STREAM: u16 = 0x0001;

    /// The data is stored in the record.
    pub const DATA_EMBEDDED: u16 = 0x0002;

    /// The raw bits of the set.
    #[must_use]
    pub fn bits(self) -> (bits: u16)
        ensures
            bits == self.0,
    {
        self.0
    }

    /// The set with the given bits, known or not.
    #[must_use]
    pub fn from_bits_retain(bits: u16) -> (flags: XattrFlags)
        ensures
            flags == XattrFlags(bits),
    {
        XattrFlags(bits)
    }

    /// Whether every bit of `flag` is set.
    pub open spec fn has(self, flag: u16) -> bool {
        self.0 & flag == flag
    }

    /// Whether every bit of `flag` is set.
    #[must_use]
    pub fn contains(self, flag: u16) -> (set: bool)
        ensures
            set == self.has(flag),
    {
        self.0 & flag == flag
    }
}

/// Where the data of an extended attribute is.
#[derive(Debug, Clone, PartialEq, Eq)]
pub enum XattrValue {
    /// The data itself.
    Embedded(Vec<u8>),
    /// The data stream that holds the data.
    Stream(u64, DataStream),
}

/// The content of an [`XattrValue`].
pub enum XattrValueView {
    /// The data itself.
    Embedded(Seq<u8>),
    /// The data stream that holds the data.
    Stream(u64, DataStream),
}

impl View for XattrValue {
    type V = XattrValueView;

    open spec fn view(&self) -> XattrValueView {
        match *self {
            XattrValue::Embedded(data) => XattrValueView::Embedded(data@),
            XattrValue::Stream(obj_id, stream) => XattrValueView::Stream(obj_id, stream),
        }
    }
}

/// An extended attribute.
#[derive(Debug, Clone, PartialEq, Eq)]
pub struct Xattr {
    /// The attribute's name (UTF-8, without the trailing NUL).
    pub name: String,
    /// The attribute's flags.
    pub flags: XattrFlags,
    /// The attribute's data, or where it is.
    pub value: XattrValue,
}

/// The content of an [`Xattr`].
pub struct XattrView {
    /// The attribute's name.
    pub name: Seq<char>,
    /// The attribute's flags.
    pub flags: XattrFlags,
    /// The attribute's data, or where it is.
    pub value: XattrValueView,
}

impl View for Xattr {
    type V = XattrView;

    open spec fn view(&self) -> XattrView {
        XattrView { name: self.name@, flags: self.flags, value: self.value@ }
    }
}

/// The name in the key of an extended-attribute record.
pub open spec fn xattr_name_of(key: Seq<u8>) -> Result<Seq<char>, ApfsError> {
    if key.len() < J_KEY_SIZE + 2 {
        error::truncated("j_xattr_key_t", J_KEY_SIZE + 2, key.len())
    } else {
        match bytes::range(
            key,
            J_KEY_SIZE + 2,
            J_KEY_SIZE + 2 + bytes::le_u16(key, J_KEY_SIZE as int),
        ) {
            None => error::malformed("j_xattr_key_t", "name extends past the record key"),
            Some(raw) => Ok(text::decoded(bytes::before_nul(raw))),
        }
    }
}

/// The data in the value of an extended-attribute record, or the stream that it
/// names.
pub open spec fn xattr_value_of(value: Seq<u8>) -> Result<XattrValueView, ApfsError> {
    if value.len() < J_XATTR_VAL_HEADER_SIZE {
        error::truncated("j_xattr_val_t", J_XATTR_VAL_HEADER_SIZE as int, value.len())
    } else {
        match bytes::range(
            value,
            J_XATTR_VAL_HEADER_SIZE as int,
            J_XATTR_VAL_HEADER_SIZE + bytes::le_u16(value, 2),
        ) {
            None => error::malformed("j_xattr_val_t", "data extends past the record value"),
            Some(data) => if !XattrFlags(bytes::le_u16(value, 0)).has(XattrFlags::DATA_STREAM) {
                Ok(XattrValueView::Embedded(data))
            } else if data.len() < XATTR_OBJ_ID_SIZE {
                error::truncated("j_xattr_dstream_t", XATTR_OBJ_ID_SIZE as int, data.len())
            } else {
                match extent::data_stream_of(data.skip(XATTR_OBJ_ID_SIZE as int)) {
                    Err(error) => Err(error),
                    Ok(stream) => Ok(XattrValueView::Stream(bytes::le_u64(data, 0), stream)),
                }
            },
        }
    }
}

/// The extended attribute in a record.
pub open spec fn xattr_of(key: Seq<u8>, value: Seq<u8>) -> Result<XattrView, ApfsError> {
    match xattr_name_of(key) {
        Err(error) => Err(error),
        Ok(name) => match xattr_value_of(value) {
            Err(error) => Err(error),
            Ok(found) => Ok(
                XattrView { name, flags: XattrFlags(bytes::le_u16(value, 0)), value: found },
            ),
        },
    }
}

/// Parses the name in the key of an extended-attribute record.
fn parse_name(key: &[u8]) -> (parsed: Result<String, ApfsError>)
    ensures
        error::viewed(parsed) == xattr_name_of(key@),
{
    if key.len() < J_KEY_SIZE + 2 {
        return Err(
            ApfsError::Truncated {
                structure: "j_xattr_key_t",
                expected: J_KEY_SIZE + 2,
                actual: key.len(),
            },
        );
    }
    let end: usize = J_KEY_SIZE + 2 + bytes::read_u16(key, J_KEY_SIZE) as usize;
    match bytes::get_range(key, J_KEY_SIZE + 2, end) {
        None => Err(
            ApfsError::Malformed {
                structure: "j_xattr_key_t",
                reason: "name extends past the record key",
            },
        ),
        Some(raw) => Ok(text::decode(bytes::until_nul(raw))),
    }
}

/// Parses the value of an extended-attribute record.
fn parse_value(value: &[u8]) -> (parsed: Result<XattrValue, ApfsError>)
    ensures
        error::viewed(parsed) == xattr_value_of(value@),
{
    if value.len() < J_XATTR_VAL_HEADER_SIZE {
        return Err(
            ApfsError::Truncated {
                structure: "j_xattr_val_t",
                expected: J_XATTR_VAL_HEADER_SIZE,
                actual: value.len(),
            },
        );
    }
    let flags: XattrFlags = XattrFlags::from_bits_retain(bytes::read_u16(value, 0));
    let end: usize = J_XATTR_VAL_HEADER_SIZE + bytes::read_u16(value, 2) as usize;
    let data: &[u8] = match bytes::get_range(value, J_XATTR_VAL_HEADER_SIZE, end) {
        Some(data) => data,
        None => {
            return Err(
                ApfsError::Malformed {
                    structure: "j_xattr_val_t",
                    reason: "data extends past the record value",
                },
            );
        },
    };
    if !flags.contains(XattrFlags::DATA_STREAM) {
        return Ok(XattrValue::Embedded(vstd::slice::slice_to_vec(data)));
    }
    if data.len() < XATTR_OBJ_ID_SIZE {
        return Err(
            ApfsError::Truncated {
                structure: "j_xattr_dstream_t",
                expected: XATTR_OBJ_ID_SIZE,
                actual: data.len(),
            },
        );
    }
    match DataStream::parse(bytes::skip_bytes(data, XATTR_OBJ_ID_SIZE)) {
        Ok(stream) => Ok(XattrValue::Stream(bytes::read_u64(data, 0), stream)),
        Err(error) => Err(error),
    }
}

/// Parses an extended-attribute record into an [`Xattr`].
pub fn parse_xattr(key: &[u8], value: &[u8]) -> (parsed: Result<Xattr, ApfsError>)
    ensures
        error::viewed(parsed) == xattr_of(key@, value@),
{
    let name: String = match parse_name(key) {
        Ok(name) => name,
        Err(error) => return Err(error),
    };
    let found: XattrValue = match parse_value(value) {
        Ok(found) => found,
        Err(error) => return Err(error),
    };
    let flags: XattrFlags = XattrFlags::from_bits_retain(bytes::read_u16(value, 0));
    Ok(Xattr { name, flags, value: found })
}

impl FromRecord<()> for Xattr {
    open spec fn spec_kind() -> JObjType {
        JObjType::Xattr
    }

    fn record_kind() -> (kind: JObjType) {
        JObjType::Xattr
    }

    open spec fn item_of(param: (), record: RecordView) -> Result<XattrView, ApfsError> {
        xattr_of(record.key, record.value)
    }

    fn read_item(param: (), record: &CatalogRecord) -> (item: Result<Xattr, ApfsError>) {
        parse_xattr(record.key.as_slice(), record.value.as_slice())
    }
}

/// The extended attributes of an object.
pub open spec fn xattrs_of(device: Device, catalog: Catalog, obj_id: u64) -> Result<
    Seq<XattrView>,
    ApfsError,
> {
    catalog::catalog_items::<(), Xattr>(device, catalog, Selection::Object(obj_id), ())
}

/// The data of an extended attribute.
pub open spec fn xattr_data(
    device: Device,
    catalog: Catalog,
    block_size: u32,
    value: XattrValueView,
) -> Result<Seq<u8>, ApfsError> {
    match value {
        XattrValueView::Embedded(data) => Ok(data),
        XattrValueView::Stream(obj_id, stream) => match extent::catalog_extents(
            device,
            catalog,
            obj_id,
        ) {
            Err(error) => Err(error),
            Ok(extents) => extent::whole_content(
                device,
                block_size,
                FileView { size: stream.size, extents },
            ),
        },
    }
}

impl Xattr {
    /// Lists the extended attributes of the object `obj_id`.
    pub fn list<T: Reader>(catalog: &Catalog, reader: &mut T, obj_id: u64) -> (xattrs: Result<
        Vec<Xattr>,
        ApfsError,
    >)
        ensures
            final(reader).device() == old(reader).device(),
            error::viewed_all(xattrs) == xattrs_of(old(reader).device(), *catalog, obj_id),
    {
        match catalog.records_for(reader, obj_id) {
            Ok(records) => catalog::read_items::<(), Xattr>((), &records),
            Err(error) => Err(error),
        }
    }

    /// Reads the attribute's data.
    pub fn read<T: Reader>(&self, catalog: &Catalog, reader: &mut T, block_size: u32) -> (data:
        Result<Vec<u8>, ApfsError>)
        ensures
            final(reader).device() == old(reader).device(),
            error::viewed(data) == xattr_data(
                old(reader).device(),
                *catalog,
                block_size,
                self@.value,
            ),
    {
        match &self.value {
            XattrValue::Embedded(data) => Ok(vstd::slice::slice_to_vec(data.as_slice())),
            XattrValue::Stream(obj_id, stream) => match File::open(
                catalog,
                reader,
                *obj_id,
                stream.size,
            ) {
                Ok(file) => file.read_all(reader, block_size),
                Err(error) => Err(error),
            },
        }
    }
}

/// The content of an attribute is its embedded data, or as many bytes as its stream's size
/// says, which lie where the extents of the stream's object map them, and are zero where
/// none does. The bytes are so on a device whose content does not change, of extents no two
/// of which hold the same byte.
pub proof fn law_attribute_content(
    device: Device,
    content: spec_fn(nat) -> u8,
    catalog: Catalog,
    block_size: u32,
    value: XattrValueView,
    extents: Seq<FileExtent>,
)
    ensures
        value matches XattrValueView::Embedded(data) ==> xattr_data(
            device,
            catalog,
            block_size,
            value,
        ) == Ok::<Seq<u8>, ApfsError>(data),
        value matches XattrValueView::Stream(obj_id, stream) ==> {
            &&& xattr_data(device, catalog, block_size, value) matches Ok(found) ==> found.len()
                == stream.size
            &&& io::is_steady(device, content) && extent::is_disjoint(extents)
                && extent::catalog_extents(device, catalog, obj_id) == Ok::<
                Seq<FileExtent>,
                ApfsError,
            >(extents) ==> (xattr_data(device, catalog, block_size, value) matches Ok(found)
                ==> forall|i: int|
                0 <= i < found.len() ==> #[trigger] found[i] == extent::steady_byte(
                    content,
                    block_size,
                    extents,
                    i,
                ))
        },
{
    if let XattrValueView::Stream(obj_id, stream) = value {
        if let Ok(found) = xattr_data(device, catalog, block_size, value) {
            let stored = extent::catalog_extents(device, catalog, obj_id)->Ok_0;
            let file = FileView { size: stream.size, extents: stored };
            extent::law_read_has_the_length(device, block_size, file, 0, 0);
            if io::is_steady(device, content) && extent::is_disjoint(stored) {
                extent::law_read_gives_device_bytes(
                    device,
                    content,
                    block_size,
                    file,
                    0,
                    stream.size as nat,
                );
            }
        }
    }
}

} // verus!
