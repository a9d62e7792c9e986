//! Extended fields (`xf_blob_t` / `x_field_t`).
//!
//! Inodes and directory records carry a variable trailing region of extended
//! fields: an [`xf_blob_t`](ExtendedFields) header followed by `x_field_t`
//! descriptors and eight-byte-aligned packed values. Extended fields hold the
//! file name, data-stream info, document id, sparse byte count, and more.

use vstd::prelude::*;

use crate::bytes;
use crate::error;
use crate::error::ApfsError;

verus! {

/// Size of the `xf_blob_t` header (`xf_num_exts` and `xf_used_data`).
pub const XF_BLOB_HEADER_SIZE: usize = 4;

/// Size of an `x_field_t` descriptor.
pub const X_FIELD_SIZE: usize = 4;

/// The transaction id of the snapshot the inode belongs to.
pub const INO_EXT_TYPE_SNAP_XID: u8 = 1;

/// The object id of the inode's delta tree.
pub const INO_EXT_TYPE_DELTA_TREE_OID: u8 = 2;

/// The inode's document id.
pub const INO_EXT_TYPE_DOCUMENT_ID: u8 = 3;

/// The inode's name (the primary link name).
pub const INO_EXT_TYPE_NAME: u8 = 4;

/// The inode's previous file size.
pub const INO_EXT_TYPE_PREV_FSIZE: u8 = 5;

/// The inode's Finder info.
pub const INO_EXT_TYPE_FINDER_INFO: u8 = 7;

/// The inode's data stream (`j_dstream_t`).
pub const INO_EXT_TYPE_DSTREAM: u8 = 8;

/// The directory-statistics key of the inode.
pub const INO_EXT_TYPE_DIR_STATS_KEY: u8 = 10;

/// The file-system UUID the inode belongs to.
pub const INO_EXT_TYPE_FS_UUID: u8 = 11;

/// The number of sparse bytes in the inode's data.
pub const INO_EXT_TYPE_SPARSE_BYTES: u8 = 13;

/// The device identifier of a device-node inode.
pub const INO_EXT_TYPE_RDEV: u8 = 14;

/// Purgeable-state flags of the inode.
pub const INO_EXT_TYPE_PURGEABLE_FLAGS: u8 = 15;

/// The inode's original sync-root id.
pub const INO_EXT_TYPE_ORIG_SYNC_ROOT_ID: u8 = 16;

/// Directory-record extended-field type: a sibling identifier.
pub const DREC_EXT_TYPE_SIBLING_ID: u8 = 1;

/// Extended-field flags (`x_flags`).
#[derive(Debug, Clone, Copy, PartialEq, Eq, Structural)]
pub struct XfFlags(pub u8);

impl XfFlags {
    /// The field's data depends on the file's data and is invalidated when the
    /// file is modified.
    pub const DATA_DEPENDENT: u8 = 0x01;

    /// The field is not copied when the file is cloned.
    pub const DO_NOT_COPY: u8 = 0x02;

    /// Child files inherit this field.
    pub const CHILDREN_INHERIT: u8 = 0x08;

    /// The field was added by a user-space program.
    pub const USER_FIELD: u8 = 0x10;

    /// The field was added by the kernel.
    pub const SYSTEM_FIELD: u8 = 0x20;

    /// The raw bits of the set.
    #[must_use]
    pub fn bits(self) -> (bits: u8)
        ensures
            bits == self.0,
    {
        self.0
    }

    /// The set with the given bits, known or not.
    #[must_use]
    pub fn from_bits_retain(bits: u8) -> (flags: XfFlags)
        ensures
            flags == XfFlags(bits),
    {
        XfFlags(bits)
    }

    /// Whether every bit of `flag` is set.
    pub open spec fn has(self, flag: u8) -> bool {
        self.0 & flag == flag
    }

    /// Whether every bit of `flag` is set.
    #[must_use]
    pub fn contains(self, flag: u8) -> (set: bool)
        ensures
            set == self.has(flag),
    {
        self.0 & flag == flag
    }
}

/// One parsed extended field.
#[derive(Debug, Clone, PartialEq, Eq)]
pub struct XField {
    /// The field's type (`x_type`): interpret against `INO_EXT_TYPE_*` for an
    /// inode's fields or `DREC_EXT_TYPE_*` for a directory record's.
    pub field_type: u8,
    /// The field's flags.
    pub flags: XfFlags,
    /// The field's data value.
    pub data: Vec<u8>,
}

/// The content of an [`XField`].
#[verifier::ext_equal]
pub struct XFieldView {
    /// The field's type.
    pub field_type: u8,
    /// The field's flags.
    pub flags: XfFlags,
    /// The field's data value.
    pub data: Seq<u8>,
}

impl View for XField {
    type V = XFieldView;

    open spec fn view(&self) -> XFieldView {
        XFieldView { field_type: self.field_type, flags: self.flags, data: self.data@ }
    }
}

/// A parsed collection of extended fields (`xf_blob_t`).
///
/// Its view is the sequence of its fields.
#[derive(Debug, Clone, PartialEq, Eq)]
pub struct ExtendedFields {
    /// The fields, in stored order.
    pub fields: Vec<XField>,
}

impl View for ExtendedFields {
    type V = Seq<XFieldView>;

    open spec fn view(&self) -> Seq<XFieldView> {
        error::views(self.fields@)
    }
}

impl Default for ExtendedFields {
    fn default() -> (fields: ExtendedFields)
        ensures
            fields@ == Seq::<XFieldView>::empty(),
    {
        let fields: ExtendedFields = ExtendedFields { fields: Vec::new() };
        assert(fields@ =~= Seq::<XFieldView>::empty());
        fields
    }
}

/// The number of fields of a region.
pub open spec fn field_count(region: Seq<u8>) -> int {
    bytes::le_u16(region, 0) as int
}

/// The end of the part of a region that is in use: the descriptors and their
/// values. What follows is slack.
pub open spec fn blob_end(region: Seq<u8>) -> int {
    XF_BLOB_HEADER_SIZE + bytes::le_u16(region, 2)
}

/// The end of the descriptors, where the values start.
pub open spec fn descriptors_end(region: Seq<u8>) -> int {
    XF_BLOB_HEADER_SIZE + field_count(region) * X_FIELD_SIZE
}

/// Where the descriptor of field `index` stands.
pub open spec fn descriptor_at(index: int) -> int {
    XF_BLOB_HEADER_SIZE + index * X_FIELD_SIZE
}

/// The size of the value of field `index`.
pub open spec fn value_size(region: Seq<u8>, index: int) -> int {
    bytes::le_u16(region, descriptor_at(index) + 2) as int
}

/// `value` rounded up to the next multiple of eight.
pub open spec fn aligned(value: int) -> int {
    (value + 7) / 8 * 8
}

/// Where the value of field `index` starts: each value takes its size rounded
/// up to a multiple of eight.
pub open spec fn value_start(region: Seq<u8>, index: nat) -> int
    decreases index,
{
    if index == 0 {
        descriptors_end(region)
    } else {
        value_start(region, (index - 1) as nat) + aligned(value_size(region, index - 1))
    }
}

/// The field `index` of a region.
pub open spec fn field_at(region: Seq<u8>, index: nat) -> Result<XFieldView, ApfsError> {
    let start = value_start(region, index);
    let end = start + value_size(region, index as int);
    if end > blob_end(region) {
        error::malformed("x_field_t", "extended-field value extends past the region")
    } else {
        Ok(
            XFieldView {
                field_type: region[descriptor_at(index as int)],
                flags: XfFlags(region[descriptor_at(index as int) + 1]),
                data: region.subrange(start, end),
            },
        )
    }
}

/// The first `count` fields of a region.
pub open spec fn first_fields(region: Seq<u8>, count: nat) -> Result<Seq<XFieldView>, ApfsError>
    decreases count,
{
    if count == 0 {
        Ok(Seq::empty())
    } else {
        match first_fields(region, (count - 1) as nat) {
            Err(error) => Err(error),
            Ok(before) => match field_at(region, (count - 1) as nat) {
                Err(error) => Err(error),
                Ok(field) => Ok(before.push(field)),
            },
        }
    }
}

/// The extended fields in a region.
pub open spec fn fields_of(region: Seq<u8>) -> Result<Seq<XFieldView>, ApfsError> {
    if region.len() == 0 {
        Ok(Seq::empty())
    } else if region.len() < XF_BLOB_HEADER_SIZE {
        error::truncated("xf_blob_t", XF_BLOB_HEADER_SIZE as int, region.len())
    } else if blob_end(region) > region.len() {
        error::malformed("xf_blob_t", "xf_used_data exceeds the region")
    } else if descriptors_end(region) > blob_end(region) {
        error::malformed("xf_blob_t", "extended-field descriptors exceed the region")
    } else {
        first_fields(region, field_count(region) as nat)
    }
}

/// The first field of the given type.
pub open spec fn first_of_type(fields: Seq<XFieldView>, field_type: u8) -> Option<XFieldView>
    decreases fields.len(),
{
    if fields.len() == 0 {
        None
    } else if fields[0].field_type == field_type {
        Some(fields[0])
    } else {
        first_of_type(fields.drop_first(), field_type)
    }
}

/// The data of the first field of the given type.
pub open spec fn data_of_type(fields: Seq<XFieldView>, field_type: u8) -> Option<Seq<u8>> {
    match first_of_type(fields, field_type) {
        Some(field) => Some(field.data),
        None => None,
    }
}

proof fn lemma_first_fields_error(
    region: Seq<u8>,
    some: nat,
    all: nat,
    error: ApfsError,
)
    requires
        some <= all,
        first_fields(region, some) == Err::<Seq<XFieldView>, ApfsError>(error),
    ensures
        first_fields(region, all) == Err::<Seq<XFieldView>, ApfsError>(error),
    decreases all,
{
    if some < all {
        lemma_first_fields_error(region, some, (all - 1) as nat, error);
    }
}

proof fn lemma_first_fields_of_prefix(region: Seq<u8>, slack: Seq<u8>, count: nat)
    requires
        XF_BLOB_HEADER_SIZE <= blob_end(region) <= region.len(),
        descriptors_end(region) <= blob_end(region),
        count <= field_count(region),
    ensures
        value_start(region + slack, count) == value_start(region, count),
        value_start(region, count) >= descriptors_end(region),
        first_fields(region + slack, count) == first_fields(region, count),
    decreases count,
{
    if count > 0 {
        let longer = region + slack;
        let last = (count - 1) as nat;
        lemma_first_fields_of_prefix(region, slack, last);
        let start = value_start(region, last);
        let end = start + value_size(region, last as int);
        assert(value_size(longer, last as int) == value_size(region, last as int));
        if end <= blob_end(region) {
            assert(longer.subrange(start, end) =~= region.subrange(start, end));
        }
        assert(field_at(longer, last) == field_at(region, last));
    }
}

/// Bytes past the part of a region that is in use are never taken as field
/// data.
pub proof fn law_slack_is_ignored(region: Seq<u8>, slack: Seq<u8>)
    requires
        region.len() >= XF_BLOB_HEADER_SIZE,
        blob_end(region) <= region.len(),
    ensures
        fields_of(region + slack) == fields_of(region),
{
    assert(blob_end(region + slack) == blob_end(region));
    if descriptors_end(region) <= blob_end(region) {
        lemma_first_fields_of_prefix(region, slack, field_count(region) as nat);
    }
}

proof fn lemma_value_start_in_order(region: Seq<u8>, first: nat, second: nat)
    requires
        first < second,
    ensures
        value_start(region, first) + value_size(region, first as int) <= value_start(
            region,
            second,
        ),
        value_start(region, second) >= descriptors_end(region),
    decreases second,
{
    if first + 1 < second {
        lemma_value_start_in_order(region, first, (second - 1) as nat);
    } else {
        lemma_value_start_after_descriptors(region, first);
    }
}

proof fn lemma_value_start_after_descriptors(region: Seq<u8>, index: nat)
    ensures
        value_start(region, index) >= descriptors_end(region),
    decreases index,
{
    if index > 0 {
        lemma_value_start_after_descriptors(region, (index - 1) as nat);
    }
}

/// The values of two fields do not overlap, and none overlaps the descriptors.
pub proof fn law_values_do_not_overlap(region: Seq<u8>, first: nat, second: nat)
    requires
        first < second,
    ensures
        descriptors_end(region) <= value_start(region, first),
        value_start(region, first) + value_size(region, first as int) <= value_start(
            region,
            second,
        ),
{
    lemma_value_start_in_order(region, first, second);
    lemma_value_start_after_descriptors(region, first);
}

impl ExtendedFields {
    /// Parses an extended-fields region (the `xfields` of an inode or
    /// directory record).
    ///
    /// An empty region parses to an empty collection.
    pub fn parse(region: &[u8]) -> (parsed: Result<ExtendedFields, ApfsError>)
        ensures
            error::viewed(parsed) == fields_of(region@),
    {
        if region.len() == 0 {
            return Ok(ExtendedFields::default());
        }
        if region.len() < XF_BLOB_HEADER_SIZE {
            return Err(
                ApfsError::Truncated {
                    structure: "xf_blob_t",
                    expected: XF_BLOB_HEADER_SIZE,
                    actual: region.len(),
                },
            );
        }
        let count: u16 = bytes::read_u16(region, 0);
        let end: usize = XF_BLOB_HEADER_SIZE + bytes::read_u16(region, 2) as usize;
        // Bytes past the used part are trailing slack and must not be taken
        // as field data, even when the region itself is longer.
        if end > region.len() {
            return Err(
                ApfsError::Malformed {
                    structure: "xf_blob_t",
                    reason: "xf_used_data exceeds the region",
                },
            );
        }
        let values: usize = XF_BLOB_HEADER_SIZE + count as usize * X_FIELD_SIZE;
        if values > end {
            return Err(
                ApfsError::Malformed {
                    structure: "xf_blob_t",
                    reason: "extended-field descriptors exceed the region",
                },
            );
        }
        let mut fields: Vec<XField> = Vec::new();
        let mut cursor: usize = values;
        let mut i: usize = 0;
        proof {
            assert(error::views(fields@) =~= Seq::<XFieldView>::empty());
        }
        while i < count as usize
            invariant
                i <= count == field_count(region@),
                end == blob_end(region@) <= region@.len(),
                values == descriptors_end(region@) <= end,
                region@.len() >= XF_BLOB_HEADER_SIZE,
                cursor == value_start(region@, i as nat) <= end + 7,
                fields_of(region@) == first_fields(region@, count as nat),
                first_fields(region@, i as nat) == Ok::<Seq<XFieldView>, ApfsError>(
                    error::views(fields@),
                ),
            decreases count - i,
        {
            let desc: usize = XF_BLOB_HEADER_SIZE + i * X_FIELD_SIZE;
            let size: usize = bytes::read_u16(region, desc + 2) as usize;
            if cursor > end || size > end - cursor {
                proof {
                    lemma_first_fields_error(
                        region@,
                        (i + 1) as nat,
                        count as nat,
                        field_at(region@, i as nat)->Err_0,
                    );
                }
                return Err(
                    ApfsError::Malformed {
                        structure: "x_field_t",
                        reason: "extended-field value extends past the region",
                    },
                );
            }
            proof {
                lemma_value_start_after_descriptors(region@, i as nat);
            }
            let field: XField = XField {
                field_type: region[desc],
                flags: XfFlags::from_bits_retain(region[desc + 1]),
                data: vstd::slice::slice_to_vec(
                    vstd::slice::slice_subrange(region, cursor, cursor + size),
                ),
            };
            proof {
                assert(error::views(fields@.push(field)) =~= error::views(fields@).push(field@));
            }
            fields.push(field);
            // Values are aligned to eight-byte boundaries.
            cursor += (size + 7) / 8 * 8;
            i += 1;
        }
        Ok(ExtendedFields { fields })
    }

    /// Returns the first field of type `field_type`, if present.
    #[must_use]
    pub fn field(&self, field_type: u8) -> (found: Option<&XField>)
        ensures
            match found {
                Some(field) => first_of_type(self@, field_type) == Some(field@),
                None => first_of_type(self@, field_type) is None,
            },
    {
        let ghost all = self@;
        let mut i: usize = 0;
        proof {
            assert(all.skip(0) =~= all);
        }
        while i < self.fields.len()
            invariant
                i <= self.fields@.len(),
                all == self@,
                first_of_type(all, field_type) == first_of_type(all.skip(i as int), field_type),
            decreases self.fields@.len() - i,
        {
            if self.fields[i].field_type == field_type {
                return Some(&self.fields[i]);
            }
            proof {
                assert(all.skip(i as int).drop_first() =~= all.skip(i + 1));
            }
            i += 1;
        }
        None
    }

    /// The inode's name from its `INO_EXT_TYPE_NAME` field, if present.
    ///
    /// Used for hard-linked files, where the name of each link is stored as
    /// an extended field rather than only in the directory entry.
    #[must_use]
    pub fn inode_name(&self) -> (name: Option<&[u8]>)
        ensures
            match name {
                Some(data) => data_of_type(self@, INO_EXT_TYPE_NAME) == Some(data@),
                None => data_of_type(self@, INO_EXT_TYPE_NAME) is None,
            },
    {
        match self.field(INO_EXT_TYPE_NAME) {
            Some(field) => Some(field.data.as_slice()),
            None => None,
        }
    }

    /// The inode's data-stream bytes from its `INO_EXT_TYPE_DSTREAM` field, if
    /// present (a `j_dstream_t`, parsed by the data-stream module).
    #[must_use]
    pub fn dstream(&self) -> (stream: Option<&[u8]>)
        ensures
            match stream {
                Some(data) => data_of_type(self@, INO_EXT_TYPE_DSTREAM) == Some(data@),
                None => data_of_type(self@, INO_EXT_TYPE_DSTREAM) is None,
            },
    {
        match self.field(INO_EXT_TYPE_DSTREAM) {
            Some(field) => Some(field.data.as_slice()),
            None => None,
        }
    }

    /// The number of sparse (hole) bytes in the inode's data, from its
    /// `INO_EXT_TYPE_SPARSE_BYTES` field, if present.
    #[must_use]
    pub fn sparse_byte_count(&self) -> (count: Option<u64>)
        ensures
            count == match data_of_type(self@, INO_EXT_TYPE_SPARSE_BYTES) {
                Some(data) => if data.len() >= 8 {
                    Some(bytes::le_u64(data, 0))
                } else {
                    None
                },
                None => None,
            },
    {
        match self.field(INO_EXT_TYPE_SPARSE_BYTES) {
            Some(field) => if field.data.len() >= 8 {
                Some(bytes::read_u64(field.data.as_slice(), 0))
            } else {
                None
            },
            None => None,
        }
    }
}

/// The field of a type is the first field that has the type, and there is none exactly
/// where no field has it.
pub proof fn law_first_field_of_a_type(fields: Seq<XFieldView>, field_type: u8)
    ensures
        forall|i: int|
            0 <= i < fields.len() && (#[trigger] fields[i]).field_type == field_type && (forall|
                j: int,
            |
                0 <= j < i ==> (#[trigger] fields[j]).field_type != field_type) ==> first_of_type(
                fields,
                field_type,
            ) == Some(fields[i]) && data_of_type(fields, field_type) == Some(fields[i].data),
        (forall|i: int| 0 <= i < fields.len() ==> (#[trigger] fields[i]).field_type != field_type)
            <==> data_of_type(fields, field_type) is None,
    decreases fields.len(),
{
    if fields.len() > 0 && fields[0].field_type != field_type {
        let rest = fields.drop_first();
        law_first_field_of_a_type(rest, field_type);
        assert forall|i: int|
            0 <= i < fields.len() && (#[trigger] fields[i]).field_type == field_type && (forall|
                j: int,
            |
                0 <= j < i ==> (#[trigger] fields[j]).field_type
                    != field_type) implies first_of_type(fields, field_type) == Some(
            fields[i],
        ) by {
            assert(rest[i - 1] == fields[i]);
            assert forall|j: int| 0 <= j < i - 1 implies (#[trigger] rest[j]).field_type
                != field_type by {
                assert(rest[j] == fields[j + 1]);
            }
        }
        if data_of_type(fields, field_type) is None {
            assert forall|i: int| 0 <= i < fields.len() implies (#[trigger] fields[i]).field_type
                != field_type by {
                if i > 0 {
                    assert(rest[i - 1] == fields[i]);
                }
            }
        } else {
            let i = choose|i: int|
                0 <= i < rest.len() && (#[trigger] rest[i]).field_type == field_type;
            assert(fields[i + 1] == rest[i]);
        }
    }
}

/// The fields of a region are given wherever the bytes that it uses lie in it, the descriptions
/// lie in these, and so does each value; and then there is one field for each description, in
/// their order.
pub proof fn law_whole_region_gives_its_fields(region: Seq<u8>)
    requires
        region.len() >= 4,
        4 + bytes::le_u16(region, 2) <= region.len(),
        4 + 4 * bytes::le_u16(region, 0) <= 4 + bytes::le_u16(region, 2),
        forall|i: nat|
            i < bytes::le_u16(region, 0) ==> #[trigger] value_start(region, i) + bytes::le_u16(
                region,
                4 + 4 * i as int + 2,
            ) <= 4 + bytes::le_u16(region, 2),
    ensures
        fields_of(region) matches Ok(fields) && fields.len() == bytes::le_u16(region, 0) && forall|
            i: nat,
        |
            i < fields.len() ==> #[trigger] field_at(region, i) == Ok::<XFieldView, ApfsError>(
                fields[i as int],
            ),
{
    lemma_fields_are_given(region, bytes::le_u16(region, 0) as nat);
}

proof fn lemma_fields_are_given(region: Seq<u8>, count: nat)
    requires
        forall|i: nat|
            i < count ==> #[trigger] value_start(region, i) + bytes::le_u16(
                region,
                4 + 4 * i as int + 2,
            ) <= 4 + bytes::le_u16(region, 2),
    ensures
        first_fields(region, count) matches Ok(fields) && fields.len() == count && forall|i: nat|
            i < count ==> #[trigger] field_at(region, i) == Ok::<XFieldView, ApfsError>(
                fields[i as int],
            ),
    decreases count,
{
    if count > 0 {
        let last = (count - 1) as nat;
        lemma_fields_are_given(region, last);
        assert(value_start(region, last) + bytes::le_u16(region, 4 + 4 * last as int + 2) <= 4
            + bytes::le_u16(region, 2));
        assert(field_at(region, last) is Ok);
        let before = first_fields(region, last)->Ok_0;
        let fields = first_fields(region, count)->Ok_0;
        assert forall|i: nat| i < count implies #[trigger] field_at(region, i) == Ok::<
            XFieldView,
            ApfsError,
        >(fields[i as int]) by {
            if i < last {
                assert(fields[i as int] == before[i as int]);
            }
        }
    }
}

} // verus!
