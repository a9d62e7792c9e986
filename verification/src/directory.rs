//! Directory entry records (`j_drec_val_t`) and directory enumeration.
//!
//! A directory's children are `DIR_REC` records in the catalog: each links a
//! name to a child object identifier and a file type. On modern volumes the
//! key is the *hashed* form, carrying a precomputed name hash.

use vstd::prelude::*;
use vstd::utf8::*;

use crate::bytes;
use crate::catalog;
use crate::catalog::{
    Catalog, CatalogRecord, FromRecord, J_KEY_SIZE, JObjType, RecordView, Selection,
};
use crate::error;
use crate::error::ApfsError;
use crate::io::{Device, Reader};
use crate::text;
use crate::unicode;

verus! {

/// Mask selecting the name length from a hashed drec key.
pub const J_DREC_LEN_MASK: u32 = 0x0000_03FF;

/// Mask selecting the name hash from a hashed drec key.
pub const J_DREC_HASH_MASK: u32 = 0xFFFF_FC00;

/// Shift selecting the name hash from a hashed drec key.
pub const J_DREC_HASH_SHIFT: u32 = 10;

/// Mask selecting the file type from `j_drec_val_t.flags`.
pub const DREC_TYPE_MASK: u16 = 0x000F;

/// Size of the fixed portion of `j_drec_val_t` (before `xfields`).
pub const J_DREC_VAL_SIZE: usize = 18;

/// The file type recorded in a directory entry (`DT_*`).
#[derive(Debug, Clone, Copy, PartialEq, Eq, Structural)]
pub enum DirEntryType {
    /// Unknown type.
    Unknown,
    /// A named pipe (FIFO).
    Fifo,
    /// A character device.
    CharDevice,
    /// A directory.
    Directory,
    /// A block device.
    BlockDevice,
    /// A regular file.
    Regular,
    /// A symbolic link.
    Symlink,
    /// A socket.
    Socket,
    /// A whiteout entry.
    Whiteout,
    /// A `DT_*` value this parser does not recognize.
    Other(u16),
}

/// The file type in the low four bits of `flags`.
pub open spec fn entry_type_of(flags: u16) -> DirEntryType {
    let kind = flags % 16;
    if kind == 0 {
        DirEntryType::Unknown
    } else if kind == 1 {
        DirEntryType::Fifo
    } else if kind == 2 {
        DirEntryType::CharDevice
    } else if kind == 4 {
        DirEntryType::Directory
    } else if kind == 6 {
        DirEntryType::BlockDevice
    } else if kind == 8 {
        DirEntryType::Regular
    } else if kind == 10 {
        DirEntryType::Symlink
    } else if kind == 12 {
        DirEntryType::Socket
    } else if kind == 14 {
        DirEntryType::Whiteout
    } else {
        DirEntryType::Other(kind)
    }
}

impl DirEntryType {
    /// Decodes the file type from a `j_drec_val_t.flags` field.
    #[must_use]
    pub fn from_flags(flags: u16) -> (kind: DirEntryType)
        ensures
            kind == entry_type_of(flags),
    {
        match flags % 16 {
            0 => DirEntryType::Unknown,
            1 => DirEntryType::Fifo,
            2 => DirEntryType::CharDevice,
            4 => DirEntryType::Directory,
            6 => DirEntryType::BlockDevice,
            8 => DirEntryType::Regular,
            10 => DirEntryType::Symlink,
            12 => DirEntryType::Socket,
            14 => DirEntryType::Whiteout,
            other => DirEntryType::Other(other),
        }
    }
}

/// One entry in a directory.
#[derive(Debug, PartialEq, Eq)]
pub struct DirEntry {
    /// The entry's name (a UTF-8 string, without the trailing NUL).
    pub name: String,
    /// The object identifier of the inode this entry points at.
    pub file_id: u64,
    /// Time the entry was added, in nanoseconds since the Unix epoch.
    pub date_added: u64,
    /// The entry's file type.
    pub file_type: DirEntryType,
    /// The precomputed name hash, present only for hashed-key entries.
    pub name_hash: Option<u32>,
    /// The entry's raw extended-fields region, parsed by the extended-fields
    /// module ([`crate::extended_field`]).
    pub xfields: Vec<u8>,
}

/// The content of a [`DirEntry`].
#[verifier::ext_equal]
pub struct DirEntryView {
    /// The entry's name.
    pub name: Seq<char>,
    /// The object identifier of the inode this entry points at.
    pub file_id: u64,
    /// Time the entry was added, in nanoseconds since the Unix epoch.
    pub date_added: u64,
    /// The entry's file type.
    pub file_type: DirEntryType,
    /// The precomputed name hash, present only for hashed-key entries.
    pub name_hash: Option<u32>,
    /// The entry's raw extended-fields region.
    pub xfields: Seq<u8>,
}

impl View for DirEntry {
    type V = DirEntryView;

    open spec fn view(&self) -> DirEntryView {
        DirEntryView {
            name: self.name@,
            file_id: self.file_id,
            date_added: self.date_added,
            file_type: self.file_type,
            name_hash: self.name_hash,
            xfields: self.xfields@,
        }
    }
}

impl Clone for DirEntry {
    fn clone(&self) -> (copy: DirEntry)
        ensures
            copy@ == self@,
    {
        DirEntry {
            name: self.name.clone(),
            file_id: self.file_id,
            date_added: self.date_added,
            file_type: self.file_type,
            name_hash: self.name_hash,
            xfields: vstd::slice::slice_to_vec(self.xfields.as_slice()),
        }
    }
}

/// A stored name without its trailing NUL.
pub open spec fn without_nul(raw: Seq<u8>) -> Seq<u8> {
    if raw.len() > 0 && raw.last() == 0 {
        raw.drop_last()
    } else {
        raw
    }
}

/// The name in a `DIR_REC` key, and its hash if the key is hashed.
///
/// A hashed key has a word with the length in the low ten bits and the hash
/// above them; the other form has a 16-bit length.
pub open spec fn drec_name_of(key: Seq<u8>, hashed: bool) -> Result<
    (Seq<char>, Option<u32>),
    ApfsError,
> {
    let word = bytes::le_u32(key, J_KEY_SIZE as int);
    let start: int = J_KEY_SIZE + if hashed {
        4int
    } else {
        2
    };
    let len: int = if hashed {
        word as int % 1024
    } else {
        bytes::le_u16(key, J_KEY_SIZE as int) as int
    };
    if start > key.len() {
        error::malformed("j_drec_key_t", "name extends past the record key")
    } else if start + len > key.len() {
        error::malformed("j_drec_key_t", "name extends past the record key")
    } else {
        Ok(
            (
                text::decoded(without_nul(key.subrange(start, start + len))),
                if hashed {
                    Some(word / 1024)
                } else {
                    None
                },
            ),
        )
    }
}

/// The child, the time it was added and the flags in a `DIR_REC` value.
pub open spec fn drec_value_of(value: Seq<u8>) -> Result<(u64, u64, u16), ApfsError> {
    if value.len() < J_DREC_VAL_SIZE {
        error::truncated("j_drec_val_t", J_DREC_VAL_SIZE as int, value.len())
    } else {
        Ok((bytes::le_u64(value, 0), bytes::le_u64(value, 8), bytes::le_u16(value, 16)))
    }
}

/// The directory entry in a record.
pub open spec fn dir_entry_of(record: RecordView, hashed: bool) -> Result<DirEntryView, ApfsError> {
    match drec_name_of(record.key, hashed) {
        Err(error) => Err(error),
        Ok((name, name_hash)) => match drec_value_of(record.value) {
            Err(error) => Err(error),
            Ok((file_id, date_added, flags)) => Ok(
                DirEntryView {
                    name,
                    file_id,
                    date_added,
                    file_type: entry_type_of(flags),
                    name_hash,
                    xfields: record.value.skip(J_DREC_VAL_SIZE as int),
                },
            ),
        },
    }
}

/// Parses the name (and hash, if present) from a `DIR_REC` record key.
///
/// `hashed` selects between `j_drec_hashed_key_t` (a 4-byte
/// `name_len_and_hash`) and the legacy `j_drec_key_t` (a 2-byte `name_len`).
pub fn parse_drec_name(key: &[u8], hashed: bool) -> (parsed: Result<
    (String, Option<u32>),
    ApfsError,
>)
    ensures
        match parsed {
            Ok((name, hash)) => drec_name_of(key@, hashed) == Ok::<
                (Seq<char>, Option<u32>),
                ApfsError,
            >((name@, hash)),
            Err(error) => drec_name_of(key@, hashed) == Err::<
                (Seq<char>, Option<u32>),
                ApfsError,
            >(error),
        },
{
    let start: usize = J_KEY_SIZE + if hashed {
        4usize
    } else {
        2usize
    };
    if start > key.len() {
        return Err(
            ApfsError::Malformed {
                structure: "j_drec_key_t",
                reason: "name extends past the record key",
            },
        );
    }
    let len: usize;
    let hash: Option<u32>;
    if hashed {
        let word: u32 = bytes::read_u32(key, J_KEY_SIZE);
        len = (word % 1024) as usize;
        hash = Some(word / 1024);
    } else {
        len = bytes::read_u16(key, J_KEY_SIZE) as usize;
        hash = None;
    }
    match bytes::get_range(key, start, start + len) {
        None => Err(
            ApfsError::Malformed {
                structure: "j_drec_key_t",
                reason: "name extends past the record key",
            },
        ),
        Some(raw) => {
            // The stored length includes the trailing NUL.
            let mut name: &[u8] = raw;
            if raw.len() > 0 && raw[raw.len() - 1] == 0 {
                name = vstd::slice::slice_subrange(raw, 0, raw.len() - 1);
            }
            assert(name@ =~= without_nul(raw@));
            Ok((text::decode(name), hash))
        },
    }
}

/// Parses `file_id`, `date_added`, and `flags` from a `j_drec_val_t` value.
pub fn parse_drec_value(value: &[u8]) -> (parsed: Result<(u64, u64, u16), ApfsError>)
    ensures
        parsed == drec_value_of(value@),
{
    if value.len() < J_DREC_VAL_SIZE {
        return Err(
            ApfsError::Truncated {
                structure: "j_drec_val_t",
                expected: J_DREC_VAL_SIZE,
                actual: value.len(),
            },
        );
    }
    Ok((bytes::read_u64(value, 0), bytes::read_u64(value, 8), bytes::read_u16(value, 16)))
}

impl DirEntry {
    /// Parses a `DIR_REC` catalog record into a directory entry.
    ///
    /// `hashed` selects the directory-entry key form (see [`Directory::new`]).
    pub fn from_record(record: &CatalogRecord, hashed: bool) -> (parsed: Result<
        DirEntry,
        ApfsError,
    >)
        ensures
            error::viewed(parsed) == dir_entry_of(record@, hashed),
    {
        let (name, name_hash) = match parse_drec_name(record.key.as_slice(), hashed) {
            Ok(parts) => parts,
            Err(error) => return Err(error),
        };
        let value: &[u8] = record.value.as_slice();
        let (file_id, date_added, flags): (u64, u64, u16) = match parse_drec_value(value) {
            Ok(parts) => parts,
            Err(error) => return Err(error),
        };
        Ok(
            DirEntry {
                name,
                file_id,
                date_added,
                file_type: DirEntryType::from_flags(flags),
                name_hash,
                xfields: vstd::slice::slice_to_vec(bytes::skip_bytes(value, J_DREC_VAL_SIZE)),
            },
        )
    }
}

impl FromRecord<bool> for DirEntry {
    open spec fn spec_kind() -> JObjType {
        JObjType::DirRec
    }

    fn record_kind() -> (kind: JObjType) {
        JObjType::DirRec
    }

    open spec fn item_of(param: bool, record: RecordView) -> Result<DirEntryView, ApfsError> {
        dir_entry_of(record, param)
    }

    fn read_item(param: bool, record: &CatalogRecord) -> (item: Result<DirEntry, ApfsError>) {
        DirEntry::from_record(record, param)
    }
}

/// How a volume matches directory-entry names.
///
/// Decoded from the volume's incompatible-feature flags: a case-insensitive or
/// normalization-insensitive volume uses hashed directory keys, and a
/// case-insensitive volume folds case when comparing names.
#[derive(Debug, Clone, Copy, PartialEq, Eq, Structural)]
pub struct NameComparison {
    /// Directory keys are `j_drec_hashed_key_t`, carrying a precomputed name
    /// hash.
    pub hashed: bool,
    /// Names are matched case-insensitively.
    pub case_insensitive: bool,
}

impl NameComparison {
    /// The comparison mode of a case-sensitive, normalization-sensitive volume:
    /// legacy keys and exact byte-for-byte name matching.
    #[must_use]
    pub fn exact() -> (comparison: NameComparison)
        ensures
            comparison == (NameComparison { hashed: false, case_insensitive: false }),
    {
        NameComparison { hashed: false, case_insensitive: false }
    }
}

/// The entries of a directory.
pub open spec fn directory_entries(
    device: Device,
    catalog: Catalog,
    dir_id: u64,
    hashed: bool,
) -> Result<Seq<DirEntryView>, ApfsError> {
    catalog::catalog_items::<bool, DirEntry>(device, catalog, Selection::Object(dir_id), hashed)
}

/// The first entry that a condition holds of.
pub open spec fn first_entry(
    entries: Seq<DirEntryView>,
    wanted: spec_fn(DirEntryView) -> bool,
) -> Option<DirEntryView>
    decreases entries.len(),
{
    if entries.len() == 0 {
        None
    } else if wanted(entries[0]) {
        Some(entries[0])
    } else {
        first_entry(entries.drop_first(), wanted)
    }
}

/// Whether the name of an entry is equal to `name` in its folded form.
pub open spec fn names_match(entry: DirEntryView, name: Seq<char>, case_fold: bool) -> bool {
    unicode::folded(entry.name, case_fold) == unicode::folded(name, case_fold)
}

/// The hash under which `name` is stored.
pub open spec fn target_hash(name: Seq<char>, case_fold: bool) -> u32 {
    unicode::name_hash_of(name, case_fold) / 1024
}

/// Whether an entry has a hash as it should be for `name`, and its name.
pub open spec fn hash_and_name_match(name: Seq<char>, case_fold: bool) -> spec_fn(DirEntryView) -> bool {
    |entry: DirEntryView|
        entry.name_hash == Some(target_hash(name, case_fold)) && names_match(entry, name, case_fold)
}

/// Whether an entry has another hash than it should have for `name`, and its
/// name.
pub open spec fn only_name_matches(name: Seq<char>, case_fold: bool) -> spec_fn(DirEntryView) -> bool {
    |entry: DirEntryView|
        entry.name_hash != Some(target_hash(name, case_fold)) && names_match(entry, name, case_fold)
}

/// The entry with the given name: an exact match of a volume without hashes; a
/// match in the folded form of one with them, where an entry with the right
/// hash goes before one with another.
pub open spec fn entry_named(
    entries: Seq<DirEntryView>,
    name: Seq<char>,
    comparison: NameComparison,
) -> Option<DirEntryView> {
    let fold = comparison.case_insensitive;
    if !comparison.hashed {
        first_entry(entries, |entry: DirEntryView| entry.name == name)
    } else {
        match first_entry(entries, hash_and_name_match(name, fold)) {
            Some(entry) => Some(entry),
            None => first_entry(entries, only_name_matches(name, fold)),
        }
    }
}

proof fn lemma_first_entry(entries: Seq<DirEntryView>, wanted: spec_fn(DirEntryView) -> bool)
    ensures
        match first_entry(entries, wanted) {
            Some(entry) => entries.contains(entry) && wanted(entry),
            None => forall|i: int| 0 <= i < entries.len() ==> !wanted(#[trigger] entries[i]),
        },
    decreases entries.len(),
{
    if entries.len() > 0 && !wanted(entries[0]) {
        let rest = entries.drop_first();
        lemma_first_entry(rest, wanted);
        match first_entry(rest, wanted) {
            Some(entry) => {
                let i = rest.index_of(entry);
                assert(entries[i + 1] == entry);
            },
            None => {
                assert forall|i: int| 0 <= i < entries.len() implies !wanted(
                    #[trigger] entries[i],
                ) by {
                    if i > 0 {
                        assert(rest[i - 1] == entries[i]);
                    }
                }
            },
        }
    }
}

/// On a hashed volume a name is found exactly when some entry has it, up to
/// normalization and folding, whatever hashes the entries have.
pub proof fn law_hashed_lookup_misses_no_name(
    entries: Seq<DirEntryView>,
    name: Seq<char>,
    case_insensitive: bool,
)
    ensures
        ({
            let found = entry_named(
                entries,
                name,
                (NameComparison { hashed: true, case_insensitive }),
            );
            &&& found is Some <==> exists|i: int|
                0 <= i < entries.len() && names_match(#[trigger] entries[i], name, case_insensitive)
            &&& found matches Some(entry) ==> entries.contains(entry) && names_match(
                entry,
                name,
                case_insensitive,
            )
        }),
{
    let fold = case_insensitive;
    lemma_first_entry(entries, hash_and_name_match(name, fold));
    lemma_first_entry(entries, only_name_matches(name, fold));
    let found = entry_named(entries, name, NameComparison { hashed: true, case_insensitive });
    if found is Some {
        let i = entries.index_of(found->0);
        assert(names_match(entries[i], name, fold));
    } else {
        assert forall|i: int| 0 <= i < entries.len() implies !names_match(
            #[trigger] entries[i],
            name,
            fold,
        ) by {
            assert(!hash_and_name_match(name, fold)(entries[i]));
            assert(!only_name_matches(name, fold)(entries[i]));
        }
    }
}

/// On a case-insensitive volume an entry with an ASCII name is found by every name
/// that differs from it only in the case of its letters.
pub proof fn law_lookup_ignores_the_case_of_ascii_names(
    entries: Seq<DirEntryView>,
    at: int,
    name: Seq<char>,
)
    requires
        0 <= at < entries.len(),
        is_ascii_chars(entries[at].name),
        is_ascii_chars(name),
        name.len() == entries[at].name.len(),
        forall|i: int|
            0 <= i < name.len() ==> unicode::ascii_lower(#[trigger] entries[at].name[i])
                == unicode::ascii_lower(name[i]),
    ensures
        entry_named(
            entries,
            name,
            (NameComparison { hashed: true, case_insensitive: true }),
        ) matches Some(found) && entries.contains(found) && unicode::folded(found.name, true)
            == unicode::folded(entries[at].name, true),
{
    unicode::law_case_of_ascii_names_is_ignored(entries[at].name, name);
    assert(names_match(entries[at], name, true));
    law_hashed_lookup_misses_no_name(entries, name, true);
}

/// A name that a directory-entry key stores as UTF-8 with a trailing NUL is read
/// back as it was.
pub proof fn law_entry_name_is_read_back(key: Seq<u8>, name: Seq<char>, hashed: bool)
    requires
        ({
            let start: int = J_KEY_SIZE + if hashed {
                4int
            } else {
                2
            };
            let len: int = if hashed {
                bytes::le_u32(key, J_KEY_SIZE as int) as int % 1024
            } else {
                bytes::le_u16(key, J_KEY_SIZE as int) as int
            };
            &&& start + len <= key.len()
            &&& key.subrange(start, start + len) == encode_utf8(name).push(0u8)
        }),
    ensures
        drec_name_of(key, hashed) matches Ok(found) && found.0 == name,
{
    text::law_stored_text_is_read_back(name);
    assert(encode_utf8(name).push(0u8).drop_last() =~= encode_utf8(name));
}

/// On a volume without hashes a name is found exactly when some entry has it.
pub proof fn law_exact_lookup_misses_no_name(entries: Seq<DirEntryView>, name: Seq<char>)
    ensures
        ({
            let found = entry_named(
                entries,
                name,
                (NameComparison { hashed: false, case_insensitive: false }),
            );
            &&& found is Some <==> exists|i: int|
                0 <= i < entries.len() && (#[trigger] entries[i]).name == name
            &&& found matches Some(entry) ==> entries.contains(entry) && entry.name == name
        }),
{
    let wanted = |entry: DirEntryView| entry.name == name;
    lemma_first_entry(entries, wanted);
    let found = first_entry(entries, wanted);
    if found is Some {
        let i = entries.index_of(found->0);
        assert(entries[i].name == name);
    } else {
        assert forall|i: int| 0 <= i < entries.len() implies (#[trigger] entries[i]).name
            != name by {
            assert(!wanted(entries[i]));
        }
    }
}

/// Finds the first entry with exactly the given name.
fn find_exact(entries: &Vec<DirEntry>, name: &str) -> (found: Option<DirEntry>)
    ensures
        error::some_view(found) == first_entry(
            error::views(entries@),
            |entry: DirEntryView| entry.name == name@,
        ),
{
    let ghost all = error::views(entries@);
    let ghost wanted = |entry: DirEntryView| entry.name == name@;
    let text: String = name.to_owned();
    let mut i: usize = 0;
    proof {
        assert(all.skip(0) =~= all);
    }
    while i < entries.len()
        invariant
            i <= entries@.len(),
            all == error::views(entries@),
            wanted == |entry: DirEntryView| entry.name == name@,
            text@ == name@,
            first_entry(all, wanted) == first_entry(all.skip(i as int), wanted),
        decreases entries@.len() - i,
    {
        if entries[i].name == text {
            return Some(entries[i].clone());
        }
        proof {
            assert(all.skip(i as int).drop_first() =~= all.skip(i + 1));
        }
        i += 1;
    }
    None
}

/// Finds the first entry with the given folded name whose hash is `hash`, or
/// whose hash is another one.
fn find_folded(
    entries: &Vec<DirEntry>,
    want: &[char],
    hash: u32,
    with_hash: bool,
    case_fold: bool,
    Ghost(name): Ghost<Seq<char>>,
) -> (found: Option<DirEntry>)
    requires
        want@ == unicode::folded(name, case_fold),
        hash == target_hash(name, case_fold),
    ensures
        error::some_view(found) == first_entry(
            error::views(entries@),
            if with_hash {
                hash_and_name_match(name, case_fold)
            } else {
                only_name_matches(name, case_fold)
            },
        ),
{
    let ghost all = error::views(entries@);
    let ghost wanted = if with_hash {
        hash_and_name_match(name, case_fold)
    } else {
        only_name_matches(name, case_fold)
    };
    let mut i: usize = 0;
    proof {
        assert(all.skip(0) =~= all);
    }
    while i < entries.len()
        invariant
            i <= entries@.len(),
            all == error::views(entries@),
            want@ == unicode::folded(name, case_fold),
            hash == target_hash(name, case_fold),
            wanted == if with_hash {
                hash_and_name_match(name, case_fold)
            } else {
                only_name_matches(name, case_fold)
            },
            first_entry(all, wanted) == first_entry(all.skip(i as int), wanted),
        decreases entries@.len() - i,
    {
        let has_hash: bool = match entries[i].name_hash {
            Some(stored) => stored == hash,
            None => false,
        };
        // Only a candidate needs the costlier normalize-and-compare.
        if has_hash == with_hash {
            let folded: Vec<char> = unicode::normalize_fold(entries[i].name.as_str(), case_fold);
            if unicode::same_chars(folded.as_slice(), want) {
                return Some(entries[i].clone());
            }
        }
        proof {
            assert(all.skip(i as int).drop_first() =~= all.skip(i + 1));
        }
        i += 1;
    }
    None
}

/// A handle to a directory in a volume's catalog.
#[derive(Debug, Clone, Copy)]
pub struct Directory<'a> {
    /// The volume's catalog.
    pub catalog: &'a Catalog,
    /// The object identifier of the directory inode.
    pub dir_id: u64,
    /// The name comparison of the volume.
    pub comparison: NameComparison,
}

impl<'a> Directory<'a> {
    /// Creates a directory handle.
    ///
    /// `dir_id` is the directory inode's object identifier. `comparison` is the
    /// volume's [`NameComparison`]: the directory-entry key form and the
    /// case-sensitivity used by [`Directory::lookup`].
    #[must_use]
    pub fn new(catalog: &'a Catalog, dir_id: u64, comparison: NameComparison) -> (directory:
        Directory<'a>)
        ensures
            directory == (Directory { catalog, dir_id, comparison }),
    {
        Directory { catalog, dir_id, comparison }
    }

    /// Reads every entry of the directory.
    ///
    /// Enumeration is eager: the catalog B-tree has no sibling pointers, so
    /// the directory's records are gathered by a full walk from the tree root
    /// regardless.
    pub fn entries<T: Reader>(&self, reader: &mut T) -> (entries: Result<
        Vec<DirEntry>,
        ApfsError,
    >)
        ensures
            final(reader).device() == old(reader).device(),
            error::viewed_all(entries) == directory_entries(
                old(reader).device(),
                *self.catalog,
                self.dir_id,
                self.comparison.hashed,
            ),
    {
        match self.catalog.records_for(reader, self.dir_id) {
            Ok(records) => catalog::read_items::<bool, DirEntry>(self.comparison.hashed, &records),
            Err(error) => Err(error),
        }
    }

    /// Looks up a single child by name.
    ///
    /// On a case-sensitive, normalization-sensitive volume the match is exact
    /// byte-for-byte. On a hashed volume the query is normalized (NFD) and,
    /// when the volume is case-insensitive, case-folded; the precomputed entry
    /// hash narrows the candidates so most lookups normalize only one stored
    /// name. A name whose stored hash diverges from this crate's case-folding
    /// is still found by a hash-blind fallback comparison.
    pub fn lookup<T: Reader>(&self, reader: &mut T, name: &str) -> (found: Result<
        Option<DirEntry>,
        ApfsError,
    >)
        ensures
            final(reader).device() == old(reader).device(),
            error::viewed_option(found) == match directory_entries(
                old(reader).device(),
                *self.catalog,
                self.dir_id,
                self.comparison.hashed,
            ) {
                Ok(entries) => Ok(entry_named(entries, name@, self.comparison)),
                Err(error) => Err(error),
            },
    {
        let entries: Vec<DirEntry> = match self.entries(reader) {
            Ok(entries) => entries,
            Err(error) => return Err(error),
        };
        if !self.comparison.hashed {
            return Ok(find_exact(&entries, name));
        }
        let fold: bool = self.comparison.case_insensitive;
        let want: Vec<char> = unicode::normalize_fold(name, fold);
        let hash: u32 = unicode::name_hash(name, fold) / 1024;
        match find_folded(&entries, want.as_slice(), hash, true, fold, Ghost(name@)) {
            Some(entry) => Ok(Some(entry)),
            None => Ok(
                find_folded(&entries, want.as_slice(), hash, false, fold, Ghost(name@)),
            ),
        }
    }
}

/// On a hashed volume an entry that has the name and the hash which the name has is found
/// before one that has the name under another hash.
pub proof fn law_right_hash_goes_first(
    entries: Seq<DirEntryView>,
    name: Seq<char>,
    case_insensitive: bool,
    at: int,
)
    requires
        0 <= at < entries.len(),
        names_match(entries[at], name, case_insensitive),
        entries[at].name_hash == Some(
            (unicode::name_hash_of(name, case_insensitive) / 1024) as u32,
        ),
    ensures
        entry_named(
            entries,
            name,
            (NameComparison { hashed: true, case_insensitive }),
        ) matches Some(found) && found.name_hash == entries[at].name_hash && names_match(
            found,
            name,
            case_insensitive,
        ),
{
    let wanted = hash_and_name_match(name, case_insensitive);
    lemma_first_entry(entries, wanted);
    assert(wanted(entries[at]));
}

proof fn lemma_first_entry_is_first(
    entries: Seq<DirEntryView>,
    wanted: spec_fn(DirEntryView) -> bool,
    at: int,
)
    requires
        0 <= at < entries.len(),
        wanted(entries[at]),
        forall|i: int| 0 <= i < at ==> !wanted(#[trigger] entries[i]),
    ensures
        first_entry(entries, wanted) == Some(entries[at]),
    decreases at,
{
    if at > 0 {
        let rest = entries.drop_first();
        assert(!wanted(entries[0]));
        assert forall|i: int| 0 <= i < at - 1 implies !wanted(#[trigger] rest[i]) by {
            assert(rest[i] == entries[i + 1]);
        }
        assert(rest[at - 1] == entries[at]);
        lemma_first_entry_is_first(rest, wanted, at - 1);
    }
}

/// On a volume without hashes the entry that is found is the first with exactly the name.
pub proof fn law_exact_lookup_gives_the_first(
    entries: Seq<DirEntryView>,
    name: Seq<char>,
    at: int,
    case_insensitive: bool,
)
    requires
        0 <= at < entries.len(),
        entries[at].name == name,
        forall|i: int| 0 <= i < at ==> (#[trigger] entries[i]).name != name,
    ensures
        entry_named(entries, name, (NameComparison { hashed: false, case_insensitive })) == Some(
            entries[at],
        ),
{
    let wanted = |entry: DirEntryView| entry.name == name;
    assert forall|i: int| 0 <= i < at implies !wanted(#[trigger] entries[i]) by {
        assert(entries[i].name != name);
    }
    lemma_first_entry_is_first(entries, wanted, at);
}

/// On a hashed volume the entry that is found is the first with the name, up to normalization
/// and folding, and the hash which the name has.
pub proof fn law_hashed_lookup_gives_the_first(
    entries: Seq<DirEntryView>,
    name: Seq<char>,
    at: int,
    case_insensitive: bool,
)
    requires
        0 <= at < entries.len(),
        ({
            let hash = Some((unicode::name_hash_of(name, case_insensitive) / 1024) as u32);
            let form = unicode::folded(name, case_insensitive);
            &&& entries[at].name_hash == hash
            &&& unicode::folded(entries[at].name, case_insensitive) == form
            &&& forall|i: int|
                0 <= i < at ==> (#[trigger] entries[i]).name_hash != hash || unicode::folded(
                    entries[i].name,
                    case_insensitive,
                ) != form
        }),
    ensures
        entry_named(entries, name, (NameComparison { hashed: true, case_insensitive })) == Some(
            entries[at],
        ),
{
    let wanted = hash_and_name_match(name, case_insensitive);
    assert forall|i: int| 0 <= i < at implies !wanted(#[trigger] entries[i]) by {}
    lemma_first_entry_is_first(entries, wanted, at);
}

} // verus!
