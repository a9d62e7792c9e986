//! Keybag parsing and protection-class metadata.
//!
//! APFS encryption metadata is held in keybags: the container keybag lists
//! per-volume key blobs, and each volume keybag lists wrapped volume keys and
//! passphrase hints. This module parses the (decrypted) keybag structure.

use vstd::prelude::*;

use crate::bytes;
use crate::error;
use crate::error::ApfsError;
use crate::object::OBJ_PHYS_SIZE;
use crate::text;

verus! {

/// Size of the fixed `kb_locker_t` header (before `kl_entries`).
pub const KB_LOCKER_HEADER_SIZE: usize = 16;

/// Size of the fixed `keybag_entry_t` header (before `ke_keydata`).
pub const KEYBAG_ENTRY_HEADER_SIZE: usize = 24;

/// The only supported keybag layout version.
///
/// Version one used an incompatible, undocumented prototype layout.
pub const APFS_KEYBAG_VERSION: u16 = 2;

/// Upper bound on a keybag entry's key data.
pub const APFS_VOL_KEYBAG_ENTRY_MAX_SIZE: usize = 512;

/// Mask selecting the effective protection class.
pub const CP_EFFECTIVE_CLASSMASK: u32 = 0x0000_001F;

/// The crypto-id value used by software-encrypted volumes.
pub const CRYPTO_SW_ID: u64 = 4;

/// UUID identifying a `FileVault` personal recovery key entry.
pub const APFS_FV_PERSONAL_RECOVERY_KEY_UUID: &'static str =
    "EBC6C064-0000-11AA-AA11-00306543ECAC";

/// A keybag-entry tag (`KB_TAG_*`).
#[derive(Debug, Clone, Copy, PartialEq, Eq, Structural)]
pub enum KeybagTag {
    /// Unknown tag.
    Unknown,
    /// A wrapped volume encryption key.
    VolumeKey,
    /// Volume unlock records (keys wrapped by a user passphrase).
    VolumeUnlockRecords,
    /// A passphrase hint.
    VolumePassphraseHint,
    /// A wrapping media key.
    WrappingMKey,
    /// A volume media key.
    VolumeMKey,
    /// A tag value this parser does not recognize.
    Other(u16),
}

/// The tag with the given value.
pub open spec fn tag_of(value: u16) -> KeybagTag {
    if value == 0 {
        KeybagTag::Unknown
    } else if value == 2 {
        KeybagTag::VolumeKey
    } else if value == 3 {
        KeybagTag::VolumeUnlockRecords
    } else if value == 4 {
        KeybagTag::VolumePassphraseHint
    } else if value == 5 {
        KeybagTag::WrappingMKey
    } else if value == 6 {
        KeybagTag::VolumeMKey
    } else {
        KeybagTag::Other(value)
    }
}

impl KeybagTag {
    /// Decodes a `ke_tag` value.
    #[must_use]
    pub fn from_value(value: u16) -> (tag: KeybagTag)
        ensures
            tag == tag_of(value),
    {
        match value {
            0 => KeybagTag::Unknown,
            2 => KeybagTag::VolumeKey,
            3 => KeybagTag::VolumeUnlockRecords,
            4 => KeybagTag::VolumePassphraseHint,
            5 => KeybagTag::WrappingMKey,
            6 => KeybagTag::VolumeMKey,
            other => KeybagTag::Other(other),
        }
    }
}

/// An APFS data-protection class (`cp_key_class_t`).
#[derive(Debug, Clone, Copy, PartialEq, Eq, Structural)]
pub enum ProtectionClass {
    /// No class; a directory's default is used.
    DirNone,
    /// Class A: complete protection.
    A,
    /// Class B: protected unless open.
    B,
    /// Class C: protected until first user authentication.
    C,
    /// Class D: no protection.
    D,
    /// Class F: no protection, non-persistent key.
    F,
    /// Class M.
    M,
    /// A class value this parser does not recognize.
    Unknown(u32),
}

/// The class that the class bits of `value` select.
pub open spec fn class_of(value: u32) -> ProtectionClass {
    let class = value & CP_EFFECTIVE_CLASSMASK;
    if class == 0 {
        ProtectionClass::DirNone
    } else if class == 1 {
        ProtectionClass::A
    } else if class == 2 {
        ProtectionClass::B
    } else if class == 3 {
        ProtectionClass::C
    } else if class == 4 {
        ProtectionClass::D
    } else if class == 6 {
        ProtectionClass::F
    } else if class == 14 {
        ProtectionClass::M
    } else {
        ProtectionClass::Unknown(class)
    }
}

impl ProtectionClass {
    /// Decodes a protection class from a `cp_key_class_t`, masking off the
    /// non-class bits.
    #[must_use]
    pub fn from_value(value: u32) -> (class: ProtectionClass)
        ensures
            class == class_of(value),
    {
        match value & CP_EFFECTIVE_CLASSMASK {
            0 => ProtectionClass::DirNone,
            1 => ProtectionClass::A,
            2 => ProtectionClass::B,
            3 => ProtectionClass::C,
            4 => ProtectionClass::D,
            6 => ProtectionClass::F,
            14 => ProtectionClass::M,
            other => ProtectionClass::Unknown(other),
        }
    }
}

/// One entry of a keybag (`keybag_entry_t`).
#[derive(Debug, Clone, PartialEq, Eq)]
pub struct KeybagEntry {
    /// The entry's UUID: a volume UUID, or a recovery-key UUID.
    pub uuid: [u8; 16],
    /// The entry's tag.
    pub tag: KeybagTag,
    /// The entry's key data (a wrapped key, a hint string, and so on).
    pub key_data: Vec<u8>,
}

/// The content of a [`KeybagEntry`].
#[verifier::ext_equal]
pub struct KeybagEntryView {
    /// The entry's UUID.
    pub uuid: Seq<u8>,
    /// The entry's tag.
    pub tag: KeybagTag,
    /// The entry's key data.
    pub key_data: Seq<u8>,
}

impl View for KeybagEntry {
    type V = KeybagEntryView;

    open spec fn view(&self) -> KeybagEntryView {
        KeybagEntryView { uuid: self.uuid@, tag: self.tag, key_data: self.key_data@ }
    }
}

/// A parsed (decrypted) keybag (`kb_locker_t`).
#[derive(Debug, Clone, PartialEq, Eq)]
pub struct Keybag {
    /// The keybag format version.
    pub version: u16,
    /// The keybag's entries.
    pub entries: Vec<KeybagEntry>,
}

/// The content of a [`Keybag`].
#[verifier::ext_equal]
pub struct KeybagView {
    /// The keybag format version.
    pub version: u16,
    /// The keybag's entries.
    pub entries: Seq<KeybagEntryView>,
}

impl View for Keybag {
    type V = KeybagView;

    open spec fn view(&self) -> KeybagView {
        KeybagView { version: self.version, entries: error::views(self.entries@) }
    }
}

/// Whether bytes plausibly begin with a `kb_locker_t`: the byte count fits and
/// the padding is zero.
pub open spec fn is_locker(bytes: Seq<u8>) -> bool {
    &&& bytes.len() >= KB_LOCKER_HEADER_SIZE
    &&& bytes::le_u32(bytes, 4) <= bytes.len()
    &&& forall|i: int| 8 <= i < 16 ==> bytes[i] == 0
}

/// Whether bytes plausibly are a bare `kb_locker_t` of the supported version.
pub open spec fn is_bare_locker(bytes: Seq<u8>) -> bool {
    is_locker(bytes) && bytes::le_u16(bytes, 0) == APFS_KEYBAG_VERSION
}

/// The `kb_locker_t` in `bytes`: all of `bytes` if they are a bare one, else the
/// part behind an object header if that looks like one, and all of `bytes`
/// otherwise.
pub open spec fn locker_in(bytes: Seq<u8>) -> Seq<u8> {
    if is_bare_locker(bytes) {
        bytes
    } else if bytes.len() >= OBJ_PHYS_SIZE + KB_LOCKER_HEADER_SIZE && is_locker(
        bytes.skip(OBJ_PHYS_SIZE as int),
    ) {
        bytes.skip(OBJ_PHYS_SIZE as int)
    } else {
        bytes
    }
}

/// The entry at `at`.
pub open spec fn entry_at(locker: Seq<u8>, at: int) -> Result<KeybagEntryView, ApfsError> {
    let data_start = at + KEYBAG_ENTRY_HEADER_SIZE;
    let key_len = bytes::le_u16(locker, at + 18);
    if data_start > locker.len() {
        error::malformed("keybag_entry_t", "entry header extends past the keybag")
    } else if key_len >= APFS_VOL_KEYBAG_ENTRY_MAX_SIZE {
        error::malformed("keybag_entry_t", "key data length exceeds the APFS maximum")
    } else if data_start + key_len > locker.len() {
        error::malformed("keybag_entry_t", "entry key data extends past the keybag")
    } else {
        Ok(
            KeybagEntryView {
                uuid: locker.subrange(at, at + 16),
                tag: tag_of(bytes::le_u16(locker, at + 16)),
                key_data: locker.subrange(data_start, data_start + key_len),
            },
        )
    }
}

/// The space that an entry takes: its size rounded up to sixteen bytes.
pub open spec fn entry_space(key_len: nat) -> int {
    (KEYBAG_ENTRY_HEADER_SIZE + key_len + 15) / 16 * 16
}

/// The `count` entries from `at` on.
pub open spec fn entries_from(locker: Seq<u8>, at: int, count: nat) -> Result<
    Seq<KeybagEntryView>,
    ApfsError,
>
    decreases count,
{
    if count == 0 {
        Ok(Seq::empty())
    } else {
        match entry_at(locker, at) {
            Err(error) => Err(error),
            Ok(entry) => match entries_from(
                locker,
                at + entry_space(entry.key_data.len()),
                (count - 1) as nat,
            ) {
                Err(error) => Err(error),
                Ok(rest) => Ok(seq![entry] + rest),
            },
        }
    }
}

/// The keybag in a `kb_locker_t`.
pub open spec fn keybag_in(locker: Seq<u8>) -> Result<KeybagView, ApfsError> {
    let version = bytes::le_u16(locker, 0);
    if locker.len() < KB_LOCKER_HEADER_SIZE {
        error::truncated("kb_locker_t", KB_LOCKER_HEADER_SIZE as int, locker.len())
    } else if version != APFS_KEYBAG_VERSION {
        Err(ApfsError::Unsupported("unsupported keybag layout version"))
    } else {
        match entries_from(
            locker,
            KB_LOCKER_HEADER_SIZE as int,
            bytes::le_u16(locker, 2) as nat,
        ) {
            Err(error) => Err(error),
            Ok(entries) => Ok(KeybagView { version, entries }),
        }
    }
}

/// The first entry with the given tag.
pub open spec fn first_with_tag(entries: Seq<KeybagEntryView>, tag: KeybagTag) -> Option<
    KeybagEntryView,
>
    decreases entries.len(),
{
    if entries.len() == 0 {
        None
    } else if entries[0].tag == tag {
        Some(entries[0])
    } else {
        first_with_tag(entries.drop_first(), tag)
    }
}

proof fn lemma_entries_from(locker: Seq<u8>, at: int, count: nat)
    requires
        at >= 0,
    ensures
        entries_from(locker, at, count) matches Ok(entries) ==> entries.len() == count && forall|
            i: int,
        |
            0 <= i < count ==> (#[trigger] entries[i]).key_data.len()
                < APFS_VOL_KEYBAG_ENTRY_MAX_SIZE && entries[i].uuid.len() == 16,
    decreases count,
{
    if count > 0 {
        if let Ok(entry) = entry_at(locker, at) {
            lemma_entries_from(
                locker,
                at + entry_space(entry.key_data.len()),
                (count - 1) as nat,
            );
        }
    }
}

/// A parsed keybag has the supported version and as many entries as its header
/// says, each with key data below the maximum size.
pub proof fn law_keybag_is_bounded(locker: Seq<u8>, keybag: KeybagView)
    requires
        keybag_in(locker) == Ok::<KeybagView, ApfsError>(keybag),
    ensures
        keybag.version == APFS_KEYBAG_VERSION,
        keybag.entries.len() == bytes::le_u16(locker, 2),
        forall|i: int|
            0 <= i < keybag.entries.len() ==> (#[trigger] keybag.entries[i]).key_data.len()
                < APFS_VOL_KEYBAG_ENTRY_MAX_SIZE,
{
    lemma_entries_from(locker, KB_LOCKER_HEADER_SIZE as int, bytes::le_u16(locker, 2) as nat);
}

/// A bare locker of the supported version is read from its start, whatever its
/// entries hold.
pub proof fn law_bare_locker_is_read_whole(locker: Seq<u8>)
    requires
        is_locker(locker),
        bytes::le_u16(locker, 0) == APFS_KEYBAG_VERSION,
    ensures
        keybag_in(locker_in(locker)) == keybag_in(locker),
{
}

/// A locker behind an object header is the same keybag, whatever the header
/// holds, unless the header is itself the start of a bare locker.
pub proof fn law_object_header_is_skipped(header: Seq<u8>, locker: Seq<u8>)
    requires
        header.len() == OBJ_PHYS_SIZE,
        is_locker(locker),
        !is_bare_locker(header + locker),
    ensures
        locker_in(header + locker) == locker,
{
    assert((header + locker).skip(OBJ_PHYS_SIZE as int) =~= locker);
}

/// Whether bytes plausibly begin with a `kb_locker_t` rather than being raw
/// keybag data; used to skip a `media_keybag_t` header.
fn looks_like_locker(bytes: &[u8]) -> (plausible: bool)
    ensures
        plausible == is_locker(bytes@),
{
    if bytes.len() < KB_LOCKER_HEADER_SIZE {
        return false;
    }
    let mut i: usize = 8;
    while i < 16
        invariant
            8 <= i <= 16,
            bytes@.len() >= KB_LOCKER_HEADER_SIZE,
            forall|k: int| 8 <= k < i ==> bytes@[k] == 0,
        decreases 16 - i,
    {
        if bytes[i] != 0 {
            return false;
        }
        i += 1;
    }
    bytes::read_u32(bytes, 4) as u64 <= bytes.len() as u64
}

/// Parses the entry at `at`.
fn parse_entry(locker: &[u8], at: usize) -> (parsed: Result<KeybagEntry, ApfsError>)
    requires
        at + KEYBAG_ENTRY_HEADER_SIZE + u16::MAX <= usize::MAX,
    ensures
        error::viewed(parsed) == entry_at(locker@, at as int),
{
    let data_start: usize = at + KEYBAG_ENTRY_HEADER_SIZE;
    if data_start > locker.len() {
        return Err(
            ApfsError::Malformed {
                structure: "keybag_entry_t",
                reason: "entry header extends past the keybag",
            },
        );
    }
    let uuid: [u8; 16] = bytes::read_bytes16(locker, at);
    let tag: KeybagTag = KeybagTag::from_value(bytes::read_u16(locker, at + 16));
    let key_len: usize = bytes::read_u16(locker, at + 18) as usize;
    // A longer key is structural corruption, not a longer-than-usual key.
    if key_len >= APFS_VOL_KEYBAG_ENTRY_MAX_SIZE {
        return Err(
            ApfsError::Malformed {
                structure: "keybag_entry_t",
                reason: "key data length exceeds the APFS maximum",
            },
        );
    }
    match bytes::get_range(locker, data_start, data_start + key_len) {
        None => Err(
            ApfsError::Malformed {
                structure: "keybag_entry_t",
                reason: "entry key data extends past the keybag",
            },
        ),
        Some(data) => Ok(
            KeybagEntry { uuid, tag, key_data: vstd::slice::slice_to_vec(data) },
        ),
    }
}

impl Keybag {
    /// Parses a keybag from its decrypted bytes.
    ///
    /// Accepts either a bare `kb_locker_t` or a whole `media_keybag_t` block
    /// (whose `obj_phys_t` header is skipped).
    pub fn parse(bytes: &[u8]) -> (parsed: Result<Keybag, ApfsError>)
        ensures
            error::viewed(parsed) == keybag_in(locker_in(bytes@)),
    {
        let mut locker: &[u8] = bytes;
        let bare: bool = looks_like_locker(bytes) && bytes::read_u16(bytes, 0)
            == APFS_KEYBAG_VERSION;
        if !bare && bytes.len() >= OBJ_PHYS_SIZE + KB_LOCKER_HEADER_SIZE {
            let behind: &[u8] = bytes::skip_bytes(bytes, OBJ_PHYS_SIZE);
            if looks_like_locker(behind) {
                locker = behind;
            }
        }
        if locker.len() < KB_LOCKER_HEADER_SIZE {
            return Err(
                ApfsError::Truncated {
                    structure: "kb_locker_t",
                    expected: KB_LOCKER_HEADER_SIZE,
                    actual: locker.len(),
                },
            );
        }
        let version: u16 = bytes::read_u16(locker, 0);
        // Decoding the prototype layout of version one as version two would
        // yield silently corrupted entries.
        if version != APFS_KEYBAG_VERSION {
            return Err(ApfsError::Unsupported("unsupported keybag layout version"));
        }
        let count: u16 = bytes::read_u16(locker, 2);
        let ghost whole = entries_from(locker@, KB_LOCKER_HEADER_SIZE as int, count as nat);
        let mut entries: Vec<KeybagEntry> = Vec::new();
        let mut cursor: usize = KB_LOCKER_HEADER_SIZE;
        let mut i: u16 = 0;
        proof {
            assert(error::views(entries@) =~= Seq::empty());
            if let Ok(all) = whole {
                assert(Seq::<KeybagEntryView>::empty() + all =~= all);
            }
        }
        while i < count
            invariant
                i <= count,
                cursor <= KB_LOCKER_HEADER_SIZE + i * 560,
                locker@ == locker_in(bytes@),
                locker@.len() >= KB_LOCKER_HEADER_SIZE,
                version == bytes::le_u16(locker@, 0) == APFS_KEYBAG_VERSION,
                count == bytes::le_u16(locker@, 2),
                whole == entries_from(locker@, KB_LOCKER_HEADER_SIZE as int, count as nat),
                match entries_from(locker@, cursor as int, (count - i) as nat) {
                    Err(error) => whole == Err::<Seq<KeybagEntryView>, ApfsError>(error),
                    Ok(rest) => whole == Ok::<Seq<KeybagEntryView>, ApfsError>(
                        error::views(entries@) + rest,
                    ),
                },
            decreases count - i,
        {
            let entry: KeybagEntry = match parse_entry(locker, cursor) {
                Ok(entry) => entry,
                Err(error) => {
                    return Err(error);
                },
            };
            let key_len: usize = entry.key_data.len();
            proof {
                let after = error::views(entries@.push(entry));
                assert(after =~= error::views(entries@).push(entry@));
                if let Ok(rest) = entries_from(
                    locker@,
                    cursor + entry_space(key_len as nat),
                    (count - i - 1) as nat,
                ) {
                    assert(error::views(entries@) + (seq![entry@] + rest) =~= after + rest);
                }
            }
            entries.push(entry);
            // Entries are stored aligned to sixteen-byte boundaries.
            cursor += (KEYBAG_ENTRY_HEADER_SIZE + key_len + 15) / 16 * 16;
            i += 1;
        }
        proof {
            assert(error::views(entries@) + Seq::empty() =~= error::views(entries@));
        }
        Ok(Keybag { version, entries })
    }

    /// Returns the first entry with the given tag, if any.
    #[must_use]
    pub fn entry_with_tag(&self, tag: KeybagTag) -> (found: Option<&KeybagEntry>)
        ensures
            match found {
                Some(entry) => first_with_tag(self@.entries, tag) == Some(entry@),
                None => first_with_tag(self@.entries, tag) is None,
            },
    {
        let ghost all = self@.entries;
        let mut i: usize = 0;
        proof {
            assert(all.skip(0) =~= all);
        }
        while i < self.entries.len()
            invariant
                i <= self.entries@.len(),
                all == self@.entries,
                first_with_tag(all, tag) == first_with_tag(all.skip(i as int), tag),
            decreases self.entries@.len() - i,
        {
            if self.entries[i].tag == tag {
                return Some(&self.entries[i]);
            }
            proof {
                assert(all.skip(i as int).drop_first() =~= all.skip(i + 1));
            }
            i += 1;
        }
        None
    }

    /// The volume passphrase hint, decoded as UTF-8, if the keybag has one.
    #[must_use]
    pub fn passphrase_hint(&self) -> (hint: Option<String>)
        ensures
            error::some_view(hint) == match first_with_tag(
                self@.entries,
                KeybagTag::VolumePassphraseHint,
            ) {
                Some(entry) => Some(text::decoded(bytes::before_nul(entry.key_data))),
                None => None,
            },
    {
        match self.entry_with_tag(KeybagTag::VolumePassphraseHint) {
            Some(entry) => Some(
                text::decode(bytes::until_nul(entry.key_data.as_slice())),
            ),
            None => None,
        }
    }
}

/// The entry of a tag is the first entry with it, and there is none exactly where no entry
/// has it.
pub proof fn law_entry_of_a_tag_is_the_first(entries: Seq<KeybagEntryView>, tag: KeybagTag)
    ensures
        forall|i: int|
            0 <= i < entries.len() && (#[trigger] entries[i]).tag == tag && (forall|j: int|
                0 <= j < i ==> (#[trigger] entries[j]).tag != tag) ==> first_with_tag(entries, tag)
                == Some(entries[i]),
        (forall|i: int| 0 <= i < entries.len() ==> (#[trigger] entries[i]).tag != tag)
            ==> first_with_tag(entries, tag) is None,
    decreases entries.len(),
{
    if entries.len() > 0 && entries[0].tag != tag {
        let rest = entries.drop_first();
        law_entry_of_a_tag_is_the_first(rest, tag);
        assert forall|i: int|
            0 <= i < entries.len() && (#[trigger] entries[i]).tag == tag && (forall|j: int|
                0 <= j < i ==> (#[trigger] entries[j]).tag != tag) implies first_with_tag(
            entries,
            tag,
        ) == Some(entries[i]) by {
            assert(rest[i - 1] == entries[i]);
            assert forall|j: int| 0 <= j < i - 1 implies (#[trigger] rest[j]).tag != tag by {
                assert(rest[j] == entries[j + 1]);
            }
        }
        if forall|i: int| 0 <= i < entries.len() ==> (#[trigger] entries[i]).tag != tag {
            assert forall|i: int| 0 <= i < rest.len() implies (#[trigger] rest[i]).tag != tag by {
                assert(rest[i] == entries[i + 1]);
            }
        }
    }
}

/// A keybag has as many entries as its header counts, the first right after the header and
/// each further one where the space of the one before it ends.
pub proof fn law_entries_follow_each_other(locker: Seq<u8>, at: int, count: nat)
    ensures
        entries_from(locker, at, count) matches Ok(entries) ==> {
            &&& entries.len() == count
            &&& count > 0 ==> entry_at(locker, at) == Ok::<KeybagEntryView, ApfsError>(entries[0])
                && entries_from(
                locker,
                at + (24 + entries[0].key_data.len() + 15) / 16 * 16,
                (count - 1) as nat,
            ) == Ok::<Seq<KeybagEntryView>, ApfsError>(entries.drop_first())
        },
    decreases count,
{
    if count > 0 {
        if let Ok(entry) = entry_at(locker, at) {
            let next = at + entry_space(entry.key_data.len());
            law_entries_follow_each_other(locker, next, (count - 1) as nat);
            if let Ok(rest) = entries_from(locker, next, (count - 1) as nat) {
                assert((seq![entry] + rest).drop_first() =~= rest);
            }
        }
    }
}

/// A locker is known by its header: sixteen bytes, of which the second word is a size not above
/// the number of bytes and the last eight are zero. Bytes that start with such a header of
/// version 2 are a locker; bytes that have one behind the 32 bytes of an object header, and do
/// not start with one, are a locker behind an object header; and others are taken as they are.
pub proof fn law_locker_is_known_by_its_header(bytes: Seq<u8>)
    ensures
        ({
            let starts = |at: int|
                bytes.len() >= at + 16 && bytes::le_u32(bytes, at + 4) <= bytes.len() - at && (
                forall|i: int| at + 8 <= i < at + 16 ==> bytes[i] == 0);
            let bare = starts(0) && bytes::le_u16(bytes, 0) == 2;
            &&& bare ==> locker_in(bytes) == bytes
            &&& !bare && starts(32) ==> locker_in(bytes) == bytes.skip(32)
            &&& !bare && !starts(32) ==> locker_in(bytes) == bytes
        }),
{
    if bytes.len() >= 48 {
        let rest = bytes.skip(32);
        assert(rest[4] == bytes[36] && rest[5] == bytes[37] && rest[6] == bytes[38] && rest[7]
            == bytes[39]);
        if forall|i: int| 40 <= i < 48 ==> bytes[i] == 0 {
            assert forall|i: int| 8 <= i < 16 implies rest[i] == 0 by {
                assert(bytes[i + 32] == 0);
            }
        }
        if forall|i: int| 8 <= i < 16 ==> rest[i] == 0 {
            assert forall|i: int| 40 <= i < 48 implies bytes[i] == 0 by {
                assert(rest[i - 32] == 0);
            }
        }
    }
}

} // verus!
