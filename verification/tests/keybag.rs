use fs_apfs::error::ApfsError;
use fs_apfs::keybag::{APFS_VOL_KEYBAG_ENTRY_MAX_SIZE, KB_LOCKER_HEADER_SIZE, Keybag, KeybagTag, ProtectionClass};
use fs_apfs::object::OBJ_PHYS_SIZE;

/// Builds a `kb_locker_t` from `(uuid, tag, key_data)` entries.
fn keybag(version: u16, entries: &[([u8; 16], u16, Vec<u8>)]) -> Vec<u8> {
    let mut b = Vec::new();
    b.extend_from_slice(&version.to_le_bytes());
    b.extend_from_slice(
        &u16::try_from(entries.len())
            .expect("the test fixture value fits in u16")
            .to_le_bytes(),
    );
    b.extend_from_slice(&0u32.to_le_bytes()); // kl_nbytes (filled below)
    b.extend_from_slice(&[0u8; 8]); // padding
    for (uuid, tag, data) in entries {
        let start = b.len();
        b.extend_from_slice(uuid);
        b.extend_from_slice(&tag.to_le_bytes());
        b.extend_from_slice(
            &u16::try_from(data.len())
                .expect("the test fixture value fits in u16")
                .to_le_bytes(),
        );
        b.extend_from_slice(&[0u8; 4]); // padding
        b.extend_from_slice(data);
        // Pad the entry to a sixteen-byte boundary.
        let aligned = ((b.len() - start) + 15) & !15;
        b.resize(start + aligned, 0);
    }
    let nbytes = u32::try_from(b.len()).expect("the test fixture value fits in u32");
    b[4..8].copy_from_slice(&nbytes.to_le_bytes());
    b
}

#[test]
fn keybag_tag_decodes() {
    assert_eq!(KeybagTag::from_value(2), KeybagTag::VolumeKey);
    assert_eq!(KeybagTag::from_value(4), KeybagTag::VolumePassphraseHint);
    assert_eq!(KeybagTag::from_value(99), KeybagTag::Other(99));
}

#[test]
fn protection_class_decodes_and_masks() {
    assert_eq!(ProtectionClass::from_value(0), ProtectionClass::DirNone);
    assert_eq!(ProtectionClass::from_value(1), ProtectionClass::A);
    assert_eq!(ProtectionClass::from_value(4), ProtectionClass::D);
    // High bits outside CP_EFFECTIVE_CLASSMASK are ignored.
    assert_eq!(ProtectionClass::from_value(0xFF00 | 3), ProtectionClass::C);
}

#[test]
fn parses_a_keybag_with_two_entries() {
    let bag = keybag(
        2,
        &[
            ([0x11; 16], 2, vec![0xAA; 32]),        // VolumeKey
            ([0x22; 16], 4, b"my hint\0".to_vec()), // PassphraseHint
        ],
    );
    let kb = Keybag::parse(&bag).unwrap();
    assert_eq!(kb.version, 2);
    assert_eq!(kb.entries.len(), 2);
    assert_eq!(kb.entries[0].tag, KeybagTag::VolumeKey);
    assert_eq!(kb.entries[0].key_data, vec![0xAA; 32]);
    assert_eq!(kb.passphrase_hint().as_deref(), Some("my hint"));
}

#[test]
fn entry_lookup_by_tag() {
    let bag = keybag(2, &[([0x33; 16], 6, vec![1, 2, 3])]);
    let kb = Keybag::parse(&bag).unwrap();
    assert!(kb.entry_with_tag(KeybagTag::VolumeMKey).is_some());
    assert!(kb.entry_with_tag(KeybagTag::VolumeKey).is_none());
}

#[test]
fn rejects_an_unsupported_keybag_version() {
    let bag = keybag(1, &[]);
    assert!(matches!(
        Keybag::parse(&bag),
        Err(ApfsError::Unsupported(_))
    ));
}

#[test]
fn rejects_an_oversized_key_entry_length() {
    let mut bag = keybag(2, &[([0x44; 16], 2, vec![1, 2, 3])]);
    // ke_keylen sits at offset +18 of the first entry, which begins at
    // KB_LOCKER_HEADER_SIZE.
    let keylen_off = KB_LOCKER_HEADER_SIZE + 18;
    bag[keylen_off..keylen_off + 2].copy_from_slice(
        &u16::try_from(APFS_VOL_KEYBAG_ENTRY_MAX_SIZE)
            .expect("the test fixture value fits in u16")
            .to_le_bytes(),
    );
    assert!(matches!(
        Keybag::parse(&bag),
        Err(ApfsError::Malformed { .. })
    ));
}

#[test]
fn entry_past_the_keybag_is_rejected() {
    let mut bag = keybag(2, &[]);
    // Claim one entry but provide no entry bytes.
    bag[2..4].copy_from_slice(&1u16.to_le_bytes());
    assert!(matches!(
        Keybag::parse(&bag),
        Err(ApfsError::Malformed { .. })
    ));
}

/// Prefixes `bag` with an `obj_phys_t` header whose first byte differs from
/// the `kb_locker` version's low byte. The wrapper turns a bare keybag into
/// the `media_keybag_t` form that requires header detection to skip.
fn media_keybag(bag: Vec<u8>) -> Vec<u8> {
    let mut wrapped = vec![0u8; OBJ_PHYS_SIZE];
    // A non-zero checksum byte ensures the obj_phys prefix is NOT a valid
    // kb_locker (whose version field starts with 0x02).
    wrapped[0] = 0xAB;
    wrapped.extend(bag);
    wrapped
}

#[test]
fn parses_a_media_keybag_with_an_obj_phys_prefix() {
    let bare = keybag(2, &[([0x55; 16], 2, vec![0xCD; 8])]);
    let wrapped = media_keybag(bare);
    let kb = Keybag::parse(&wrapped).unwrap();
    assert_eq!(kb.version, 2);
    assert_eq!(kb.entries.len(), 1);
    assert_eq!(kb.entries[0].tag, KeybagTag::VolumeKey);
    assert_eq!(kb.entries[0].key_data, vec![0xCD; 8]);
}

#[test]
fn parses_a_media_keybag_header_only() {
    let bare = keybag(2, &[]);
    let wrapped = media_keybag(bare);
    assert_eq!(wrapped.len(), OBJ_PHYS_SIZE + KB_LOCKER_HEADER_SIZE);
    let kb = Keybag::parse(&wrapped).unwrap();
    assert_eq!(kb.version, 2);
    assert!(kb.entries.is_empty());
}

#[test]
fn a_bare_keybag_with_zero_bytes_behind_its_header_is_read_whole() {
    // The entry's tail and the empty key look like a locker behind a header.
    let bag = keybag(2, &[([0x11; 16], 2, Vec::new())]);
    assert_eq!(bag.len(), 48);
    let kb = Keybag::parse(&bag).unwrap();
    assert_eq!(kb.version, 2);
    assert_eq!(kb.entries.len(), 1);
    assert_eq!(kb.entries[0].uuid, [0x11; 16]);
    assert_eq!(kb.entries[0].tag, KeybagTag::VolumeKey);
    assert_eq!(kb.entries[0].key_data, Vec::<u8>::new());
}
