use fs_apfs::directory::{J_DREC_HASH_SHIFT, J_DREC_LEN_MASK};
use fs_apfs::unicode::{crc32c, name_hash, normalize_fold};

#[test]
fn crc32c_matches_the_standard_check_vector() {
    // The CRC-32C check value of "123456789" is 0xE3069283 once the
    // final XOR is applied; crc32c() omits that XOR, as APFS does.
    assert_eq!(crc32c(b"123456789") ^ 0xFFFF_FFFF, 0xE306_9283);
}

#[test]
fn normalize_fold_lowercases_ascii_when_folding() {
    assert_eq!(
        normalize_fold("ReadMe", true),
        vec!['r', 'e', 'a', 'd', 'm', 'e']
    );
    assert_eq!(
        normalize_fold("ReadMe", false),
        vec!['R', 'e', 'a', 'd', 'M', 'e']
    );
}

#[test]
fn normalize_fold_decomposes_a_precomposed_accent() {
    // U+00E9 (é) decomposes to 'e' + U+0301 (combining acute accent).
    assert_eq!(normalize_fold("\u{00E9}", false), vec!['e', '\u{0301}']);
}

#[test]
fn name_hash_packs_the_name_length() {
    // The low ten bits hold the UTF-8 length plus the NUL.
    let packed = name_hash("file.txt", false);
    assert_eq!(packed & J_DREC_LEN_MASK, "file.txt".len() as u32 + 1);
}

#[test]
fn name_hash_folds_case_when_requested() {
    // Case variants collide only under case folding.
    assert_eq!(name_hash("Photos", true), name_hash("photos", true));
    assert_ne!(name_hash("Photos", false), name_hash("photos", false));
}

#[test]
fn name_hash_matches_known_reference_vectors() {
    assert_eq!(name_hash("a", false), 0x7957_B002);
    assert_eq!(name_hash("ReadMe", false), 0x966F_A007);
    assert_eq!(name_hash("file.txt", false), 0x03C1_7C09);
}

#[test]
fn name_hash_matches_an_nfc_and_nfd_spelling() {
    // Precomposed "café" and decomposed "cafe\u{0301}" normalize alike,
    // so their hash bits agree even though the stored byte lengths —
    // and thus the packed length bits — differ.
    assert_eq!(
        name_hash("caf\u{00E9}", false) >> J_DREC_HASH_SHIFT,
        name_hash("cafe\u{0301}", false) >> J_DREC_HASH_SHIFT,
    );
}
