//! APFS directory-name hashing and Unicode-aware name folding.
//!
//! A directory-entry key on a case-insensitive or normalization-insensitive
//! volume (`j_drec_hashed_key_t`) carries a precomputed hash of the name. The
//! hash is a CRC-32C over the name after Unicode normalization (NFD) and, on
//! case-insensitive volumes, case folding, letting a lookup find an entry
//! without normalizing every name in the directory.
//!
//! Normalization (NFD) is exact: Unicode's Normalization Stability Policy
//! freezes every canonical decomposition. Case folding here is lowercasing,
//! which is *conservative*: it never reports two distinct names as equal, so
//! its only failure mode is missing a match for the few code points where
//! Unicode case folding differs from lowercasing.

use unicode_normalization::UnicodeNormalization;
use vstd::prelude::*;
use vstd::utf8::*;

use crate::bytes;

verus! {

/// Reflected CRC-32C polynomial, with which APFS hashes directory names.
pub const CRC32C_POLY: u32 = 0x82F6_3B78;

/// The number of values of a name hash.
pub const NAME_HASH_RANGE: u32 = 0x0040_0000;

/// The number of values of a stored name length.
pub const NAME_LEN_RANGE: u32 = 0x0400;

/// The canonical decomposition (NFD) of a text.
pub uninterp spec fn nfd(name: Seq<char>) -> Seq<char>;

/// The lowercase mapping of a character.
pub uninterp spec fn lowercase(ch: char) -> Seq<char>;

/// Decomposes a text with `UnicodeNormalization::nfd`: a function of the text
/// that leaves ASCII text as it is. What it does to other text is not described
/// further.
#[verifier::external_body]
fn nfd_chars(name: &str) -> (chars: Vec<char>)
    ensures
        chars@ == nfd(name@),
        is_ascii_chars(name@) ==> chars@ == name@,
{
    name.nfd().collect()
}

/// The lowercase form of an ASCII letter; another character itself.
pub open spec fn ascii_lower(ch: char) -> char {
    if 'A' <= ch <= 'Z' {
        (ch as u32 + 32) as char
    } else {
        ch
    }
}

/// Lowercases a character with `char::to_lowercase`: a function of the
/// character. It gives the lowercase mapping of the Unicode Character Database,
/// and the character itself where that has none: of the ASCII characters, the
/// capital letters map to the small ones and the others have no mapping. Which
/// characters it gives for others is not described further.
#[verifier::external_body]
fn lowercase_chars(ch: char) -> (chars: Vec<char>)
    ensures
        chars@ == lowercase(ch),
        ch <= '\u{7f}' ==> chars@ == seq![ascii_lower(ch)],
{
    ch.to_lowercase().collect()
}

/// A text in its canonical decomposition, which ASCII text is in.
pub open spec fn decomposed(name: Seq<char>) -> Seq<char> {
    if is_ascii_chars(name) {
        name
    } else {
        nfd(name)
    }
}

/// A character in lowercase.
pub open spec fn lower(ch: char) -> Seq<char> {
    if ch <= '\u{7f}' {
        seq![ascii_lower(ch)]
    } else {
        lowercase(ch)
    }
}

/// The lowercase mappings of the characters of a text, put together.
pub open spec fn lowercased(chars: Seq<char>) -> Seq<char>
    decreases chars.len(),
{
    if chars.len() == 0 {
        Seq::empty()
    } else {
        lowercased(chars.drop_last()) + lower(chars.last())
    }
}

/// A decomposed text, lowercased if case is folded.
pub open spec fn folded_chars(chars: Seq<char>, case_fold: bool) -> Seq<char> {
    if case_fold {
        lowercased(chars)
    } else {
        chars
    }
}

/// The form in which a name is hashed and compared.
pub open spec fn folded(name: Seq<char>, case_fold: bool) -> Seq<char> {
    folded_chars(decomposed(name), case_fold)
}

/// A CRC register after one more bit.
pub open spec fn crc_bit(crc: u32) -> u32 {
    if crc % 2 == 1 {
        (crc / 2) ^ CRC32C_POLY
    } else {
        crc / 2
    }
}

/// A CRC register after `count` more bits.
pub open spec fn crc_bits(crc: u32, count: nat) -> u32
    decreases count,
{
    if count == 0 {
        crc
    } else {
        crc_bit(crc_bits(crc, (count - 1) as nat))
    }
}

/// The CRC register after the given bytes: reflected, initialized to all ones,
/// with no final XOR.
pub open spec fn crc_of(data: Seq<u8>) -> u32
    decreases data.len(),
{
    if data.len() == 0 {
        0xFFFF_FFFF
    } else {
        crc_bits(crc_of(data.drop_last()) ^ (data.last() as u32), 8)
    }
}

/// The code points of a text as little-endian 32-bit values.
pub open spec fn code_point_bytes(chars: Seq<char>) -> Seq<u8>
    decreases chars.len(),
{
    if chars.len() == 0 {
        Seq::empty()
    } else {
        code_point_bytes(chars.drop_last()) + bytes::u32_le_bytes(chars.last() as u32)
    }
}

/// The 22-bit hash of a name in its folded form.
pub open spec fn hash_of(folded_name: Seq<char>) -> u32 {
    crc_of(code_point_bytes(folded_name)) % NAME_HASH_RANGE
}

/// The hash of a name in the high bits, and the length with which it is stored
/// in the low ten bits: its UTF-8 bytes and a trailing NUL.
pub open spec fn packed_hash(folded_name: Seq<char>, name_len: nat) -> u32 {
    (hash_of(folded_name) * NAME_LEN_RANGE + (name_len + 1) % NAME_LEN_RANGE as nat) as u32
}

/// The `name_len_and_hash` field for a name.
pub open spec fn name_hash_of(name: Seq<char>, case_fold: bool) -> u32 {
    packed_hash(folded(name, case_fold), encode_utf8(name).len())
}

/// The two parts of a `name_len_and_hash` field can be read back from it.
pub proof fn law_packed_hash_parts(folded_name: Seq<char>, name_len: nat)
    ensures
        packed_hash(folded_name, name_len) / NAME_LEN_RANGE == hash_of(folded_name),
        packed_hash(folded_name, name_len) % NAME_LEN_RANGE == (name_len + 1)
            % NAME_LEN_RANGE as nat,
{
}

/// Names that are equal in their folded form have equal hashes.
pub proof fn law_equal_names_hash_alike(left: Seq<char>, right: Seq<char>, case_fold: bool)
    requires
        folded(left, case_fold) == folded(right, case_fold),
    ensures
        name_hash_of(left, case_fold) / NAME_LEN_RANGE == name_hash_of(right, case_fold)
            / NAME_LEN_RANGE,
{
    law_packed_hash_parts(folded(left, case_fold), encode_utf8(left).len());
    law_packed_hash_parts(folded(right, case_fold), encode_utf8(right).len());
}

proof fn lemma_ascii_lowercased(chars: Seq<char>)
    requires
        is_ascii_chars(chars),
    ensures
        lowercased(chars) == chars.map_values(|ch: char| ascii_lower(ch)),
    decreases chars.len(),
{
    let mapped = chars.map_values(|ch: char| ascii_lower(ch));
    if chars.len() == 0 {
        assert(mapped =~= Seq::empty());
    } else {
        let less = chars.drop_last();
        assert forall|i: int| 0 <= i < less.len() implies '\0' <= #[trigger] less[i]
            <= '\u{7f}' by {
            assert(less[i] == chars[i]);
        }
        lemma_ascii_lowercased(less);
        assert('\0' <= chars[chars.len() - 1] <= '\u{7f}');
        assert(lowercased(chars) =~= mapped);
    }
}

/// The folded form of an ASCII name is the name itself, with its letters in
/// lowercase if case is folded.
pub proof fn law_ascii_names_are_folded(name: Seq<char>, case_fold: bool)
    requires
        is_ascii_chars(name),
    ensures
        folded(name, case_fold) == if case_fold {
            name.map_values(|ch: char| ascii_lower(ch))
        } else {
            name
        },
{
    lemma_ascii_lowercased(name);
}

/// Two ASCII names that differ only in the case of their letters have the same
/// form, and the same hash, where case is folded.
pub proof fn law_case_of_ascii_names_is_ignored(left: Seq<char>, right: Seq<char>)
    requires
        is_ascii_chars(left),
        is_ascii_chars(right),
        left.len() == right.len(),
        forall|i: int|
            0 <= i < left.len() ==> ascii_lower(#[trigger] left[i]) == ascii_lower(right[i]),
    ensures
        folded(left, true) == folded(right, true),
        name_hash_of(left, true) == name_hash_of(right, true),
{
    law_ascii_names_are_folded(left, true);
    law_ascii_names_are_folded(right, true);
    assert(folded(left, true) =~= folded(right, true));
    is_ascii_chars_encode_utf8(left);
    is_ascii_chars_encode_utf8(right);
}

/// Computes the APFS directory-name CRC-32C over `data`.
///
/// Reflected, initialized to `0xFFFFFFFF`, with **no** final XOR: APFS uses the
/// raw register value.
#[must_use]
pub fn crc32c(data: &[u8]) -> (crc: u32)
    ensures
        crc == crc_of(data@),
{
    let mut crc: u32 = 0xFFFF_FFFF;
    let mut i: usize = 0;
    while i < data.len()
        invariant
            i <= data@.len(),
            crc == crc_of(data@.take(i as int)),
        decreases data@.len() - i,
    {
        proof {
            assert(data@.take(i + 1).drop_last() =~= data@.take(i as int));
        }
        let start: u32 = crc ^ (data[i] as u32);
        let mut register: u32 = start;
        let mut bit: u8 = 0;
        while bit < 8
            invariant
                bit <= 8,
                register == crc_bits(start, bit as nat),
            decreases 8 - bit,
        {
            register = if register % 2 == 1 {
                (register / 2) ^ CRC32C_POLY
            } else {
                register / 2
            };
            bit += 1;
        }
        crc = register;
        i += 1;
    }
    proof {
        assert(data@.take(i as int) =~= data@);
    }
    crc
}

/// Lowercases a decomposed text if `case_fold` is set.
#[must_use]
pub fn fold_chars(chars: Vec<char>, case_fold: bool) -> (out: Vec<char>)
    ensures
        out@ == folded_chars(chars@, case_fold),
{
    if !case_fold {
        return chars;
    }
    let mut out: Vec<char> = Vec::new();
    let mut i: usize = 0;
    while i < chars.len()
        invariant
            i <= chars@.len(),
            out@ == lowercased(chars@.take(i as int)),
        decreases chars@.len() - i,
    {
        proof {
            assert(chars@.take(i + 1).drop_last() =~= chars@.take(i as int));
        }
        let mut mapped: Vec<char> = lowercase_chars(chars[i]);
        out.append(&mut mapped);
        i += 1;
    }
    proof {
        assert(chars@.take(i as int) =~= chars@);
    }
    out
}

/// Normalizes `name` to NFD and, when `case_fold` is set, case-folds it,
/// returning the resulting code-point sequence.
///
/// This is the canonical form APFS hashes and compares; the hash and the
/// comparison of names both go through it, so they always agree.
#[must_use]
pub fn normalize_fold(name: &str, case_fold: bool) -> (out: Vec<char>)
    ensures
        out@ == folded(name@, case_fold),
{
    fold_chars(nfd_chars(name), case_fold)
}

/// Computes the `name_len_and_hash` field for a name of `name_len` UTF-8 bytes
/// with the given folded form.
#[must_use]
pub fn hash_folded(folded_name: &[char], name_len: usize) -> (packed: u32)
    ensures
        packed == packed_hash(folded_name@, name_len as nat),
{
    // The CRC runs over the code points as little-endian 32-bit values.
    let mut data: Vec<u8> = Vec::new();
    let mut i: usize = 0;
    while i < folded_name.len()
        invariant
            i <= folded_name@.len(),
            data@ == code_point_bytes(folded_name@.take(i as int)),
        decreases folded_name@.len() - i,
    {
        proof {
            assert(folded_name@.take(i + 1).drop_last() =~= folded_name@.take(i as int));
        }
        bytes::push_u32(&mut data, folded_name[i] as u32);
        i += 1;
    }
    proof {
        assert(folded_name@.take(i as int) =~= folded_name@);
    }
    let hash: u32 = crc32c(data.as_slice()) % NAME_HASH_RANGE;
    // The stored name length includes the trailing NUL.
    let stored_len: u32 = ((name_len % NAME_LEN_RANGE as usize) as u32 + 1) % NAME_LEN_RANGE;
    hash * NAME_LEN_RANGE + stored_len
}

/// Computes the `name_len_and_hash` field of a `j_drec_hashed_key_t` for
/// `name`, case-folding when `case_fold` is set.
///
/// The result packs the 22-bit name hash in the high bits and the stored name
/// length, the UTF-8 byte length plus the trailing NUL, in the low ten bits.
#[must_use]
pub fn name_hash(name: &str, case_fold: bool) -> (packed: u32)
    ensures
        packed == name_hash_of(name@, case_fold),
{
    let folded_name: Vec<char> = normalize_fold(name, case_fold);
    let encoded: &[u8] = name.as_bytes();
    hash_folded(folded_name.as_slice(), encoded.len())
}

/// Whether two texts have the same characters.
#[must_use]
pub fn same_chars(left: &[char], right: &[char]) -> (same: bool)
    ensures
        same == (left@ == right@),
{
    if left.len() != right.len() {
        return false;
    }
    let mut i: usize = 0;
    while i < left.len()
        invariant
            i <= left@.len() == right@.len(),
            forall|k: int| 0 <= k < i ==> left@[k] == right@[k],
        decreases left@.len() - i,
    {
        if left[i] != right[i] {
            return false;
        }
        i += 1;
    }
    assert(left@ =~= right@);
    true
}

/// The low ten bits of a name's field are one more than the length of its UTF-8 form, for the
/// trailing NUL, and the 22 bits above are the low 22 bits of the CRC-32C of its folded form,
/// four bytes for each character.
pub proof fn law_name_field_is_length_and_hash(name: Seq<char>, case_fold: bool)
    ensures
        name_hash_of(name, case_fold) % 1024 == (encode_utf8(name).len() + 1) % 1024,
        name_hash_of(name, case_fold) / 1024 == crc_of(code_point_bytes(folded(name, case_fold)))
            % 0x40_0000,
        code_point_bytes(folded(name, case_fold)).len() == 4 * folded(name, case_fold).len(),
{
    law_packed_hash_parts(folded(name, case_fold), encode_utf8(name).len());
    lemma_code_points(folded(name, case_fold));
}

proof fn lemma_code_points(chars: Seq<char>)
    ensures
        code_point_bytes(chars).len() == 4 * chars.len(),
        forall|i: int|
            0 <= i < chars.len() ==> bytes::le_u32(code_point_bytes(chars), 4 * i)
                == #[trigger] chars[i] as u32,
    decreases chars.len(),
{
    if chars.len() > 0 {
        let less = chars.drop_last();
        let before = code_point_bytes(less);
        let now = code_point_bytes(chars);
        let last = bytes::u32_le_bytes(chars.last() as u32);
        lemma_code_points(less);
        bytes::lemma_u32_round_trip(chars.last() as u32);
        assert forall|i: int| 0 <= i < chars.len() implies bytes::le_u32(now, 4 * i)
            == #[trigger] chars[i] as u32 by {
            if i < less.len() {
                assert(less[i] == chars[i]);
                assert(now[4 * i] == before[4 * i] && now[4 * i + 1] == before[4 * i + 1] && now[4
                    * i + 2] == before[4 * i + 2] && now[4 * i + 3] == before[4 * i + 3]);
            } else {
                assert(now[4 * i] == last[0] && now[4 * i + 1] == last[1] && now[4 * i + 2]
                    == last[2] && now[4 * i + 3] == last[3]);
            }
        }
    }
}

/// The bytes that a name's hash is taken of are its characters' numbers, of four bytes each,
/// least significant first.
pub proof fn law_hashed_bytes_are_the_characters(chars: Seq<char>, i: int)
    requires
        0 <= i < chars.len(),
    ensures
        bytes::le_u32(code_point_bytes(chars), 4 * i) == chars[i] as u32,
{
    lemma_code_points(chars);
}

/// A name that is not ASCII is put in its decomposed form, and where case is folded each of
/// the characters of that form is replaced by its lowercase.
pub proof fn law_other_names_are_decomposed(name: Seq<char>)
    requires
        !is_ascii_chars(name),
    ensures
        folded(name, false) == nfd(name),
        folded(name, true) == lowercased(nfd(name)),
{
}

/// The lowercase of characters is that of each of them, one behind the other; a character
/// beyond ASCII has the lowercase that Unicode gives it.
pub proof fn law_characters_are_lowercased_one_by_one(left: Seq<char>, right: Seq<char>, ch: char)
    ensures
        lowercased(left + right) == lowercased(left) + lowercased(right),
        ch > '\u{7f}' ==> lowercased(seq![ch]) == lowercase(ch),
        'A' <= ch <= 'Z' ==> lowercased(seq![ch]) == seq![(ch as u32 + 32) as char],
        ch <= '\u{7f}' && !('A' <= ch <= 'Z') ==> lowercased(seq![ch]) == seq![ch],
    decreases right.len(),
{
    let one = seq![ch];
    assert(one.drop_last() =~= Seq::<char>::empty());
    assert(lowercased(one.drop_last()) =~= Seq::<char>::empty());
    assert(lowercased(one) =~= lower(ch));
    if right.len() > 0 {
        law_characters_are_lowercased_one_by_one(left, right.drop_last(), ch);
        assert((left + right).drop_last() =~= left + right.drop_last());
        assert((left + right).last() == right.last());
        assert(lowercased(left + right) =~= lowercased(left) + lowercased(right));
    } else {
        assert(left + right =~= left);
        assert(lowercased(left) + lowercased(right) =~= lowercased(left));
    }
}

/// The CRC-32C of data starts from all ones and takes in each byte bit by bit: a register whose
/// lowest bit is set is halved and combined with the polynomial, and another is only halved.
pub proof fn law_crc_takes_in_each_byte(data: Seq<u8>, byte: u8, crc: u32)
    ensures
        crc_of(Seq::empty()) == 0xFFFF_FFFF,
        crc_of(data.push(byte)) == crc_bits(crc_of(data) ^ (byte as u32), 8),
        crc % 2 == 0 ==> crc_bits(crc, 1) == crc / 2,
        crc % 2 == 1 ==> crc_bits(crc, 1) == (crc / 2) ^ 0x82F6_3B78,
{
    assert(data.push(byte).drop_last() =~= data);
    assert(crc_bits(crc, 0) == crc);
}

} // verus!
