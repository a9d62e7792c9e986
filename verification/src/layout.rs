//! Where each field of an on-disk structure lies.
//!
//! The laws here fix the size, the magic number and the place of every field of the
//! structures that the parsers read, as numbers of bytes from the start of the
//! structure, and what the numbers that stand for kinds mean.

use vstd::prelude::*;

use crate::btree;
use crate::bytes;
use crate::catalog;
use crate::catalog::{Catalog, FromRecord, JObjType, Selection};
use crate::checkpoint;
use crate::clones;
use crate::clones::JObjKind;
use crate::container;
use crate::directory;
use crate::directory::DirEntryType;
use crate::efi;
use crate::enc_rolling;
use crate::enc_rolling::ErPhase;
use crate::error::ApfsError;
use crate::extended_field;
use crate::extent;
use crate::fext;
use crate::forensic;
use crate::fusion;
use crate::inode;
use crate::inode::FileType;
use crate::io::Device;
use crate::keybag;
use crate::keybag::{KeybagTag, ProtectionClass};
use crate::object;
use crate::omap;
use crate::reaper;
use crate::reaper::ReapPhase;
use crate::recovery;
use crate::sealed;
use crate::sealed::ApfsHashType;
use crate::sibling;
use crate::snapshot;
use crate::space_manager;
use crate::text;
use crate::time::NANOS_PER_SEC;
use crate::traverse;
use crate::traverse::EntryKind;
use crate::types;
use crate::types::ObjectType;
use crate::volume;
use crate::xattr;
use crate::xattr::XattrValueView;

verus! {

/// An object header takes 32 bytes: checksum, identifier, transaction, type, subtype.
pub proof fn law_object_header_fields(block: Seq<u8>)
    ensures
        object::header_at(block) is Ok <==> block.len() >= 32,
        object::header_at(block) matches Ok(header) ==> {
            &&& header.checksum == bytes::le_u64(block, 0)
            &&& header.oid == bytes::le_u64(block, 8)
            &&& header.xid == bytes::le_u64(block, 16)
            &&& header.raw_type == bytes::le_u32(block, 24)
            &&& header.subtype == bytes::le_u32(block, 28)
        },
{
}

/// An inode takes 92 bytes: parent, private identifier, four times, flags, the count of
/// children or links, protection class, a generation counter that is not kept, BSD flags,
/// owner, group, mode, two bytes that are not kept, and the size that the data has
/// uncompressed. What follows are its extended fields.
pub proof fn law_inode_fields(value: Seq<u8>)
    ensures
        inode::inode_of(value) is Ok <==> value.len() >= 92,
        inode::inode_of(value) matches Ok(found) ==> {
            &&& found.parent_id == bytes::le_u64(value, 0)
            &&& found.private_id == bytes::le_u64(value, 8)
            &&& found.create_time == bytes::le_u64(value, 16)
            &&& found.mod_time == bytes::le_u64(value, 24)
            &&& found.change_time == bytes::le_u64(value, 32)
            &&& found.access_time == bytes::le_u64(value, 40)
            &&& found.flags.0 == bytes::le_u64(value, 48)
            &&& found.nchildren_or_nlink == bytes::le_i32(value, 56)
            &&& found.default_protection_class == bytes::le_u32(value, 60)
            &&& found.bsd_flags == bytes::le_u32(value, 68)
            &&& found.owner == bytes::le_u32(value, 72)
            &&& found.group == bytes::le_u32(value, 76)
            &&& found.mode == bytes::le_u16(value, 80)
            &&& found.uncompressed_size == bytes::le_u64(value, 84)
            &&& found.xfields == value.skip(92)
        },
{
}

/// The value of a directory entry takes 18 bytes, object, time added and flags, and its
/// extended fields follow; the low four bits of the flags are the type of the entry. The
/// key of a hashed entry has a word after its header, with the hash in its upper 22 bits.
pub proof fn law_directory_entry_fields(key: Seq<u8>, value: Seq<u8>, hashed: bool)
    ensures
        directory::drec_value_of(value) is Ok <==> value.len() >= 18,
        directory::drec_value_of(value) matches Ok(found) ==> {
            &&& found.0 == bytes::le_u64(value, 0)
            &&& found.1 == bytes::le_u64(value, 8)
            &&& found.2 == bytes::le_u16(value, 16)
        },
        directory::drec_name_of(key, hashed) matches Ok(found) ==> found.1 == if hashed {
            Some(bytes::le_u32(key, 8) / 1024)
        } else {
            None
        },
        forall|header: catalog::JKey|
            #![trigger directory::dir_entry_of(
                (catalog::RecordView { key_header: header, key, value }),
                hashed,
            )]
            directory::dir_entry_of(
                (catalog::RecordView { key_header: header, key, value }),
                hashed,
            ) matches Ok(entry) ==> {
                &&& entry.file_id == bytes::le_u64(value, 0)
                &&& entry.date_added == bytes::le_u64(value, 8)
                &&& entry.file_type == directory::entry_type_of(bytes::le_u16(value, 16))
                &&& entry.xfields == value.skip(18)
                &&& directory::drec_name_of(key, hashed) == Ok::<
                    (Seq<char>, Option<u32>),
                    ApfsError,
                >((entry.name, entry.name_hash))
            },
{
}

/// A file-extent record has the extent's place in the file from byte 8 of its key on, and
/// in its value the length in the low seven bytes of the first word, then the block, then
/// the key identifier. A record of the extent tree of a sealed volume has the file and the
/// place as its key, and the length and the block as its value.
pub proof fn law_file_extent_fields(key: Seq<u8>, value: Seq<u8>)
    ensures
        extent::file_extent_of(key, value) is Ok <==> key.len() >= 16 && value.len() >= 24,
        extent::file_extent_of(key, value) matches Ok(found) ==> {
            &&& found.logical_addr == bytes::le_u64(key, 8)
            &&& found.length == bytes::le_u64(value, 0) % 0x0100_0000_0000_0000
            &&& found.phys_block_num == bytes::le_u64(value, 8)
            &&& found.crypto_id == bytes::le_u64(value, 16)
        },
        fext::fext_record_of(key, Some(value)) is Ok <==> key.len() >= 16 && value.len() >= 16,
        fext::fext_record_of(key, None) is Err,
        fext::fext_record_of(key, Some(value)) matches Ok(found) ==> {
            &&& found.private_id == bytes::le_u64(key, 0)
            &&& found.extent.logical_addr == bytes::le_u64(key, 8)
            &&& found.extent.length == bytes::le_u64(value, 0) % 0x0100_0000_0000_0000
            &&& found.extent.phys_block_num == bytes::le_u64(value, 8)
            &&& found.extent.crypto_id == 0
        },
{
    let word = bytes::le_u64(value, 0);
    assert(word & 0x00FF_FFFF_FFFF_FFFF == word % 0x0100_0000_0000_0000) by (bit_vector);
}

/// A data stream takes 40 bytes: size, allocated size, key identifier, and the bytes
/// written and read.
pub proof fn law_data_stream_fields(data: Seq<u8>)
    ensures
        extent::data_stream_of(data) is Ok <==> data.len() >= 40,
        extent::data_stream_of(data) matches Ok(stream) ==> {
            &&& stream.size == bytes::le_u64(data, 0)
            &&& stream.alloced_size == bytes::le_u64(data, 8)
            &&& stream.default_crypto_id == bytes::le_u64(data, 16)
            &&& stream.total_bytes_written == bytes::le_u64(data, 24)
            &&& stream.total_bytes_read == bytes::le_u64(data, 32)
        },
{
}

/// An attribute has the length of its name at byte 8 of its key and the name from byte 10
/// on, up to a zero. Its value has flags, a length and the data; with the lowest flag bit
/// the data is an object and a data stream, and else it is the attribute itself.
pub proof fn law_attribute_fields(key: Seq<u8>, value: Seq<u8>)
    ensures
        xattr::xattr_of(key, value) matches Ok(found) ==> {
            let name_end = 10 + bytes::le_u16(key, 8);
            let data_end = 4 + bytes::le_u16(value, 2);
            let data = value.subrange(4, data_end);
            &&& 10 <= name_end <= key.len()
            &&& 4 <= data_end <= value.len()
            &&& found.name == text::decoded(bytes::before_nul(key.subrange(10, name_end)))
            &&& found.flags.0 == bytes::le_u16(value, 0)
            &&& value[0] % 2 == 0 ==> found.value == XattrValueView::Embedded(data)
            &&& value[0] % 2 == 1 ==> data.len() >= 48 && (found.value matches XattrValueView::Stream(
                obj_id,
                stream,
            ) && obj_id == bytes::le_u64(value, 4) && stream.size == bytes::le_u64(value, 12)
                && stream.alloced_size == bytes::le_u64(value, 20))
        },
{
    if let Ok(found) = xattr::xattr_of(key, value) {
        let flags = bytes::le_u16(value, 0);
        let data = value.subrange(4, 4 + bytes::le_u16(value, 2));
        assert(flags & 1 == 1 <==> flags % 2 == 1) by (bit_vector);
        if value[0] % 2 == 1 {
            let stored = data.skip(8);
            assert(forall|i: int| 0 <= i < data.len() ==> data[i] == value[4 + i]);
            assert(forall|i: int| 0 <= i < stored.len() ==> stored[i] == value[12 + i]);
            assert(data[0] == value[4] && data[1] == value[5] && data[2] == value[6] && data[3]
                == value[7]);
            assert(data[4] == value[8] && data[5] == value[9] && data[6] == value[10] && data[7]
                == value[11]);
        }
    }
}

/// A snapshot's value takes 50 bytes before its name: extent-reference tree, superblock,
/// times of creation and change, inode, a word that is not kept, flags, and the length of
/// the name, which follows up to a zero. Its transaction is the one of its key.
pub proof fn law_snapshot_fields(xid: u64, value: Seq<u8>)
    ensures
        snapshot::snapshot_of(xid, value) is Ok <==> value.len() >= 50 && 50 + bytes::le_u16(
            value,
            48,
        ) <= value.len(),
        snapshot::snapshot_of(xid, value) matches Ok(found) ==> {
            &&& found.xid == xid
            &&& found.extentref_tree_oid == bytes::le_u64(value, 0)
            &&& found.sblock_oid == bytes::le_u64(value, 8)
            &&& found.create_time.0 == bytes::le_u64(value, 16)
            &&& found.change_time.0 == bytes::le_u64(value, 24)
            &&& found.inum == bytes::le_u64(value, 32)
            &&& found.flags.0 == bytes::le_u32(value, 44)
            &&& found.name == text::decoded(
                bytes::before_nul(value.subrange(50, 50 + bytes::le_u16(value, 48))),
            )
        },
{
}

/// A snapshot's extended metadata takes 40 bytes, version, flags, transaction, UUID and
/// token, and follows the 32 bytes of a header where it is stored as an object.
pub proof fn law_snapshot_extension_fields(body: Seq<u8>, header: Seq<u8>)
    ensures
        snapshot::snap_meta_ext_of(body) is Ok <==> body.len() >= 40,
        snapshot::snap_meta_ext_of(body) matches Ok(found) ==> {
            &&& found.version == bytes::le_u32(body, 0)
            &&& found.flags == bytes::le_u32(body, 4)
            &&& found.snap_xid == bytes::le_u64(body, 8)
            &&& found.uuid == body.subrange(16, 32)
            &&& found.token == bytes::le_u64(body, 32)
        },
        header.len() == 32 ==> snapshot::snap_meta_ext_object(header + body)
            == snapshot::snap_meta_ext_of(body),
{
    assert(header.len() == 32 ==> (header + body).skip(32) =~= body);
}

/// A hard link has its identifier from byte 8 of its key on; its value has the parent, the
/// length of the name and the name, up to a zero.
pub proof fn law_sibling_fields(key: Seq<u8>, value: Seq<u8>)
    ensures
        sibling::sibling_link_of(key, value) is Ok <==> key.len() >= 16 && value.len() >= 10 && 10
            + bytes::le_u16(value, 8) <= value.len(),
        sibling::sibling_link_of(key, value) matches Ok(found) ==> {
            &&& found.sibling_id == bytes::le_u64(key, 8)
            &&& found.parent_id == bytes::le_u64(value, 0)
            &&& found.name == text::decoded(
                bytes::before_nul(value.subrange(10, 10 + bytes::le_u16(value, 8))),
            )
        },
{
}

/// A physical extent's value takes 20 bytes: a word with the length in blocks in its low
/// 60 bits and the kind above, the owner, and the reference count.
pub proof fn law_physical_extent_fields(value: Seq<u8>)
    ensures
        clones::physical_extent_of(value) is Ok <==> value.len() >= 20,
        clones::physical_extent_of(value) matches Ok(found) ==> {
            &&& found.length_blocks == bytes::le_u64(value, 0) % 0x1000_0000_0000_0000
            &&& found.kind == clones::obj_kind_of((value[7] / 16) as u8)
            &&& found.owning_obj_id == bytes::le_u64(value, 8)
            &&& found.refcnt == bytes::le_i32(value, 16)
        },
{
    bytes::law_bytes_weigh_by_their_place(value, 0);
}

/// A volume's superblock takes 1040 bytes and has `APSB` at byte 32.
pub proof fn law_volume_superblock_fields(block: Seq<u8>)
    ensures
        volume::volume_superblock_of(block) is Ok <==> block.len() >= 1040
            && types::object_type_of(bytes::le_u32(block, 24)) == ObjectType::Fs && block[32] == 0x41
            && block[33] == 0x50 && block[34] == 0x53 && block[35] == 0x42,
        volume::volume_superblock_of(block) matches Ok(found) ==> {
            &&& found.incompatible_features.0 == bytes::le_u64(block, 56)
            &&& found.omap_oid.0 == bytes::le_u64(block, 128)
            &&& found.root_tree_oid.0 == bytes::le_u64(block, 136)
            &&& found.extentref_tree_oid.0 == bytes::le_u64(block, 144)
            &&& found.snap_meta_tree_oid.0 == bytes::le_u64(block, 152)
            &&& found.integrity_meta_oid.0 == bytes::le_u64(block, 1024)
            &&& found.fext_tree_oid.0 == bytes::le_u64(block, 1032)
            &&& found.name == text::decoded(bytes::before_nul(block.subrange(704, 960)))
        },
{
    bytes::law_bytes_weigh_by_their_place(block, 32);
}

/// A container's superblock takes 1408 bytes, has `NXSB` at byte 32 and a block size that
/// is a power of two from 4096 to 65536, and says nothing of features that are not known
/// nor of more than a hundred volumes.
pub proof fn law_container_superblock_is_checked(block: Seq<u8>)
    ensures
        container::superblock_of(block) is Ok <==> {
            let size = bytes::le_u32(block, 36);
            &&& block.len() >= 1408
            &&& types::object_type_of(bytes::le_u32(block, 24)) == ObjectType::NxSuperblock
            &&& block[32] == 0x4E && block[33] == 0x58 && block[34] == 0x53 && block[35] == 0x42
            &&& size == 4096 || size == 8192 || size == 16384 || size == 32768 || size == 65536
            &&& bytes::le_u64(block, 64) & !0x102u64 == 0
            &&& bytes::le_u32(block, 180) <= 100
        },
{
    lemma_magic(block);
}

proof fn lemma_magic(block: Seq<u8>)
    ensures
        bytes::le_u32(block, 32) == 0x4253_584E <==> block[32] == 0x4E && block[33] == 0x58
            && block[34] == 0x53 && block[35] == 0x42,
{
    bytes::law_bytes_weigh_by_their_place(block, 32);
}

/// Where the fields of a container's superblock lie.
pub proof fn law_container_superblock_fields(block: Seq<u8>)
    ensures
        container::superblock_of(block) matches Ok(found) ==> {
            &&& found.xid.0 == bytes::le_u64(block, 16)
            &&& found.block_size == bytes::le_u32(block, 36)
            &&& found.block_count == bytes::le_u64(block, 40)
            &&& found.features.0 == bytes::le_u64(block, 48)
            &&& found.readonly_compatible_features == bytes::le_u64(block, 56)
            &&& found.incompatible_features.0 == bytes::le_u64(block, 64)
            &&& found.uuid == block.subrange(72, 88)
            &&& found.next_oid.0 == bytes::le_u64(block, 88)
            &&& found.next_xid.0 == bytes::le_u64(block, 96)
            &&& found.xp_desc.blocks == bytes::le_u32(block, 104)
            &&& found.xp_data.blocks == bytes::le_u32(block, 108)
            &&& found.xp_desc.base.0 == bytes::le_i64(block, 112)
            &&& found.xp_data.base.0 == bytes::le_i64(block, 120)
            &&& found.xp_desc.next == bytes::le_u32(block, 128)
            &&& found.xp_data.next == bytes::le_u32(block, 132)
            &&& found.xp_desc.index == bytes::le_u32(block, 136)
            &&& found.xp_desc.len == bytes::le_u32(block, 140)
            &&& found.xp_data.index == bytes::le_u32(block, 144)
            &&& found.xp_data.len == bytes::le_u32(block, 148)
            &&& found.spaceman_oid.0 == bytes::le_u64(block, 152)
            &&& found.omap_oid.0 == bytes::le_u64(block, 160)
            &&& found.reaper_oid.0 == bytes::le_u64(block, 168)
            &&& found.flags.0 == bytes::le_u64(block, 1264)
            &&& found.efi_jumpstart.0 == bytes::le_i64(block, 1272)
            &&& found.keylocker.start.0 == bytes::le_i64(block, 1296)
            &&& found.keylocker.block_count == bytes::le_u64(block, 1304)
            &&& found.fusion_wbc.start.0 == bytes::le_i64(block, 1368)
            &&& found.fusion_wbc.block_count == bytes::le_u64(block, 1376)
        },
{
}

/// The volumes of a container are the identifiers other than zero among the eight-byte
/// words from byte 184 of its superblock on, as many as the word at byte 180 counts, in
/// their order.
pub proof fn law_volume_identifiers(block: Seq<u8>, slots: nat)
    ensures
        container::volume_oids(block, slots) == Seq::new(
            slots,
            |i: int| types::Oid(bytes::le_u64(block, 184 + 8 * i)),
        ).filter(|oid: types::Oid| oid.0 != 0),
        container::superblock_of(block) matches Ok(found) ==> found.fs_oids
            == container::volume_oids(block, bytes::le_u32(block, 180) as nat),
    decreases slots,
{
    reveal(Seq::filter);
    let all = Seq::new(slots, |i: int| types::Oid(bytes::le_u64(block, 184 + 8 * i)));
    if slots > 0 {
        let fewer = (slots - 1) as nat;
        law_volume_identifiers(block, fewer);
        assert(all.drop_last() =~= Seq::new(
            fewer,
            |i: int| types::Oid(bytes::le_u64(block, 184 + 8 * i)),
        ));
    } else {
        assert(all =~= Seq::<types::Oid>::empty());
    }
}

/// An object map takes 88 bytes: flags and the number of snapshots after the header, the
/// mapping tree, the snapshot tree and the newest snapshot after the two tree types.
pub proof fn law_object_map_fields(block: Seq<u8>)
    ensures
        omap::omap_of(block) is Ok <==> block.len() >= 88 && types::object_type_of(
            bytes::le_u32(block, 24),
        ) == ObjectType::Omap,
        omap::omap_of(block) matches Ok(found) ==> {
            &&& found.flags.0 == bytes::le_u32(block, 32)
            &&& found.snapshot_count == bytes::le_u32(block, 36)
            &&& found.tree_oid.0 == bytes::le_u64(block, 48)
            &&& found.snapshot_tree_oid.0 == bytes::le_u64(block, 56)
            &&& found.most_recent_snap.0 == bytes::le_u64(block, 64)
        },
{
}

/// A checkpoint map has flags and a count after the header, and then as many mappings of
/// 40 bytes as the count says: type, subtype, size, a word that is not kept, volume,
/// object and address.
pub proof fn law_checkpoint_map_fields(block: Seq<u8>)
    ensures
        checkpoint::map_of(block) is Ok <==> block.len() >= 40 && 40 + 40 * bytes::le_u32(
            block,
            36,
        ) <= block.len(),
        checkpoint::map_of(block) matches Ok(found) ==> {
            &&& found.flags == bytes::le_u32(block, 32)
            &&& found.mappings.len() == bytes::le_u32(block, 36)
            &&& forall|i: int|
                0 <= i < found.mappings.len() ==> {
                    let mapping = #[trigger] found.mappings[i];
                    let at = 40 + 40 * i;
                    &&& mapping.obj_type == bytes::le_u32(block, at)
                    &&& mapping.subtype == bytes::le_u32(block, at + 4)
                    &&& mapping.size == bytes::le_u32(block, at + 8)
                    &&& mapping.fs_oid.0 == bytes::le_u64(block, at + 16)
                    &&& mapping.oid.0 == bytes::le_u64(block, at + 24)
                    &&& mapping.paddr.0 == bytes::le_i64(block, at + 32)
                }
        },
{
}

/// A B-tree node has its flags, level and number of keys after the header, and the place
/// and the length of its table of contents, counted from byte 56. A root ends with 40
/// bytes about the tree, before which its values end.
pub proof fn law_tree_node_fields(block: Seq<u8>)
    ensures
        btree::node_of(block) is Ok <==> block.len() >= 56 && 56 + bytes::le_u16(block, 40)
            + bytes::le_u16(block, 42) <= block.len(),
        btree::node_is_root(block) <==> block[32] % 2 == 1,
        btree::node_is_leaf(block) <==> block[32] / 2 % 2 == 1,
        btree::node_level(block) == bytes::le_u16(block, 34),
        btree::node_key_count(block) == bytes::le_u32(block, 36),
        btree::info_of(block) matches Ok(None) <==> block[32] % 2 == 0,
        block[32] % 2 == 1 && block.len() >= 96 ==> (btree::info_of(block) matches Ok(Some(info))
            && {
            let at = block.len() - 40;
            &&& info.flags.0 == bytes::le_u32(block, at)
            &&& info.node_size == bytes::le_u32(block, at + 4)
            &&& info.key_size == bytes::le_u32(block, at + 8)
            &&& info.val_size == bytes::le_u32(block, at + 12)
            &&& info.longest_key == bytes::le_u32(block, at + 16)
            &&& info.longest_val == bytes::le_u32(block, at + 20)
            &&& info.key_count == bytes::le_u64(block, at + 24)
            &&& info.node_count == bytes::le_u64(block, at + 32)
        }),
{
    let flags = bytes::le_u16(block, 32);
    assert((flags & 1 == 1 <==> flags % 2 == 1) && (flags & 2 == 2 <==> flags / 2 % 2 == 1))
        by (bit_vector);
    assert(flags / 2 == block[32] / 2 + 128 * block[33]);
}

/// An entry of a B-tree node is found through the table of contents. Each place in the
/// table has the key's offset and length and the value's, of two bytes each; in a node of
/// entries of one size, marked by the third lowest flag bit, only the offsets. Keys count
/// from the end of the table, values back from the end of the node, or from 40 bytes before
/// it in a root. A value at offset 65535 is absent.
pub proof fn law_tree_entry_places(block: Seq<u8>, index: u32, key_len: usize, val_len: usize)
    ensures
        btree::entry_of(block, index, key_len, val_len) matches Ok(entry) ==> {
            let table = 56 + bytes::le_u16(block, 40);
            let keys = table + bytes::le_u16(block, 42);
            let values = if block[32] % 2 == 1 {
                block.len() - 40
            } else {
                block.len() as int
            };
            let fixed = block[32] / 4 % 2 == 1;
            let at = if fixed {
                table + 4 * index
            } else {
                table + 8 * index
            };
            let key_off = bytes::le_u16(block, at) as int;
            let val_off = if fixed {
                bytes::le_u16(block, at + 2) as int
            } else {
                bytes::le_u16(block, at + 4) as int
            };
            let key_size = if fixed {
                key_len as int
            } else {
                bytes::le_u16(block, at + 2) as int
            };
            let val_size = if fixed {
                val_len as int
            } else {
                bytes::le_u16(block, at + 6) as int
            };
            &&& index < bytes::le_u32(block, 36)
            &&& entry.key == block.subrange(keys + key_off, keys + key_off + key_size)
            &&& entry.value == if val_off == 65535 {
                None
            } else {
                Some(block.subrange(values - val_off, values - val_off + val_size))
            }
        },
{
    let flags = bytes::le_u16(block, 32);
    assert((flags & 1 == 1 <==> flags % 2 == 1) && (flags & 4 == 4 <==> flags / 4 % 2 == 1))
        by (bit_vector);
    assert(flags / 4 == block[32] / 4 + 64 * block[33]);
}

/// An extended-field region has a count and the number of bytes that it uses; then, of four
/// bytes each, the type, the flags and the size of every field; then the values. The first
/// value lies right after those descriptions, and each further one at the first multiple of
/// eight bytes from there that is not before the end of the one before it.
pub proof fn law_extended_field_places(region: Seq<u8>, index: nat)
    ensures
        extended_field::value_start(region, 0) == 4 + 4 * bytes::le_u16(region, 0),
        ({
            let at = 4 + 4 * index as int;
            let size = bytes::le_u16(region, at + 2);
            let start = extended_field::value_start(region, index);
            let next = extended_field::value_start(region, index + 1);
            &&& start + size <= next < start + size + 8
            &&& (next - start) % 8 == 0
            &&& extended_field::field_at(region, index) matches Ok(field) ==> field.field_type
                == region[at] && field.flags.0 == region[at + 1]
                && field.data == region.subrange(start, start + size) && start + size <= 4
                + bytes::le_u16(region, 2)
        }),
        region.len() > 0 && extended_field::fields_of(region) is Ok ==> region.len() >= 4
            && extended_field::fields_of(region)->Ok_0.len() == bytes::le_u16(region, 0),
{
    if region.len() > 0 && extended_field::fields_of(region) is Ok {
        lemma_field_count(region, bytes::le_u16(region, 0) as nat);
    }
}

proof fn lemma_field_count(region: Seq<u8>, count: nat)
    ensures
        extended_field::first_fields(region, count) matches Ok(fields) ==> fields.len() == count,
    decreases count,
{
    if count > 0 {
        lemma_field_count(region, (count - 1) as nat);
    }
}

/// Integrity metadata takes 128 bytes: version, flags, hash type, the place of the root
/// hash and the transaction that broke the seal, after the header. The seal is broken where
/// the lowest flag bit is set or that transaction is not zero.
pub proof fn law_integrity_fields(block: Seq<u8>)
    ensures
        sealed::integrity_of(block) matches Ok(found) ==> {
            let hash_at = bytes::le_u32(block, 44) as int;
            let size = match found.hash_type {
                ApfsHashType::Sha256 => 32int,
                ApfsHashType::Sha512_256 => 32,
                ApfsHashType::Sha384 => 48,
                ApfsHashType::Sha512 => 64,
                ApfsHashType::Unknown(_) => 64,
            };
            &&& block.len() >= 128
            &&& found.version == bytes::le_u32(block, 32)
            &&& found.flags.0 == bytes::le_u32(block, 36)
            &&& found.hash_type == sealed::hash_type_of(bytes::le_u32(block, 40))
            &&& found.broken_xid == bytes::le_u64(block, 48)
            &&& found.root_hash == block.subrange(hash_at, hash_at + size)
            &&& sealed::seal_broken(found) <==> block[36] % 2 == 1 || bytes::le_u64(block, 48) != 0
        },
{
    let flags = bytes::le_u32(block, 36);
    bytes::law_bytes_weigh_by_their_place(block, 36);
    assert(flags & 1 == 1 <==> flags % 2 == 1) by (bit_vector);
}

/// A stored file hash has the number of blocks that it covers, its length and its bytes.
pub proof fn law_file_hash_fields(value: Seq<u8>)
    ensures
        sealed::file_data_hash_of(value) is Ok <==> value.len() >= 3 && 3 + value[2] <= value.len(),
        sealed::file_data_hash_of(value) matches Ok(found) ==> {
            &&& found.hashed_len == value[0] + 256 * value[1]
            &&& found.hash == value.subrange(3, 3 + value[2])
        },
{
}

/// The space manager has the block size, the blocks of a chunk, the chunks of an info
/// block and the info blocks of an address block after its header, and from byte 48 on the
/// main device and the second tier, of 48 bytes each.
pub proof fn law_space_manager_fields(block: Seq<u8>)
    ensures
        space_manager::space_manager_of(block) is Ok <==> block.len() >= 144,
        space_manager::space_manager_of(block) matches Ok(found) ==> {
            &&& found.block == block
            &&& found.block_size == bytes::le_u32(block, 32)
            &&& found.blocks_per_chunk == bytes::le_u32(block, 36)
            &&& found.chunks_per_cib == bytes::le_u32(block, 40)
            &&& found.cibs_per_cab == bytes::le_u32(block, 44)
            &&& found.main_device == space_manager::device_at(block, 48)
            &&& found.tier2_device == space_manager::device_at(block, 96)
        },
        forall|at: int|
            {
                let found = #[trigger] space_manager::device_at(block, at);
                &&& found.block_count == bytes::le_u64(block, at)
                &&& found.chunk_count == bytes::le_u64(block, at + 8)
                &&& found.cib_count == bytes::le_u32(block, at + 16)
                &&& found.cab_count == bytes::le_u32(block, at + 20)
                &&& found.free_count == bytes::le_u64(block, at + 24)
                &&& found.addr_offset == bytes::le_u32(block, at + 32)
            },
{
}

/// A chunk-info block has, from byte 40 on, 32 bytes for each chunk: transaction, first
/// block, number of blocks, number of free blocks, and the address of the bitmap. A block
/// of addresses has their number at byte 36 and from byte 40 on the addresses.
pub proof fn law_chunk_fields(block: Seq<u8>, index: u64)
    ensures
        space_manager::chunk_in_cib(block, index) is Ok <==> 40 + 32 * index + 32 <= block.len(),
        space_manager::chunk_in_cib(block, index) matches Ok(found) ==> {
            let at = 40 + 32 * index;
            &&& found.xid == bytes::le_u64(block, at)
            &&& found.addr == bytes::le_u64(block, at + 8)
            &&& found.block_count == bytes::le_u32(block, at + 16)
            &&& found.free_count == bytes::le_u32(block, at + 20)
            &&& found.bitmap_addr == bytes::le_i64(block, at + 24)
        },
        space_manager::address_in_cab(block, index) is Ok <==> block.len() >= 40 && index
            < bytes::le_u32(block, 36) && 40 + 8 * index + 8 <= block.len(),
        space_manager::address_in_cab(block, index) matches Ok(addr) ==> addr == bytes::le_u64(
            block,
            40 + 8 * index,
        ),
{
}

/// The reaper's state has its identifiers, the head and the tail of its list, flags and the
/// number of lists after the header, and from byte 80 on the volume, object and transaction
/// that it is at. A reap list has the next list, the number of entries at byte 48 and from
/// byte 64 on the entries, of 40 bytes each; an entry is pending with its lowest flag bit.
pub proof fn law_reaper_fields(block: Seq<u8>)
    ensures
        reaper::reaper_of(block) is Ok <==> block.len() >= 104,
        reaper::reaper_of(block) matches Ok(found) ==> {
            &&& found.next_reap_id == bytes::le_u64(block, 32)
            &&& found.completed_id == bytes::le_u64(block, 40)
            &&& found.head == bytes::le_u64(block, 48)
            &&& found.tail == bytes::le_u64(block, 56)
            &&& found.flags.0 == bytes::le_u32(block, 64)
            &&& found.list_count == bytes::le_u32(block, 68)
            &&& found.current_fs_oid == bytes::le_u64(block, 80)
            &&& found.current_oid == bytes::le_u64(block, 88)
            &&& found.current_xid == bytes::le_u64(block, 96)
        },
        reaper::reap_list_of(block) is Ok <==> block.len() >= 64 && 64 + 40 * bytes::le_u32(
            block,
            48,
        ) <= block.len(),
        reaper::reap_list_of(block) matches Ok(found) ==> {
            &&& found.next == bytes::le_u64(block, 32)
            &&& found.entries.len() == bytes::le_u32(block, 48)
            &&& forall|i: int|
                0 <= i < found.entries.len() ==> {
                    let entry = #[trigger] found.entries[i];
                    let at = 64 + 40 * i;
                    &&& entry.next == bytes::le_u32(block, at)
                    &&& entry.flags.0 == bytes::le_u32(block, at + 4)
                    &&& entry.obj_type == bytes::le_u32(block, at + 8)
                    &&& entry.size == bytes::le_u32(block, at + 12)
                    &&& entry.fs_oid == bytes::le_u64(block, at + 16)
                    &&& entry.oid == bytes::le_u64(block, at + 24)
                    &&& entry.xid == bytes::le_u64(block, at + 32)
                }
        },
{
}

/// A keybag's entry has a UUID, a tag, the length of its key, four bytes that are not kept
/// and the key. The first entry lies sixteen bytes into the locker, after its version, the
/// number of entries and its size; each further one at a multiple of sixteen bytes from
/// there, the first one past the entry before it.
pub proof fn law_keybag_fields(locker: Seq<u8>, at: int, key_len: nat)
    requires
        0 <= at,
    ensures
        keybag::entry_at(locker, at) matches Ok(entry) ==> {
            let len = bytes::le_u16(locker, at + 18);
            &&& at + 24 + len <= locker.len()
            &&& len < 512
            &&& entry.uuid == locker.subrange(at, at + 16)
            &&& entry.tag == keybag::tag_of(bytes::le_u16(locker, at + 16))
            &&& entry.key_data == locker.subrange(at + 24, at + 24 + len)
        },
        24 + key_len <= keybag::entry_space(key_len) < 24 + key_len + 16,
        keybag::entry_space(key_len) % 16 == 0,
        keybag::keybag_in(locker) matches Ok(found) ==> locker.len() >= 16 && found.version == 2
            && bytes::le_u16(locker, 0) == 2 && keybag::entries_from(
            locker,
            16,
            bytes::le_u16(locker, 2) as nat,
        ) == Ok::<Seq<keybag::KeybagEntryView>, ApfsError>(found.entries),
{
}

/// An encryption-rolling state has its magic number `BALF`, its version, flags and
/// snapshot, and its file offset from byte 64 on. Its progress, the number of blocks and the
/// block map lie from byte 88 on in the first version and from byte 72 on in the second,
/// which has a recovery list at byte 112.
pub proof fn law_rolling_fields(block: Seq<u8>)
    ensures
        enc_rolling::er_state_of(block) is Ok <==> block.len() >= 128 && block[32] == 0x42
            && block[33] == 0x41 && block[34] == 0x4C && block[35] == 0x46 && (bytes::le_u32(
            block,
            36,
        ) == 1 || bytes::le_u32(block, 36) == 2),
        enc_rolling::recovery_block_of(block) is Ok <==> block.len() >= 48,
        enc_rolling::general_bitmap_of(block) is Ok <==> block.len() >= 56,
        enc_rolling::er_state_of(block) matches Ok(found) ==> {
            let version = bytes::le_u32(block, 36);
            &&& found.version == version
            &&& found.flags.0 == bytes::le_u64(block, 40)
            &&& found.snap_xid == bytes::le_u64(block, 48)
            &&& found.file_offset == bytes::le_u64(block, 64)
            &&& version == 1 ==> found.progress == bytes::le_u64(block, 88) && found.total_blocks
                == bytes::le_u64(block, 96) && found.blockmap_oid == bytes::le_u64(block, 104)
                && found.recovery_list_oid is None
            &&& version == 2 ==> found.progress == bytes::le_u64(block, 72) && found.total_blocks
                == bytes::le_u64(block, 80) && found.blockmap_oid == bytes::le_u64(block, 88)
                && found.recovery_list_oid == Some(bytes::le_u64(block, 112))
        },
        enc_rolling::recovery_block_of(block) matches Ok(found) ==> found.offset == bytes::le_u64(
            block,
            32,
        ) && found.next_oid == bytes::le_u64(block, 40),
        enc_rolling::general_bitmap_of(block) matches Ok(found) ==> found.tree_oid == bytes::le_u64(
            block,
            32,
        ) && found.bit_count == bytes::le_u64(block, 40) && found.flags == bytes::le_u64(block, 48),
{
    bytes::law_bytes_weigh_by_their_place(block, 32);
}

/// An EFI record has its magic number `JSDR`, version 1, the length of the driver and the
/// number of its extents, which lie from byte 176 on.
pub proof fn law_jumpstart_fields(block: Seq<u8>)
    ensures
        efi::jumpstart_of(block) is Ok <==> {
            &&& block.len() >= 176
            &&& types::object_type_of(bytes::le_u32(block, 24)) == ObjectType::EfiJumpstart
            &&& block[32] == 0x4A && block[33] == 0x53 && block[34] == 0x44 && block[35] == 0x52
            &&& bytes::le_u32(block, 36) == 1
            &&& 176 + 16 * bytes::le_u32(block, 44) <= block.len()
        },
        efi::jumpstart_of(block) matches Ok(found) ==> {
            &&& found.efi_file_len == bytes::le_u32(block, 40)
            &&& found.extents.len() == bytes::le_u32(block, 44)
            &&& forall|i: int|
                0 <= i < found.extents.len() ==> (#[trigger] found.extents[i]).start.0
                    == bytes::le_i64(block, 176 + 16 * i) && found.extents[i].block_count
                    == bytes::le_u64(block, 184 + 16 * i)
        },
{
    bytes::law_bytes_weigh_by_their_place(block, 32);
}

/// The write-back cache of a Fusion drive has its version and the first and the last list
/// after the header, and the number of list blocks at byte 72. A list has the range of its
/// entries in use at bytes 48 and 52, and its entries from byte 64 on, of 24 bytes each:
/// where the copy is, what it is a copy of, and how many blocks it has. A middle-tree value
/// has a block, a length and flags.
pub proof fn law_fusion_fields(block: Seq<u8>)
    ensures
        fusion::wbc_of(block) is Ok <==> block.len() >= 88,
        fusion::mt_val_of(block) is Ok <==> block.len() >= 16,
        fusion::wbc_list_of(block) is Ok <==> block.len() >= 64 && bytes::le_u32(block, 48)
            <= bytes::le_u32(block, 52) && 64 + 24 * bytes::le_u32(block, 52) <= block.len(),
        fusion::wbc_of(block) matches Ok(found) ==> {
            &&& found.version == bytes::le_u64(block, 32)
            &&& found.list_head_oid == bytes::le_u64(block, 40)
            &&& found.list_tail_oid == bytes::le_u64(block, 48)
            &&& found.list_blocks_count == bytes::le_u32(block, 72)
        },
        fusion::wbc_list_of(block) matches Ok(found) ==> {
            let begin = bytes::le_u32(block, 48);
            let end = bytes::le_u32(block, 52);
            &&& found.len() == end - begin
            &&& forall|i: int|
                0 <= i < found.len() ==> {
                    let entry = #[trigger] found[i];
                    let at = 64 + 24 * (begin + i);
                    &&& entry.wbc_lba == bytes::le_i64(block, at)
                    &&& entry.target_lba == bytes::le_i64(block, at + 8)
                    &&& entry.length == bytes::le_u64(block, at + 16)
                }
        },
        fusion::mt_val_of(block) matches Ok(found) ==> found.lba == bytes::le_i64(block, 0)
            && found.length == bytes::le_u32(block, 8) && found.flags.0 == bytes::le_u32(block, 12),
{
}

/// The four upper bits of a record's key word are its kind, and the others its object.
pub proof fn law_record_key_word(key: Seq<u8>)
    ensures
        catalog::header_of(key) is Ok <==> key.len() >= 8,
        catalog::header_of(key) matches Ok(header) ==> header.kind == catalog::kind_of(
            (key[7] / 16) as u8,
        ) && header.obj_id == bytes::le_u64(key, 0) - 0x1000_0000_0000_0000 * (key[7] / 16),
{
    bytes::law_bytes_weigh_by_their_place(key, 0);
}

/// What the numbers of record kinds mean.
pub proof fn law_record_kinds(value: u8)
    ensures
        catalog::kind_of(value) == JObjType::SnapMetadata <==> value == 1,
        catalog::kind_of(value) == JObjType::Extent <==> value == 2,
        catalog::kind_of(value) == JObjType::Inode <==> value == 3,
        catalog::kind_of(value) == JObjType::Xattr <==> value == 4,
        catalog::kind_of(value) == JObjType::SiblingLink <==> value == 5,
        catalog::kind_of(value) == JObjType::DstreamId <==> value == 6,
        catalog::kind_of(value) == JObjType::CryptoState <==> value == 7,
        catalog::kind_of(value) == JObjType::FileExtent <==> value == 8,
        catalog::kind_of(value) == JObjType::DirRec <==> value == 9,
        catalog::kind_of(value) == JObjType::DirStats <==> value == 10,
        catalog::kind_of(value) == JObjType::SnapName <==> value == 11,
        catalog::kind_of(value) == JObjType::SiblingMap <==> value == 12,
        catalog::kind_of(value) == JObjType::FileInfo <==> value == 13,
        catalog::value_of(catalog::kind_of(value)) == value,
{
}

/// What the numbers of object types mean, whatever flags stand above them.
pub proof fn law_object_types(field: u32)
    requires
        !types::is_keybag_code(field),
    ensures
        types::object_type_of(field) == ObjectType::NxSuperblock <==> field % 65536 == 1,
        types::object_type_of(field) == ObjectType::Btree <==> field % 65536 == 2,
        types::object_type_of(field) == ObjectType::BtreeNode <==> field % 65536 == 3,
        types::object_type_of(field) == ObjectType::Spaceman <==> field % 65536 == 5,
        types::object_type_of(field) == ObjectType::SpacemanCab <==> field % 65536 == 6,
        types::object_type_of(field) == ObjectType::SpacemanCib <==> field % 65536 == 7,
        types::object_type_of(field) == ObjectType::SpacemanBitmap <==> field % 65536 == 8,
        types::object_type_of(field) == ObjectType::SpacemanFreeQueue <==> field % 65536 == 9,
        types::object_type_of(field) == ObjectType::ExtentListTree <==> field % 65536 == 10,
        types::object_type_of(field) == ObjectType::Omap <==> field % 65536 == 11,
        types::object_type_of(field) == ObjectType::CheckpointMap <==> field % 65536 == 12,
        types::object_type_of(field) == ObjectType::Fs <==> field % 65536 == 13,
        types::object_type_of(field) == ObjectType::FsTree <==> field % 65536 == 14,
        types::object_type_of(field) == ObjectType::BlockRefTree <==> field % 65536 == 15,
        types::object_type_of(field) == ObjectType::SnapMetaTree <==> field % 65536 == 16,
        types::object_type_of(field) == ObjectType::NxReaper <==> field % 65536 == 17,
        types::object_type_of(field) == ObjectType::NxReapList <==> field % 65536 == 18,
        types::object_type_of(field) == ObjectType::OmapSnapshot <==> field % 65536 == 19,
        types::object_type_of(field) == ObjectType::EfiJumpstart <==> field % 65536 == 20,
        types::object_type_of(field) == ObjectType::FusionMiddleTree <==> field % 65536 == 21,
        types::object_type_of(field) == ObjectType::NxFusionWbc <==> field % 65536 == 22,
        types::object_type_of(field) == ObjectType::NxFusionWbcList <==> field % 65536 == 23,
        types::object_type_of(field) == ObjectType::ErState <==> field % 65536 == 24,
        types::object_type_of(field) == ObjectType::GBitmap <==> field % 65536 == 25,
        types::object_type_of(field) == ObjectType::GBitmapTree <==> field % 65536 == 26,
        types::object_type_of(field) == ObjectType::GBitmapBlock <==> field % 65536 == 27,
        types::object_type_of(field) == ObjectType::ErRecoveryBlock <==> field % 65536 == 28,
        types::object_type_of(field) == ObjectType::SnapMetaExt <==> field % 65536 == 29,
        types::object_type_of(field) == ObjectType::IntegrityMeta <==> field % 65536 == 30,
        types::object_type_of(field) == ObjectType::FextTree <==> field % 65536 == 31,
{
}

/// What the numbers of entry types, file types and traversal kinds mean: an entry's type
/// and a file's are the same numbers, in the low four bits of an entry's flags and in the
/// top four of a mode.
pub proof fn law_entry_types(flags: u16, mode: u16)
    ensures
        directory::entry_type_of(flags) == DirEntryType::Fifo <==> flags % 16 == 1,
        directory::entry_type_of(flags) == DirEntryType::CharDevice <==> flags % 16 == 2,
        directory::entry_type_of(flags) == DirEntryType::Directory <==> flags % 16 == 4,
        directory::entry_type_of(flags) == DirEntryType::BlockDevice <==> flags % 16 == 6,
        directory::entry_type_of(flags) == DirEntryType::Regular <==> flags % 16 == 8,
        directory::entry_type_of(flags) == DirEntryType::Symlink <==> flags % 16 == 10,
        directory::entry_type_of(flags) == DirEntryType::Socket <==> flags % 16 == 12,
        directory::entry_type_of(flags) == DirEntryType::Whiteout <==> flags % 16 == 14,
        inode::file_type_of(mode) == FileType::Fifo <==> mode / 4096 == 1,
        inode::file_type_of(mode) == FileType::CharDevice <==> mode / 4096 == 2,
        inode::file_type_of(mode) == FileType::Directory <==> mode / 4096 == 4,
        inode::file_type_of(mode) == FileType::BlockDevice <==> mode / 4096 == 6,
        inode::file_type_of(mode) == FileType::Regular <==> mode / 4096 == 8,
        inode::file_type_of(mode) == FileType::Symlink <==> mode / 4096 == 10,
        inode::file_type_of(mode) == FileType::Socket <==> mode / 4096 == 12,
        inode::file_type_of(mode) == FileType::Whiteout <==> mode / 4096 == 14,
        flags % 16 == mode / 4096 ==> {
            let kind = traverse::kind_of(directory::entry_type_of(flags));
            &&& kind == EntryKind::Fifo <==> inode::file_type_of(mode) == FileType::Fifo
            &&& kind == EntryKind::CharDevice <==> inode::file_type_of(mode) == FileType::CharDevice
            &&& kind == EntryKind::Directory <==> inode::file_type_of(mode) == FileType::Directory
            &&& kind == EntryKind::BlockDevice <==> inode::file_type_of(mode)
                == FileType::BlockDevice
            &&& kind == EntryKind::File <==> inode::file_type_of(mode) == FileType::Regular
            &&& kind == EntryKind::Symlink <==> inode::file_type_of(mode) == FileType::Symlink
            &&& kind == EntryKind::Socket <==> inode::file_type_of(mode) == FileType::Socket
        },
{
    assert(mode & 0xF000 == mode / 4096 * 4096) by (bit_vector);
}

/// What the numbers of the smaller enumerations mean: hash types, keybag tags, protection
/// classes, extent kinds, and the phases of the reaper and of an encryption roll.
pub proof fn law_small_kinds(value: u32, tag: u16, kind: u8, flags: u64)
    ensures
        sealed::hash_type_of(value) == ApfsHashType::Sha256 <==> value == 1,
        sealed::hash_type_of(value) == ApfsHashType::Sha512_256 <==> value == 2,
        sealed::hash_type_of(value) == ApfsHashType::Sha384 <==> value == 3,
        sealed::hash_type_of(value) == ApfsHashType::Sha512 <==> value == 4,
        keybag::tag_of(tag) == KeybagTag::VolumeKey <==> tag == 2,
        keybag::tag_of(tag) == KeybagTag::VolumeUnlockRecords <==> tag == 3,
        keybag::tag_of(tag) == KeybagTag::VolumePassphraseHint <==> tag == 4,
        keybag::tag_of(tag) == KeybagTag::WrappingMKey <==> tag == 5,
        keybag::tag_of(tag) == KeybagTag::VolumeMKey <==> tag == 6,
        keybag::class_of(value) == ProtectionClass::DirNone <==> value % 32 == 0,
        keybag::class_of(value) == ProtectionClass::A <==> value % 32 == 1,
        keybag::class_of(value) == ProtectionClass::B <==> value % 32 == 2,
        keybag::class_of(value) == ProtectionClass::C <==> value % 32 == 3,
        keybag::class_of(value) == ProtectionClass::D <==> value % 32 == 4,
        keybag::class_of(value) == ProtectionClass::F <==> value % 32 == 6,
        keybag::class_of(value) == ProtectionClass::M <==> value % 32 == 14,
        clones::obj_kind_of(kind) == JObjKind::New <==> kind == 1,
        clones::obj_kind_of(kind) == JObjKind::Update <==> kind == 2,
        clones::obj_kind_of(kind) == JObjKind::Dead <==> kind == 3,
        clones::obj_kind_of(kind) == JObjKind::UpdateRefcnt <==> kind == 4,
        reaper::phase_of(value) == ReapPhase::Start <==> value == 0,
        reaper::phase_of(value) == ReapPhase::Snapshots <==> value == 1,
        reaper::phase_of(value) == ReapPhase::ActiveFs <==> value == 2,
        reaper::phase_of(value) == ReapPhase::DestroyOmap <==> value == 3,
        reaper::phase_of(value) == ReapPhase::Done <==> value == 4,
        enc_rolling::phase_of(flags) == ErPhase::NoPhase <==> flags / 4096 % 4 == 0,
        enc_rolling::phase_of(flags) == ErPhase::OmapRoll <==> flags / 4096 % 4 == 1,
        enc_rolling::phase_of(flags) == ErPhase::DataRoll <==> flags / 4096 % 4 == 2,
        enc_rolling::phase_of(flags) == ErPhase::SnapRoll <==> flags / 4096 % 4 == 3,
{
    assert(value & 0x1F == value % 32) by (bit_vector);
}

/// An entry of a B-tree node is there exactly when the node counts it, its place lies in the
/// table of contents, and its key and its value, where it has one, lie in the node.
pub proof fn law_tree_entry_is_there(block: Seq<u8>, index: u32, key_len: usize, val_len: usize)
    ensures
        btree::entry_of(block, index, key_len, val_len) is Ok <==> {
            let table = 56 + bytes::le_u16(block, 40);
            let keys = table + bytes::le_u16(block, 42);
            let values = if block[32] % 2 == 1 {
                block.len() - 40
            } else {
                block.len() as int
            };
            let fixed = block[32] / 4 % 2 == 1;
            let width = if fixed {
                4int
            } else {
                8
            };
            let at = table + width * index;
            let key_end = keys + bytes::le_u16(block, at) + if fixed {
                key_len as int
            } else {
                bytes::le_u16(block, at + 2) as int
            };
            let val_off = if fixed {
                bytes::le_u16(block, at + 2) as int
            } else {
                bytes::le_u16(block, at + 4) as int
            };
            let val_size = if fixed {
                val_len as int
            } else {
                bytes::le_u16(block, at + 6) as int
            };
            &&& index < bytes::le_u32(block, 36)
            &&& at + width <= keys
            &&& key_end <= block.len()
            &&& val_off == 65535 || (0 <= values - val_off && values - val_off + val_size
                <= block.len())
        },
{
    let flags = bytes::le_u16(block, 32);
    assert((flags & 1 == 1 <==> flags % 2 == 1) && (flags & 4 == 4 <==> flags / 4 % 2 == 1))
        by (bit_vector);
    assert(flags / 4 == block[32] / 4 + 64 * block[33]);
}

/// When the names, the attributes, the hashes and the keys of the smaller structures are whole.
pub proof fn law_small_structures_are_whole(bytes: Seq<u8>, value: Seq<u8>, hashed: bool, at: int)
    requires
        0 <= at,
    ensures
        directory::drec_name_of(bytes, hashed) is Ok <==> if hashed {
            12 <= bytes.len() && 12 + bytes::le_u32(bytes, 8) % 1024 <= bytes.len()
        } else {
            10 <= bytes.len() && 10 + bytes::le_u16(bytes, 8) <= bytes.len()
        },
        xattr::xattr_name_of(bytes) is Ok <==> 10 <= bytes.len() && 10 + bytes::le_u16(bytes, 8)
            <= bytes.len(),
        xattr::xattr_value_of(value) is Ok <==> 4 <= value.len() && 4 + bytes::le_u16(value, 2)
            <= value.len() && (value[0] % 2 == 1 ==> bytes::le_u16(value, 2) >= 48),
        keybag::entry_at(bytes, at) is Ok <==> at + 24 <= bytes.len() && bytes::le_u16(
            bytes,
            at + 18,
        ) < 512 && at + 24 + bytes::le_u16(bytes, at + 18) <= bytes.len(),
        sealed::integrity_of(bytes) is Ok <==> 128 <= bytes.len() && bytes::le_u32(bytes, 44)
            + sealed::root_hash_size(sealed::hash_type_of(bytes::le_u32(bytes, 40)))
            <= bytes.len(),
{
    let flags = bytes::le_u16(value, 0);
    assert(flags & 1 == 1 <==> flags % 2 == 1) by (bit_vector);
}

/// The error of a structure that is cut short: it names the structure, and says how many
/// bytes it takes and how many there are.
pub open spec fn is_cut_short(error: ApfsError, structure: &'static str, takes: int, has: nat) -> bool {
    error matches ApfsError::Truncated { structure: named, expected, actual } && named == structure
        && expected == takes && actual == has
}

/// A structure that is cut short is an error, which says what it is and how long.
pub proof fn law_short_structures_are_errors(block: Seq<u8>)
    requires
        block.len() <= usize::MAX,
    ensures
        block.len() < 32 ==> (object::header_at(block) matches Err(error) && is_cut_short(
            error,
            "obj_phys_t",
            32,
            block.len(),
        )),
        block.len() < 92 ==> (inode::inode_of(block) matches Err(error) && is_cut_short(
            error,
            "j_inode_val_t",
            92,
            block.len(),
        )),
        block.len() < 18 ==> (directory::drec_value_of(block) matches Err(error) && is_cut_short(
            error,
            "j_drec_val_t",
            18,
            block.len(),
        )),
        block.len() < 40 ==> (extent::data_stream_of(block) matches Err(error) && is_cut_short(
            error,
            "j_dstream_t",
            40,
            block.len(),
        )),
        block.len() < 20 ==> (clones::physical_extent_of(block) matches Err(error) && is_cut_short(
            error,
            "j_phys_ext_val_t",
            20,
            block.len(),
        )),
        block.len() < 50 ==> (snapshot::snapshot_of(0, block) matches Err(error) && is_cut_short(
            error,
            "j_snap_metadata_val_t",
            50,
            block.len(),
        )),
        block.len() < 40 ==> (snapshot::snap_meta_ext_of(block) matches Err(error) && is_cut_short(
            error,
            "snap_meta_ext_t",
            40,
            block.len(),
        )),
        block.len() < 1040 ==> (volume::volume_superblock_of(block) matches Err(error)
            && is_cut_short(error, "apfs_superblock_t", 1040, block.len())),
        block.len() < 1408 ==> (container::superblock_of(block) matches Err(error) && is_cut_short(
            error,
            "nx_superblock_t",
            1408,
            block.len(),
        )),
        block.len() < 88 ==> (omap::omap_of(block) matches Err(error) && is_cut_short(
            error,
            "omap_phys_t",
            88,
            block.len(),
        )),
        block.len() < 40 ==> (checkpoint::map_of(block) matches Err(error) && is_cut_short(
            error,
            "checkpoint_map_phys_t",
            40,
            block.len(),
        )),
        block.len() < 56 ==> (btree::node_of(block) matches Err(error) && is_cut_short(
            error,
            "btree_node_phys_t",
            56,
            block.len(),
        )),
        block.len() < 128 ==> (sealed::integrity_of(block) matches Err(error) && is_cut_short(
            error,
            "integrity_meta_phys_t",
            128,
            block.len(),
        )),
        block.len() < 144 ==> (space_manager::space_manager_of(block) matches Err(error)
            && is_cut_short(error, "spaceman_phys_t", 144, block.len())),
        block.len() < 104 ==> (reaper::reaper_of(block) matches Err(error) && is_cut_short(
            error,
            "nx_reaper_phys_t",
            104,
            block.len(),
        )),
        block.len() < 128 ==> (enc_rolling::er_state_of(block) matches Err(error) && is_cut_short(
            error,
            "er_state_phys_t",
            128,
            block.len(),
        )),
        block.len() < 176 ==> (efi::jumpstart_of(block) matches Err(error) && is_cut_short(
            error,
            "nx_efi_jumpstart_t",
            176,
            block.len(),
        )),
        block.len() < 88 ==> (fusion::wbc_of(block) matches Err(error) && is_cut_short(
            error,
            "fusion_wbc_phys_t",
            88,
            block.len(),
        )),
        block.len() < 16 ==> (keybag::keybag_in(block) matches Err(error) && is_cut_short(
            error,
            "kb_locker_t",
            16,
            block.len(),
        )),
{
}

/// A superblock with another magic number is an error, which gives both numbers.
pub proof fn law_other_magic_is_an_error(block: Seq<u8>)
    ensures
        block.len() >= 1408 && types::object_type_of(bytes::le_u32(block, 24))
            == ObjectType::NxSuperblock && bytes::le_u32(block, 32) != 0x4253_584E ==> (
        container::superblock_of(block) matches Err(ApfsError::InvalidMagic {
            structure,
            expected,
            actual,
        }) && structure == "nx_superblock_t" && expected == 0x4253_584E && actual == bytes::le_u32(
            block,
            32,
        )),
        block.len() >= 1040 && types::object_type_of(bytes::le_u32(block, 24)) == ObjectType::Fs
            && bytes::le_u32(block, 32) != 0x4253_5041 ==> (volume::volume_superblock_of(
            block,
        ) matches Err(ApfsError::InvalidMagic { structure, expected, actual }) && structure
            == "apfs_superblock_t" && expected == 0x4253_5041 && actual == bytes::le_u32(
            block,
            32,
        )),
{
}

/// The bits of the flags of tree nodes, of trees and of object maps, and of what these
/// map.
pub proof fn law_tree_flag_values()
    ensures
        btree::BtnodeFlags::ROOT == 0x0001,
        btree::BtnodeFlags::LEAF == 0x0002,
        btree::BtnodeFlags::FIXED_KV_SIZE == 0x0004,
        btree::BtnodeFlags::HASHED == 0x0008,
        btree::BtnodeFlags::NOHEADER == 0x0010,
        btree::BtnodeFlags::CHECK_KOFF_INVAL == 0x8000,
        btree::BtreeFlags::UINT64_KEYS == 0x0000_0001,
        btree::BtreeFlags::SEQUENTIAL_INSERT == 0x0000_0002,
        btree::BtreeFlags::ALLOW_GHOSTS == 0x0000_0004,
        btree::BtreeFlags::EPHEMERAL == 0x0000_0008,
        btree::BtreeFlags::PHYSICAL == 0x0000_0010,
        btree::BtreeFlags::NONPERSISTENT == 0x0000_0020,
        btree::BtreeFlags::KV_NONALIGNED == 0x0000_0040,
        btree::BtreeFlags::HASHED == 0x0000_0080,
        btree::BtreeFlags::NOHEADER == 0x0000_0100,
        omap::OmapFlags::MANUALLY_MANAGED == 0x0000_0001,
        omap::OmapFlags::ENCRYPTING == 0x0000_0002,
        omap::OmapFlags::DECRYPTING == 0x0000_0004,
        omap::OmapFlags::KEYROLLING == 0x0000_0008,
        omap::OmapFlags::CRYPTO_GENERATION == 0x0000_0010,
        omap::OmapValFlags::DELETED == 0x0000_0001,
        omap::OmapValFlags::SAVED == 0x0000_0002,
        omap::OmapValFlags::ENCRYPTED == 0x0000_0004,
        omap::OmapValFlags::NOHEADER == 0x0000_0008,
        omap::OmapValFlags::CRYPTO_GENERATION == 0x0000_0010,
        omap::OmapSnapshotFlags::DELETED == 0x0000_0001,
        omap::OmapSnapshotFlags::REVERTED == 0x0000_0002,
{
}

/// The bits of the flags of inodes, of extended fields, of attributes and of snapshots.
pub proof fn law_file_flag_values()
    ensures
        inode::InodeFlags::IS_APFS_PRIVATE == 0x0000_0001,
        inode::InodeFlags::MAINTAIN_DIR_STATS == 0x0000_0002,
        inode::InodeFlags::DIR_STATS_ORIGIN == 0x0000_0004,
        inode::InodeFlags::PROT_CLASS_EXPLICIT == 0x0000_0008,
        inode::InodeFlags::WAS_CLONED == 0x0000_0010,
        inode::InodeFlags::FLAG_UNUSED == 0x0000_0020,
        inode::InodeFlags::HAS_SECURITY_EA == 0x0000_0040,
        inode::InodeFlags::BEING_TRUNCATED == 0x0000_0080,
        inode::InodeFlags::HAS_FINDER_INFO == 0x0000_0100,
        inode::InodeFlags::IS_SPARSE == 0x0000_0200,
        inode::InodeFlags::WAS_EVER_CLONED == 0x0000_0400,
        inode::InodeFlags::ACTIVE_FILE_TRIMMED == 0x0000_0800,
        inode::InodeFlags::PINNED_TO_MAIN == 0x0000_1000,
        inode::InodeFlags::PINNED_TO_TIER2 == 0x0000_2000,
        inode::InodeFlags::HAS_RSRC_FORK == 0x0000_4000,
        inode::InodeFlags::NO_RSRC_FORK == 0x0000_8000,
        inode::InodeFlags::ALLOCATION_SPILLEDOVER == 0x0001_0000,
        inode::InodeFlags::FAST_PROMOTE == 0x0002_0000,
        inode::InodeFlags::HAS_UNCOMPRESSED_SIZE == 0x0004_0000,
        inode::InodeFlags::IS_PURGEABLE == 0x0008_0000,
        inode::InodeFlags::WANTS_TO_BE_PURGEABLE == 0x0010_0000,
        inode::InodeFlags::IS_SYNC_ROOT == 0x0020_0000,
        inode::InodeFlags::SNAPSHOT_COW_EXEMPTION == 0x0040_0000,
        extended_field::XfFlags::DATA_DEPENDENT == 0x01,
        extended_field::XfFlags::DO_NOT_COPY == 0x02,
        extended_field::XfFlags::CHILDREN_INHERIT == 0x08,
        extended_field::XfFlags::USER_FIELD == 0x10,
        extended_field::XfFlags::SYSTEM_FIELD == 0x20,
        xattr::XattrFlags::DATA_STREAM == 0x0001,
        xattr::XattrFlags::DATA_EMBEDDED == 0x0002,
        snapshot::SnapMetaFlags::PENDING_DATALESS == 0x0000_0001,
        snapshot::SnapMetaFlags::MERGE_IN_PROGRESS == 0x0000_0002,
{
}

/// The bits of the features and flags of containers and volumes, of sealed volumes, of
/// the reaper, of an encryption roll and of a Fusion drive.
pub proof fn law_container_flag_values()
    ensures
        container::NxFlags::RESERVED_1 == 0x0000_0001,
        container::NxFlags::RESERVED_2 == 0x0000_0002,
        container::NxFlags::CRYPTO_SW == 0x0000_0004,
        container::NxFeatures::DEFRAG == 0x0000_0001,
        container::NxFeatures::LCFD == 0x0000_0002,
        container::NxIncompatFeatures::VERSION1 == 0x0000_0001,
        container::NxIncompatFeatures::VERSION2 == 0x0000_0002,
        container::NxIncompatFeatures::FUSION == 0x0000_0100,
        volume::ApfsIncompatFeatures::CASE_INSENSITIVE == 0x0000_0001,
        volume::ApfsIncompatFeatures::NORMALIZATION_INSENSITIVE == 0x0000_0008,
        volume::ApfsIncompatFeatures::SEALED_VOLUME == 0x0000_0020,
        sealed::IntegrityMetaFlags::SEAL_BROKEN == 0x0000_0001,
        reaper::ReaperFlags::BHM_FLAG == 0x0000_0001,
        reaper::ReaperFlags::CONTINUE == 0x0000_0002,
        reaper::ReapListEntryFlags::VALID == 0x0000_0001,
        reaper::ReapListEntryFlags::REAP_ID_RECORD == 0x0000_0002,
        reaper::ReapListEntryFlags::CALL == 0x0000_0004,
        reaper::ReapListEntryFlags::COMPLETION == 0x0000_0008,
        reaper::ReapListEntryFlags::CLEANUP == 0x0000_0010,
        enc_rolling::ErStateFlags::ENCRYPTING == 0x0000_0001,
        enc_rolling::ErStateFlags::DECRYPTING == 0x0000_0002,
        enc_rolling::ErStateFlags::KEYROLLING == 0x0000_0004,
        enc_rolling::ErStateFlags::PAUSED == 0x0000_0008,
        enc_rolling::ErStateFlags::FAILED == 0x0000_0010,
        enc_rolling::ErStateFlags::CID_IS_TWEAK == 0x0000_0020,
        enc_rolling::ErStateFlags::FROM_ONEKEY == 0x0000_4000,
        fusion::FusionMtFlags::DIRTY == 0x0000_0001,
        fusion::FusionMtFlags::TENANT == 0x0000_0002,
{
}

/// The bits of an object's type field that say how it is stored, and the masks of its
/// parts; the mark of the last checkpoint map, and that of a descriptor area which is a
/// tree.
pub proof fn law_object_flag_values()
    ensures
        object::OBJECT_TYPE_MASK == 0x0000_FFFF,
        object::OBJECT_TYPE_FLAGS_MASK == 0xFFFF_0000,
        object::OBJ_STORAGETYPE_MASK == 0xC000_0000,
        object::OBJECT_TYPE_FLAGS_DEFINED_MASK == 0xF800_0000,
        object::OBJ_VIRTUAL == 0x0000_0000,
        object::OBJ_EPHEMERAL == 0x8000_0000,
        object::OBJ_PHYSICAL == 0x4000_0000,
        object::OBJ_NOHEADER == 0x2000_0000,
        object::OBJ_ENCRYPTED == 0x1000_0000,
        object::OBJ_NONPERSISTENT == 0x0800_0000,
        checkpoint::CHECKPOINT_MAP_LAST == 0x0000_0001,
        checkpoint::XP_AREA_TREE_FLAG == 0x8000_0000,
{
}

/// The numbers of the well-known inodes, of the types of extended fields and of reserved
/// object identifiers, and how many nanoseconds a second has.
pub proof fn law_well_known_numbers()
    ensures
        inode::INVALID_INO_NUM == 0,
        inode::ROOT_DIR_PARENT == 1,
        inode::ROOT_DIR_INO_NUM == 2,
        inode::PRIV_DIR_INO_NUM == 3,
        inode::SNAP_DIR_INO_NUM == 6,
        inode::PURGEABLE_DIR_INO_NUM == 7,
        inode::MIN_USER_INO_NUM == 16,
        extended_field::INO_EXT_TYPE_SNAP_XID == 1,
        extended_field::INO_EXT_TYPE_DELTA_TREE_OID == 2,
        extended_field::INO_EXT_TYPE_DOCUMENT_ID == 3,
        extended_field::INO_EXT_TYPE_NAME == 4,
        extended_field::INO_EXT_TYPE_FINDER_INFO == 7,
        extended_field::INO_EXT_TYPE_DSTREAM == 8,
        extended_field::INO_EXT_TYPE_DIR_STATS_KEY == 10,
        extended_field::INO_EXT_TYPE_FS_UUID == 11,
        extended_field::INO_EXT_TYPE_SPARSE_BYTES == 13,
        extended_field::INO_EXT_TYPE_RDEV == 14,
        extended_field::INO_EXT_TYPE_PURGEABLE_FLAGS == 15,
        extended_field::INO_EXT_TYPE_ORIG_SYNC_ROOT_ID == 16,
        extended_field::DREC_EXT_TYPE_SIBLING_ID == 1,
        types::OID_INVALID == 0,
        types::OID_NX_SUPERBLOCK == 1,
        types::OID_RESERVED_COUNT == 1024,
        NANOS_PER_SEC == 1_000_000_000,
        catalog::OBJ_ID_MASK == 0x0FFF_FFFF_FFFF_FFFF,
        catalog::OBJ_TYPE_UNIT == 0x1000_0000_0000_0000,
        catalog::SYSTEM_OBJ_ID_MARK == 0x0FFF_FFFF_0000_0000,
        catalog::MAX_CATALOG_DEPTH == 32,
{
}

/// A block range has its first block and the number of its blocks, of eight bytes each. An
/// address word of the space manager is that of its index from the device's offset on.
pub proof fn law_range_and_address_fields(
    bytes: Seq<u8>,
    sm: space_manager::SpaceManagerView,
    index: u64,
)
    ensures
        types::prange_at(bytes) is Ok <==> bytes.len() >= 16,
        types::prange_at(bytes) matches Ok(found) ==> found.start.0 == bytes::le_i64(bytes, 0)
            && found.block_count == bytes::le_u64(bytes, 8),
        space_manager::address_entry(sm, index) is Ok <==> sm.main_device.addr_offset + 8 * index
            + 8 <= sm.block.len(),
        space_manager::address_entry(sm, index) matches Ok(addr) ==> addr == bytes::le_u64(
            sm.block,
            sm.main_device.addr_offset + 8 * index,
        ),
{
}

/// What is looked up by an object is that of the object's record: an inode that of its inode
/// record, a physical extent that of the extent record of its first block.
pub proof fn law_lookups_read_their_records(device: Device, catalog: Catalog, id: u64)
    ensures
        match catalog::record_value(device, catalog, id, JObjType::Inode) {
            Ok(Some(value)) => match inode::inode_of(value) {
                Ok(found) => inode::inode_in(device, catalog, id) == Ok::<
                    Option<inode::InodeView>,
                    ApfsError,
                >(Some(found)),
                Err(_) => inode::inode_in(device, catalog, id) is Err,
            },
            Ok(None) => inode::inode_in(device, catalog, id) == Ok::<
                Option<inode::InodeView>,
                ApfsError,
            >(None),
            Err(_) => inode::inode_in(device, catalog, id) is Err,
        },
        match catalog::record_value(device, catalog, id, JObjType::Extent) {
            Ok(Some(value)) => value.len() >= 20 ==> (clones::physical_extent_at(
                device,
                catalog,
                id,
            ) matches Ok(Some(found)) && found.refcnt == bytes::le_i32(value, 16)
                && found.owning_obj_id == bytes::le_u64(value, 8) && found.length_blocks
                == bytes::le_u64(value, 0) % 0x1000_0000_0000_0000),
            Ok(None) => clones::physical_extent_at(device, catalog, id) == Ok::<
                Option<clones::PhysicalExtent>,
                ApfsError,
            >(None),
            Err(_) => clones::physical_extent_at(device, catalog, id) is Err,
        },
{
}

/// The attributes of an object, its hard links and the entries of a directory are those of its
/// own records of the kind, one for each, in the order of the records.
pub proof fn law_listings_are_those_of_the_object(
    device: Device,
    catalog: Catalog,
    id: u64,
    hashed: bool,
    records: Seq<catalog::RecordView>,
)
    requires
        catalog::catalog_records(device, catalog, Selection::Object(id)) == Ok::<
            Seq<catalog::RecordView>,
            ApfsError,
        >(records),
    ensures
        xattr::xattrs_of(device, catalog, id) matches Ok(listed) ==> listed == records.filter(
            |record: catalog::RecordView| record.key_header.kind == JObjType::Xattr,
        ).map_values(
            |record: catalog::RecordView| xattr::xattr_of(record.key, record.value)->Ok_0,
        ),
        directory::directory_entries(device, catalog, id, hashed) matches Ok(listed) ==> listed
            == records.filter(
            |record: catalog::RecordView| record.key_header.kind == JObjType::DirRec,
        ).map_values(
            |record: catalog::RecordView| directory::dir_entry_of(record, hashed)->Ok_0,
        ),
        catalog::catalog_items::<(), sibling::SiblingLink>(
            device,
            catalog,
            Selection::Object(id),
            (),
        ) matches Ok(listed) ==> listed == records.filter(
            |record: catalog::RecordView| record.key_header.kind == JObjType::SiblingLink,
        ).map_values(
            |record: catalog::RecordView|
                sibling::sibling_link_of(record.key, record.value)->Ok_0,
        ),
{
    assert(records.take(records.len() as int) =~= records);
    if xattr::xattrs_of(device, catalog, id) is Ok {
        catalog::law_items_are_those_of_the_kind::<(), xattr::Xattr>((), records, records.len());
        let kept = records.filter(
            |record: catalog::RecordView| record.key_header.kind == JObjType::Xattr,
        );
        assert(kept.map_values(
            |record: catalog::RecordView| xattr::Xattr::item_of((), record)->Ok_0,
        ) =~= kept.map_values(
            |record: catalog::RecordView| xattr::xattr_of(record.key, record.value)->Ok_0,
        ));
    }
    if directory::directory_entries(device, catalog, id, hashed) is Ok {
        catalog::law_items_are_those_of_the_kind::<bool, directory::DirEntry>(
            hashed,
            records,
            records.len(),
        );
        let kept = records.filter(
            |record: catalog::RecordView| record.key_header.kind == JObjType::DirRec,
        );
        assert(kept.map_values(
            |record: catalog::RecordView| directory::DirEntry::item_of(hashed, record)->Ok_0,
        ) =~= kept.map_values(
            |record: catalog::RecordView| directory::dir_entry_of(record, hashed)->Ok_0,
        ));
    }
    if catalog::catalog_items::<(), sibling::SiblingLink>(
        device,
        catalog,
        Selection::Object(id),
        (),
    ) is Ok {
        catalog::law_items_are_those_of_the_kind::<(), sibling::SiblingLink>(
            (),
            records,
            records.len(),
        );
        let kept = records.filter(
            |record: catalog::RecordView| record.key_header.kind == JObjType::SiblingLink,
        );
        assert(kept.map_values(
            |record: catalog::RecordView| sibling::SiblingLink::item_of((), record)->Ok_0,
        ) =~= kept.map_values(
            |record: catalog::RecordView|
                sibling::sibling_link_of(record.key, record.value)->Ok_0,
        ));
    }
}

/// How deep a catalog, a timeline and a path may go, and how many nodes a file-extent tree may
/// have.
pub proof fn law_limits()
    ensures
        catalog::MAX_CATALOG_DEPTH == 32,
        forensic::MAX_TIMELINE_DEPTH == 256,
        recovery::MAX_PATH_DEPTH == 256,
        fext::MAX_FEXT_TREE_NODES == 1_048_576,
{
}

/// A number that stands for no known kind is kept as it is, and is told from the known ones.
pub proof fn law_unknown_kinds_keep_their_number(value: u32, half: u16, byte: u8)
    ensures
        catalog::kind_of(0) == JObjType::Any,
        catalog::kind_of(15) == JObjType::Invalid,
        byte == 14 || byte > 15 ==> catalog::kind_of(byte) == JObjType::Unknown(byte),
        clones::obj_kind_of(0) == JObjKind::Any,
        clones::obj_kind_of(255) == JObjKind::Invalid,
        4 < byte < 255 ==> clones::obj_kind_of(byte) == JObjKind::Unknown(byte),
        half % 16 == 0 ==> directory::entry_type_of(half) == DirEntryType::Unknown,
        half % 16 == 3 || half % 16 == 5 || half % 16 == 7 || half % 16 == 9 || half % 16 == 11
            || half % 16 == 13 || half % 16 == 15 ==> directory::entry_type_of(half)
            == DirEntryType::Other((half % 16) as u16),
        half / 4096 == 0 || half / 4096 == 3 || half / 4096 == 5 || half / 4096 == 7 || half / 4096
            == 9 || half / 4096 == 11 || half / 4096 == 13 || half / 4096 == 15
            ==> inode::file_type_of(half) == FileType::Unknown((half / 4096 * 4096) as u16),
        keybag::tag_of(0) == KeybagTag::Unknown,
        half == 1 || half > 6 ==> keybag::tag_of(half) == KeybagTag::Other(half),
        value % 32 == 5 || 6 < value % 32 < 14 || value % 32 > 14 ==> keybag::class_of(value)
            == ProtectionClass::Unknown((value % 32) as u32),
        value == 0 || value > 4 ==> sealed::hash_type_of(value) == ApfsHashType::Unknown(value),
        value > 4 ==> reaper::phase_of(value) == ReapPhase::Unknown(value),
        !types::is_keybag_code(value) && (value % 65536 == 4 || (0x20 < value % 65536 && value
            % 65536 != 0xFF)) ==> types::object_type_of(value) == ObjectType::Unknown(
            (value % 65536) as u16,
        ),
        types::object_type_of(0x6B65_7973) == ObjectType::ContainerKeybag,
        types::object_type_of(0x7265_6373) == ObjectType::VolumeKeybag,
        types::object_type_of(0x6D6B_6579) == ObjectType::MediaKeybag,
{
    assert(half & 0xF000 == half / 4096 * 4096) by (bit_vector);
    assert(value & 0x1F == value % 32) by (bit_vector);
}

} // verus!
