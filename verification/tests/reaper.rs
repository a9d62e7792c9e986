use fs_apfs::error::ApfsError;
use fs_apfs::object::OBJ_PHYS_SIZE;
use fs_apfs::reaper::{NRL_ENTRIES_OFFSET, REAPER_PREFIX_SIZE, REAP_LIST_ENTRY_SIZE, ReapList, ReapListEntryFlags, ReapPhase, Reaper, ReaperFlags};

#[test]
fn reap_phase_decodes() {
    assert_eq!(ReapPhase::from_value(0), ReapPhase::Start);
    assert_eq!(ReapPhase::from_value(2), ReapPhase::ActiveFs);
    assert_eq!(ReapPhase::from_value(4), ReapPhase::Done);
    assert_eq!(ReapPhase::from_value(9), ReapPhase::Unknown(9));
}

#[test]
fn parses_an_active_reaper() {
    let mut b = vec![0u8; REAPER_PREFIX_SIZE];
    b[0x20..0x28].copy_from_slice(&50u64.to_le_bytes()); // next_reap_id
    b[0x40..0x44].copy_from_slice(&ReaperFlags::CONTINUE.to_le_bytes());
    b[0x44..0x48].copy_from_slice(&3u32.to_le_bytes()); // list_count
    b[0x58..0x60].copy_from_slice(&808u64.to_le_bytes()); // current_oid
    let reaper = Reaper::parse(&b).unwrap();
    assert_eq!(reaper.next_reap_id, 50);
    assert_eq!(reaper.list_count, 3);
    assert_eq!(reaper.current_oid, 808);
    assert!(reaper.is_active());
}

#[test]
fn idle_reaper_is_not_active() {
    let reaper = Reaper::parse(&[0u8; REAPER_PREFIX_SIZE]).unwrap();
    assert!(!reaper.is_active());
}

#[test]
fn reaper_rejects_a_short_block() {
    assert!(matches!(
        Reaper::parse(&[0u8; 16]),
        Err(ApfsError::Truncated { .. })
    ));
}

#[test]
fn parses_a_reap_list_and_filters_valid_entries() {
    let mut b = vec![0u8; NRL_ENTRIES_OFFSET + 2 * REAP_LIST_ENTRY_SIZE];
    b[OBJ_PHYS_SIZE..OBJ_PHYS_SIZE + 8].copy_from_slice(&0u64.to_le_bytes()); // next
    b[OBJ_PHYS_SIZE + 12..OBJ_PHYS_SIZE + 16].copy_from_slice(&8u32.to_le_bytes()); // nrl_max
    b[OBJ_PHYS_SIZE + 16..OBJ_PHYS_SIZE + 20].copy_from_slice(&2u32.to_le_bytes()); // nrl_count
    // Entry 0: valid, oid 900.
    let e0 = NRL_ENTRIES_OFFSET;
    b[e0 + 4..e0 + 8].copy_from_slice(&ReapListEntryFlags::VALID.to_le_bytes());
    b[e0 + 24..e0 + 32].copy_from_slice(&900u64.to_le_bytes());
    // Entry 1: not valid.
    let list = ReapList::parse(&b).unwrap();
    assert_eq!(list.entries.len(), 2);
    let pending = list.pending();
    assert_eq!(pending.len(), 1);
    assert_eq!(pending[0].oid, 900);
}

#[test]
fn reap_list_rejects_an_oversized_count() {
    let mut b = vec![0u8; NRL_ENTRIES_OFFSET + REAP_LIST_ENTRY_SIZE];
    b[OBJ_PHYS_SIZE + 16..OBJ_PHYS_SIZE + 20].copy_from_slice(&1000u32.to_le_bytes());
    assert!(matches!(
        ReapList::parse(&b),
        Err(ApfsError::Malformed { .. })
    ));
}

#[test]
fn reaper_reports_full_expected_size_on_truncation() {
    let err = Reaper::parse(&[0u8; 16]).unwrap_err();
    match err {
        ApfsError::Truncated {
            structure,
            expected,
            actual,
        } => {
            assert_eq!(structure, "nx_reaper_phys_t");
            assert_eq!(expected, REAPER_PREFIX_SIZE);
            assert_eq!(expected, OBJ_PHYS_SIZE + 0x48);
            assert_eq!(actual, 16);
        }
        other => panic!("expected Truncated, got {other:?}"),
    }
}

#[test]
fn reaper_is_active_with_only_continue_flag() {
    // `CONTINUE` set, but no current object — the reaper still has work
    // to do. A short-circuit AND would treat this as idle.
    let mut b = vec![0u8; REAPER_PREFIX_SIZE];
    b[0x40..0x44].copy_from_slice(&ReaperFlags::CONTINUE.to_le_bytes());
    let reaper = Reaper::parse(&b).unwrap();
    assert_eq!(reaper.current_oid, 0);
    assert!(reaper.is_active());
}

#[test]
fn reaper_is_active_with_only_current_oid() {
    // No `CONTINUE` flag, but a current object is set — a partial
    // deletion is in progress and the reaper is active.
    let mut b = vec![0u8; REAPER_PREFIX_SIZE];
    b[0x58..0x60].copy_from_slice(&42u64.to_le_bytes()); // current_oid
    let reaper = Reaper::parse(&b).unwrap();
    assert!(!reaper.flags.contains(ReaperFlags::CONTINUE));
    assert_eq!(reaper.current_oid, 42);
    assert!(reaper.is_active());
}

#[test]
fn reap_list_parses_at_the_exact_prefix_boundary() {
    let b = vec![0u8; NRL_ENTRIES_OFFSET];
    let list = ReapList::parse(&b).unwrap();
    assert_eq!(list.next, 0);
    assert!(list.entries.is_empty());
}

#[test]
fn reap_list_entries_live_at_documented_offset_64() {
    const ENTRY_OFFSET: usize = 64;
    const BLOCK_LEN: usize = 200;
    let mut b = vec![0u8; BLOCK_LEN];
    // `nrl_count` lives at OBJ_PHYS_SIZE + 16 = 48.
    b[48..52].copy_from_slice(&1u32.to_le_bytes());
    // Entry 0's fields, at the documented byte offsets.
    b[ENTRY_OFFSET..ENTRY_OFFSET + 4].copy_from_slice(&5u32.to_le_bytes()); // next
    b[ENTRY_OFFSET + 4..ENTRY_OFFSET + 8]
        .copy_from_slice(&ReapListEntryFlags::VALID.to_le_bytes());
    b[ENTRY_OFFSET + 8..ENTRY_OFFSET + 12].copy_from_slice(&99u32.to_le_bytes()); // obj_type
    b[ENTRY_OFFSET + 12..ENTRY_OFFSET + 16].copy_from_slice(&4096u32.to_le_bytes()); // size
    b[ENTRY_OFFSET + 16..ENTRY_OFFSET + 24].copy_from_slice(&1_111u64.to_le_bytes()); // fs_oid
    b[ENTRY_OFFSET + 24..ENTRY_OFFSET + 32].copy_from_slice(&2_222u64.to_le_bytes()); // oid
    b[ENTRY_OFFSET + 32..ENTRY_OFFSET + 40].copy_from_slice(&3_333u64.to_le_bytes()); // xid

    let list = ReapList::parse(&b).unwrap();
    assert_eq!(list.entries.len(), 1);
    let entry = list.entries[0];
    assert_eq!(entry.next, 5);
    assert!(entry.flags.contains(ReapListEntryFlags::VALID));
    assert_eq!(entry.obj_type, 99);
    assert_eq!(entry.size, 4096);
    assert_eq!(entry.fs_oid, 1_111);
    assert_eq!(entry.oid, 2_222);
    assert_eq!(entry.xid, 3_333);
}

#[test]
fn reap_list_parses_entries_at_consecutive_offsets() {
    // Two valid entries with distinct oids — the per-entry base must
    // advance by `REAP_LIST_ENTRY_SIZE` for each step. A `-` for `+` at
    // the base computation would read entry 1 from a non-entry region
    // (or panic on underflow), and a `+` for `*` on the offset constant
    // would read both entries from the same place.
    let mut b = vec![0u8; NRL_ENTRIES_OFFSET + 2 * REAP_LIST_ENTRY_SIZE];
    b[OBJ_PHYS_SIZE + 16..OBJ_PHYS_SIZE + 20].copy_from_slice(&2u32.to_le_bytes());

    let e0 = NRL_ENTRIES_OFFSET;
    b[e0 + 4..e0 + 8].copy_from_slice(&ReapListEntryFlags::VALID.to_le_bytes());
    b[e0 + 24..e0 + 32].copy_from_slice(&100u64.to_le_bytes()); // entry 0 oid

    let e1 = NRL_ENTRIES_OFFSET + REAP_LIST_ENTRY_SIZE;
    b[e1 + 4..e1 + 8].copy_from_slice(&ReapListEntryFlags::VALID.to_le_bytes());
    b[e1 + 24..e1 + 32].copy_from_slice(&200u64.to_le_bytes()); // entry 1 oid

    let list = ReapList::parse(&b).unwrap();
    assert_eq!(list.entries.len(), 2);
    assert_eq!(list.entries[0].oid, 100);
    assert_eq!(list.entries[1].oid, 200);
    // Both entries must surface from `pending`, in order.
    let pending = list.pending();
    assert_eq!(pending.len(), 2);
    assert_eq!(pending[0].oid, 100);
    assert_eq!(pending[1].oid, 200);
}
