//! What a finished timeline holds, against the records that it was built from.
//!
//! The laws here relate the events of a timeline to the bytes of the inode records
//! and to the chains of directory records that lead to the inodes.

use vstd::prelude::*;
use vstd::seq_lib::*;

use crate::bytes;
use crate::catalog;
use crate::catalog::{Catalog, JObjType, RecordView, Selection};
use crate::directory;
use crate::directory::{DirEntryType, DirEntryView};
use crate::error::ApfsError;
use crate::forensic;
use crate::forensic::{TimelineEventView, TimestampKind, MAX_TIMELINE_DEPTH};
use crate::inode;
use crate::inode::InodeView;
use crate::io::Device;
use crate::sort;
use crate::time::ApfsTimestamp;

verus! {

/// The time of a kind in the value of an inode record: created at byte 16, modified at
/// byte 24, changed at byte 32, accessed at byte 40.
pub open spec fn stored_time(value: Seq<u8>, kind: TimestampKind) -> u64 {
    match kind {
        TimestampKind::Created => bytes::le_u64(value, 16),
        TimestampKind::Modified => bytes::le_u64(value, 24),
        TimestampKind::Changed => bytes::le_u64(value, 32),
        TimestampKind::Accessed => bytes::le_u64(value, 40),
    }
}

/// The event of a kind that an inode record gives an object at a path.
pub open spec fn stored_event(
    value: Seq<u8>,
    kind: TimestampKind,
    obj_id: u64,
    path: Seq<char>,
) -> TimelineEventView {
    TimelineEventView { time: ApfsTimestamp(stored_time(value, kind)), kind, obj_id, path }
}

/// Whether the record at `at` is the last one of an object.
pub open spec fn is_record_of(records: Seq<RecordView>, at: int, obj_id: u64) -> bool {
    &&& 0 <= at < records.len()
    &&& records[at].key_header.obj_id == obj_id
    &&& forall|i: int|
        at < i < records.len() ==> (#[trigger] records[i]).key_header.obj_id != obj_id
}

/// The entry in a directory record.
pub open spec fn entry_in(record: RecordView, hashed: bool) -> DirEntryView {
    directory::dir_entry_of(record, hashed)->Ok_0
}

/// Whether directory records lead from a directory down: the first is in the directory,
/// and each further one is in the directory that the one before it names.
pub open spec fn leads_down(
    records: Seq<RecordView>,
    hashed: bool,
    dir_id: u64,
    chain: Seq<int>,
) -> bool
    decreases chain.len(),
{
    &&& chain.len() > 0
    &&& 0 <= chain[0] < records.len()
    &&& records[chain[0]].key_header.obj_id == dir_id
    &&& chain.len() > 1 ==> {
        let entry = entry_in(records[chain[0]], hashed);
        entry.file_type == DirEntryType::Directory && leads_down(
            records,
            hashed,
            entry.file_id,
            chain.drop_first(),
        )
    }
}

/// The path that the names along a chain make, each after a slash.
pub open spec fn path_along(
    records: Seq<RecordView>,
    hashed: bool,
    prefix: Seq<char>,
    chain: Seq<int>,
) -> Seq<char>
    decreases chain.len(),
{
    if chain.len() == 0 {
        prefix
    } else {
        path_along(
            records,
            hashed,
            prefix + seq!['/'] + entry_in(records[chain[0]], hashed).name,
            chain.drop_first(),
        )
    }
}

/// The object at the end of a chain.
pub open spec fn object_at_end(records: Seq<RecordView>, hashed: bool, chain: Seq<int>) -> u64 {
    entry_in(records[chain.last()], hashed).file_id
}

/// An inode has one event of each kind, and its time is the one that the inode's record
/// stores for that kind.
pub proof fn law_inode_has_one_event_of_each_kind(
    value: Seq<u8>,
    inode: InodeView,
    obj_id: u64,
    path: Seq<char>,
)
    requires
        inode::inode_of(value) == Ok::<InodeView, ApfsError>(inode),
    ensures
        ({
            let events = forensic::events_of(inode, obj_id, path);
            &&& events.len() == 4
            &&& forall|kind: TimestampKind| #[trigger]
                events.contains(stored_event(value, kind, obj_id, path))
            &&& forall|i: int|
                0 <= i < events.len() ==> #[trigger] events[i] == stored_event(
                    value,
                    events[i].kind,
                    obj_id,
                    path,
                )
            &&& forall|i: int, j: int|
                0 <= i < j < events.len() ==> (#[trigger] events[i]).kind != (
                #[trigger] events[j]).kind
        }),
{
    let events = forensic::events_of(inode, obj_id, path);
    assert forall|kind: TimestampKind| #[trigger]
        events.contains(stored_event(value, kind, obj_id, path)) by {
        let wanted = stored_event(value, kind, obj_id, path);
        match kind {
            TimestampKind::Created => assert(events[0] == wanted),
            TimestampKind::Modified => assert(events[1] == wanted),
            TimestampKind::Changed => assert(events[2] == wanted),
            TimestampKind::Accessed => assert(events[3] == wanted),
        }
    }
}

/// Whether an index holds the inode of the last record of each object.
spec fn indexes(inodes: Map<u64, InodeView>, records: Seq<RecordView>) -> bool {
    &&& forall|at: int, id: u64| #[trigger]
        is_record_of(records, at, id) ==> inodes.dom().contains(id) && inode::inode_of(
            records[at].value,
        ) == Ok::<InodeView, ApfsError>(inodes[id])
    &&& forall|id: u64| #[trigger]
        inodes.dom().contains(id) ==> exists|at: int| is_record_of(records, at, id)
}

proof fn lemma_inode_index(records: Seq<RecordView>, count: nat)
    requires
        count <= records.len(),
        forensic::inode_index(records, count) is Ok,
    ensures
        indexes(forensic::inode_index(records, count)->Ok_0, records.take(count as int)),
    decreases count,
{
    let now = records.take(count as int);
    if count > 0 {
        let last = (count - 1) as nat;
        let before = records.take(last as int);
        let record = records[last as int];
        lemma_inode_index(records, last);
        let earlier = forensic::inode_index(records, last)->Ok_0;
        let inodes = forensic::inode_index(records, count)->Ok_0;
        let new_id = record.key_header.obj_id;
        assert(now.drop_last() =~= before);
        assert forall|at: int, id: u64| #[trigger] is_record_of(now, at, id) implies inodes.dom()
            .contains(id) && inode::inode_of(now[at].value) == Ok::<InodeView, ApfsError>(
            inodes[id],
        ) by {
            assert(now[last as int] == record);
            if at < last {
                assert(now[last as int].key_header.obj_id != id);
                assert forall|i: int| at < i < before.len() implies (
                #[trigger] before[i]).key_header.obj_id != id by {
                    assert(before[i] == now[i]);
                }
                assert(is_record_of(before, at, id));
            }
        }
        assert forall|id: u64| #[trigger] inodes.dom().contains(id) implies exists|at: int|
            is_record_of(now, at, id) by {
            if id == new_id {
                assert(is_record_of(now, last as int, id));
            } else {
                assert(earlier.dom().contains(id));
                let at = choose|at: int| is_record_of(before, at, id);
                assert forall|i: int| at < i < now.len() implies (
                #[trigger] now[i]).key_header.obj_id != id by {
                    if i < last {
                        assert(before[i] == now[i]);
                    }
                }
                assert(is_record_of(now, at, id));
            }
        }
    }
}

/// Whether an entry is that of a record in a directory.
spec fn is_entry_of(
    records: Seq<RecordView>,
    hashed: bool,
    dir_id: u64,
    entry: DirEntryView,
) -> bool {
    exists|i: int|
        0 <= i < records.len() && (#[trigger] records[i]).key_header.obj_id == dir_id && entry_in(
            records[i],
            hashed,
        ) == entry
}

/// Whether an index holds the entries of each directory.
spec fn lists(
    children: Map<u64, Seq<DirEntryView>>,
    records: Seq<RecordView>,
    hashed: bool,
) -> bool {
    forall|dir_id: u64, entry: DirEntryView| #[trigger]
        forensic::children_in(children, dir_id).contains(entry) <==> is_entry_of(
            records,
            hashed,
            dir_id,
            entry,
        )
}

proof fn lemma_children_index(records: Seq<RecordView>, hashed: bool, count: nat)
    requires
        count <= records.len(),
        forensic::children_index(records, hashed, count) is Ok,
    ensures
        lists(
            forensic::children_index(records, hashed, count)->Ok_0,
            records.take(count as int),
            hashed,
        ),
    decreases count,
{
    let now = records.take(count as int);
    let children = forensic::children_index(records, hashed, count)->Ok_0;
    if count > 0 {
        let last = (count - 1) as nat;
        let before = records.take(last as int);
        let record = records[last as int];
        lemma_children_index(records, hashed, last);
        let earlier = forensic::children_index(records, hashed, last)->Ok_0;
        let dir = record.key_header.obj_id;
        let added = entry_in(record, hashed);
        assert(now[last as int] == record);
        assert forall|dir_id: u64, entry: DirEntryView| #[trigger]
            forensic::children_in(children, dir_id).contains(entry) <==> is_entry_of(
                now,
                hashed,
                dir_id,
                entry,
            ) by {
            let old_list = forensic::children_in(earlier, dir_id);
            let new_list = forensic::children_in(children, dir_id);
            assert(old_list.contains(entry) <==> is_entry_of(before, hashed, dir_id, entry));
            if new_list.contains(entry) {
                let k = new_list.index_of(entry);
                if k < old_list.len() {
                    assert(old_list[k] == entry);
                    let i = choose|i: int|
                        0 <= i < before.len() && (#[trigger] before[i]).key_header.obj_id == dir_id
                            && entry_in(before[i], hashed) == entry;
                    assert(now[i].key_header.obj_id == dir_id);
                } else {
                    assert(now[last as int].key_header.obj_id == dir_id);
                }
            }
            if is_entry_of(now, hashed, dir_id, entry) {
                let i = choose|i: int|
                    0 <= i < now.len() && (#[trigger] now[i]).key_header.obj_id == dir_id
                        && entry_in(now[i], hashed) == entry;
                if i < last {
                    assert(before[i].key_header.obj_id == dir_id);
                    let k = old_list.index_of(entry);
                    assert(new_list[k] == entry);
                } else {
                    assert(new_list.last() == entry);
                }
            }
        }
    } else {
        assert(now =~= Seq::<RecordView>::empty());
    }
}

/// The events up to an entry are among those up to a later one.
proof fn lemma_events_grow(
    inodes: Map<u64, InodeView>,
    children: Map<u64, Seq<DirEntryView>>,
    entries: Seq<DirEntryView>,
    prefix: Seq<char>,
    depth: nat,
    some: nat,
    all: nat,
    event: TimelineEventView,
)
    requires
        some <= all,
        forensic::events_of_entries(inodes, children, entries, prefix, depth, all) is Ok,
    ensures
        forensic::events_of_entries(inodes, children, entries, prefix, depth, some) is Ok,
        forensic::events_of_entries(
            inodes,
            children,
            entries,
            prefix,
            depth,
            some,
        )->Ok_0.contains(event) ==> forensic::events_of_entries(
            inodes,
            children,
            entries,
            prefix,
            depth,
            all,
        )->Ok_0.contains(event),
    decreases all,
{
    if some < all {
        let last = (all - 1) as nat;
        lemma_events_grow(inodes, children, entries, prefix, depth, some, last, event);
        let now = forensic::events_of_entries(inodes, children, entries, prefix, depth, all)->Ok_0;
        let then = forensic::events_of_entries(
            inodes,
            children,
            entries,
            prefix,
            depth,
            last,
        )->Ok_0;
        if depth < MAX_TIMELINE_DEPTH && then.contains(event) {
            let k = then.index_of(event);
            assert(now[k] == event);
        }
    }
}

/// What a chain of records leads to has its events below the directory that the chain
/// starts in.
proof fn lemma_chain_has_events(
    inodes: Map<u64, InodeView>,
    children: Map<u64, Seq<DirEntryView>>,
    records: Seq<RecordView>,
    hashed: bool,
    dir_id: u64,
    prefix: Seq<char>,
    depth: nat,
    chain: Seq<int>,
    event: TimelineEventView,
)
    requires
        lists(children, records, hashed),
        forensic::events_below(inodes, children, dir_id, prefix, depth) is Ok,
        leads_down(records, hashed, dir_id, chain),
        ({
            let id = object_at_end(records, hashed, chain);
            let path = path_along(records, hashed, prefix, chain);
            inodes.dom().contains(id) && forensic::events_of(inodes[id], id, path).contains(event)
        }),
    ensures
        forensic::events_below(inodes, children, dir_id, prefix, depth)->Ok_0.contains(event),
    decreases chain.len(),
{
    let entries = forensic::children_in(children, dir_id);
    let entry = entry_in(records[chain[0]], hashed);
    let path = prefix + seq!['/'] + entry.name;
    assert(is_entry_of(records, hashed, dir_id, entry));
    assert(entries.contains(entry));
    let k = entries.index_of(entry) as nat;
    let next = (k + 1) as nat;
    lemma_events_grow(inodes, children, entries, prefix, depth, k, entries.len(), event);
    lemma_events_grow(inodes, children, entries, prefix, depth, next, entries.len(), event);
    let before = forensic::events_of_entries(inodes, children, entries, prefix, depth, k)->Ok_0;
    let after = forensic::events_of_entries(inodes, children, entries, prefix, depth, next)->Ok_0;
    let own = forensic::own_events(inodes, entry, path);
    let rest = chain.drop_first();
    if chain.len() == 1 {
        assert(chain.last() == chain[0]);
        assert(path_along(records, hashed, path, rest) == path);
        let at = own.index_of(event);
        assert((before + own)[before.len() + at] == event);
        assert(after[before.len() + at] == event);
    } else {
        assert(rest.last() == chain.last());
        lemma_chain_has_events(
            inodes,
            children,
            records,
            hashed,
            entry.file_id,
            path,
            depth + 1,
            rest,
            event,
        );
        let below = forensic::events_below(
            inodes,
            children,
            entry.file_id,
            path,
            depth + 1,
        )->Ok_0;
        let at = below.index_of(event);
        assert(after[(before + own).len() + at] == event);
    }
}

/// Whether an event is that of an inode which some chain leads to.
spec fn comes_from_chain(
    inodes: Map<u64, InodeView>,
    records: Seq<RecordView>,
    hashed: bool,
    dir_id: u64,
    prefix: Seq<char>,
    event: TimelineEventView,
) -> bool {
    exists|chain: Seq<int>|
        {
            let id = object_at_end(records, hashed, chain);
            &&& #[trigger] leads_down(records, hashed, dir_id, chain)
            &&& inodes.dom().contains(id)
            &&& forensic::events_of(
                inodes[id],
                id,
                path_along(records, hashed, prefix, chain),
            ).contains(event)
        }
}

proof fn lemma_events_below_have_chains(
    inodes: Map<u64, InodeView>,
    children: Map<u64, Seq<DirEntryView>>,
    records: Seq<RecordView>,
    hashed: bool,
    dir_id: u64,
    prefix: Seq<char>,
    depth: nat,
    event: TimelineEventView,
)
    requires
        lists(children, records, hashed),
        forensic::events_below(inodes, children, dir_id, prefix, depth) matches Ok(events)
            && events.contains(event),
    ensures
        comes_from_chain(inodes, records, hashed, dir_id, prefix, event),
    decreases MAX_TIMELINE_DEPTH - depth, 1int, 0nat,
{
    let entries = forensic::children_in(children, dir_id);
    lemma_entries_have_chains(
        inodes,
        children,
        records,
        hashed,
        dir_id,
        prefix,
        depth,
        entries.len(),
        event,
    );
}

proof fn lemma_entries_have_chains(
    inodes: Map<u64, InodeView>,
    children: Map<u64, Seq<DirEntryView>>,
    records: Seq<RecordView>,
    hashed: bool,
    dir_id: u64,
    prefix: Seq<char>,
    depth: nat,
    count: nat,
    event: TimelineEventView,
)
    requires
        lists(children, records, hashed),
        count <= forensic::children_in(children, dir_id).len(),
        forensic::events_of_entries(
            inodes,
            children,
            forensic::children_in(children, dir_id),
            prefix,
            depth,
            count,
        ) matches Ok(events) && events.contains(event),
    ensures
        comes_from_chain(inodes, records, hashed, dir_id, prefix, event),
    decreases MAX_TIMELINE_DEPTH - depth, 0int, count,
{
    let entries = forensic::children_in(children, dir_id);
    let events = forensic::events_of_entries(
        inodes,
        children,
        entries,
        prefix,
        depth,
        count,
    )->Ok_0;
    if count > 0 && depth < MAX_TIMELINE_DEPTH {
        let last = (count - 1) as nat;
        let before = forensic::events_of_entries(
            inodes,
            children,
            entries,
            prefix,
            depth,
            last,
        )->Ok_0;
        let entry = entries[last as int];
        let path = prefix + seq!['/'] + entry.name;
        let own = forensic::own_events(inodes, entry, path);
        assert(entries.contains(entry));
        assert(is_entry_of(records, hashed, dir_id, entry));
        let i = choose|i: int|
            0 <= i < records.len() && (#[trigger] records[i]).key_header.obj_id == dir_id
                && entry_in(records[i], hashed) == entry;
        let at = events.index_of(event);
        if at < before.len() {
            assert(before[at] == event);
            lemma_entries_have_chains(
                inodes,
                children,
                records,
                hashed,
                dir_id,
                prefix,
                depth,
                last,
                event,
            );
        } else if at < before.len() + own.len() {
            assert(own[at - before.len()] == event);
            let chain = seq![i];
            assert(chain.drop_first() =~= Seq::<int>::empty());
            assert(path_along(records, hashed, path, chain.drop_first()) == path);
            assert(leads_down(records, hashed, dir_id, chain));
        } else {
            let below = forensic::events_below(
                inodes,
                children,
                entry.file_id,
                path,
                depth + 1,
            )->Ok_0;
            assert(below[at - before.len() - own.len()] == event);
            lemma_events_below_have_chains(
                inodes,
                children,
                records,
                hashed,
                entry.file_id,
                path,
                depth + 1,
                event,
            );
            let rest = choose|rest: Seq<int>|
                {
                    let id = object_at_end(records, hashed, rest);
                    &&& #[trigger] leads_down(records, hashed, entry.file_id, rest)
                    &&& inodes.dom().contains(id)
                    &&& forensic::events_of(
                        inodes[id],
                        id,
                        path_along(records, hashed, path, rest),
                    ).contains(event)
                };
            let chain = seq![i] + rest;
            assert(chain.drop_first() =~= rest);
            assert(chain.last() == rest.last());
            assert(leads_down(records, hashed, dir_id, chain));
        }
    }
}

proof fn lemma_timeline_members(events: Seq<TimelineEventView>, event: TimelineEventView)
    ensures
        sort::stable_sort(events, forensic::event_order()).contains(event) <==> events.contains(
            event,
        ),
{
    let timeline = sort::stable_sort(events, forensic::event_order());
    sort::law_stable_sort_permutes(events, forensic::event_order());
    if timeline.contains(event) {
        sort::lemma_same_multiset_contains(events, timeline, event);
    }
    if events.contains(event) {
        sort::lemma_same_multiset_contains(timeline, events, event);
    }
}

/// Whether `inode_records` and `dir_records` are the inode records and the directory
/// records that a catalog holds.
pub open spec fn are_records_of(
    device: Device,
    catalog: Catalog,
    inode_records: Seq<RecordView>,
    dir_records: Seq<RecordView>,
) -> bool {
    &&& catalog::catalog_records(device, catalog, Selection::Kind(JObjType::Inode)) == Ok::<
        Seq<RecordView>,
        ApfsError,
    >(inode_records)
    &&& catalog::catalog_records(device, catalog, Selection::Kind(JObjType::DirRec)) == Ok::<
        Seq<RecordView>,
        ApfsError,
    >(dir_records)
}

/// Each event of a timeline has the time that the inode record of its object stores for
/// the event's kind, and its path is that of the root directory, object 2, or the one
/// that a chain of directory records makes from the root to its object.
pub proof fn law_events_have_the_stored_times(
    device: Device,
    catalog: Catalog,
    hashed: bool,
    inode_records: Seq<RecordView>,
    dir_records: Seq<RecordView>,
    event: TimelineEventView,
)
    requires
        are_records_of(device, catalog, inode_records, dir_records),
        forensic::timeline_of(device, catalog, hashed) matches Ok(timeline) && timeline.contains(
            event,
        ),
    ensures
        exists|at: int| #[trigger]
            is_record_of(inode_records, at, event.obj_id) && event.time.0 == stored_time(
                inode_records[at].value,
                event.kind,
            ),
        (event.obj_id == 2 && event.path == seq!['/']) || exists|chain: Seq<int>| #[trigger]
            leads_down(dir_records, hashed, 2, chain) && event.obj_id == object_at_end(
                dir_records,
                hashed,
                chain,
            ) && event.path == path_along(dir_records, hashed, Seq::empty(), chain),
{
    let inodes = forensic::inode_index(inode_records, inode_records.len())->Ok_0;
    let children = forensic::children_index(dir_records, hashed, dir_records.len())->Ok_0;
    lemma_inode_index(inode_records, inode_records.len());
    lemma_children_index(dir_records, hashed, dir_records.len());
    assert(inode_records.take(inode_records.len() as int) =~= inode_records);
    assert(dir_records.take(dir_records.len() as int) =~= dir_records);
    let events = forensic::volume_events(inodes, children)->Ok_0;
    lemma_timeline_members(events, event);
    lemma_volume_event(inodes, children, inode_records, dir_records, hashed, event);
}

proof fn lemma_own_event(
    inodes: Map<u64, InodeView>,
    inode_records: Seq<RecordView>,
    id: u64,
    path: Seq<char>,
    event: TimelineEventView,
)
    requires
        indexes(inodes, inode_records),
        inodes.dom().contains(id),
        forensic::events_of(inodes[id], id, path).contains(event),
    ensures
        event.obj_id == id,
        event.path == path,
        exists|at: int| #[trigger]
            is_record_of(inode_records, at, id) && event.time.0 == stored_time(
                inode_records[at].value,
                event.kind,
            ),
{
    let at = choose|at: int| is_record_of(inode_records, at, id);
    assert(is_record_of(inode_records, at, id));
    let value = inode_records[at].value;
    law_inode_has_one_event_of_each_kind(value, inodes[id], id, path);
    let own = forensic::events_of(inodes[id], id, path);
    let j = own.index_of(event);
    assert(own[j] == stored_event(value, own[j].kind, id, path));
}

proof fn lemma_volume_event(
    inodes: Map<u64, InodeView>,
    children: Map<u64, Seq<DirEntryView>>,
    inode_records: Seq<RecordView>,
    dir_records: Seq<RecordView>,
    hashed: bool,
    event: TimelineEventView,
)
    requires
        indexes(inodes, inode_records),
        lists(children, dir_records, hashed),
        forensic::volume_events(inodes, children) matches Ok(events) && events.contains(event),
    ensures
        exists|at: int| #[trigger]
            is_record_of(inode_records, at, event.obj_id) && event.time.0 == stored_time(
                inode_records[at].value,
                event.kind,
            ),
        (event.obj_id == 2 && event.path == seq!['/']) || exists|chain: Seq<int>| #[trigger]
            leads_down(dir_records, hashed, 2, chain) && event.obj_id == object_at_end(
                dir_records,
                hashed,
                chain,
            ) && event.path == path_along(dir_records, hashed, Seq::empty(), chain),
{
    let events = forensic::volume_events(inodes, children)->Ok_0;
    let below = forensic::events_below(inodes, children, 2, Seq::empty(), 0)->Ok_0;
    let above = events.len() - below.len();
    let k = events.index_of(event);
    if k < above {
        assert(forensic::events_of(inodes[2], 2, seq!['/'])[k] == event);
        lemma_own_event(inodes, inode_records, 2, seq!['/'], event);
    } else {
        assert(below[k - above] == event);
        lemma_events_below_have_chains(
            inodes,
            children,
            dir_records,
            hashed,
            2,
            Seq::empty(),
            0,
            event,
        );
        let chain = choose|chain: Seq<int>|
            {
                let id = object_at_end(dir_records, hashed, chain);
                &&& #[trigger] leads_down(dir_records, hashed, 2, chain)
                &&& inodes.dom().contains(id)
                &&& forensic::events_of(
                    inodes[id],
                    id,
                    path_along(dir_records, hashed, Seq::empty(), chain),
                ).contains(event)
            };
        let id = object_at_end(dir_records, hashed, chain);
        let path = path_along(dir_records, hashed, Seq::empty(), chain);
        lemma_own_event(inodes, inode_records, id, path, event);
        assert(leads_down(dir_records, hashed, 2, chain));
    }
}

/// Each inode that a chain of directory records leads to from the root, object 2, has in
/// the timeline an event of each kind, with the time that its record stores for that
/// kind and the path that the chain makes; and so has the root itself.
pub proof fn law_every_reachable_inode_has_its_events(
    device: Device,
    catalog: Catalog,
    hashed: bool,
    inode_records: Seq<RecordView>,
    dir_records: Seq<RecordView>,
    at: int,
    kind: TimestampKind,
)
    requires
        are_records_of(device, catalog, inode_records, dir_records),
        forensic::timeline_of(device, catalog, hashed) is Ok,
    ensures
        ({
            let timeline = forensic::timeline_of(device, catalog, hashed)->Ok_0;
            let value = inode_records[at].value;
            &&& is_record_of(inode_records, at, 2) ==> timeline.contains(
                stored_event(value, kind, 2, seq!['/']),
            )
            &&& forall|chain: Seq<int>| #[trigger]
                leads_down(dir_records, hashed, 2, chain) && is_record_of(
                    inode_records,
                    at,
                    object_at_end(dir_records, hashed, chain),
                ) ==> timeline.contains(
                    stored_event(
                        value,
                        kind,
                        object_at_end(dir_records, hashed, chain),
                        path_along(dir_records, hashed, Seq::empty(), chain),
                    ),
                )
        }),
{
    let inodes = forensic::inode_index(inode_records, inode_records.len())->Ok_0;
    let children = forensic::children_index(dir_records, hashed, dir_records.len())->Ok_0;
    lemma_inode_index(inode_records, inode_records.len());
    lemma_children_index(dir_records, hashed, dir_records.len());
    assert(inode_records.take(inode_records.len() as int) =~= inode_records);
    assert(dir_records.take(dir_records.len() as int) =~= dir_records);
    let timeline = forensic::timeline_of(device, catalog, hashed)->Ok_0;
    let events = forensic::volume_events(inodes, children)->Ok_0;
    let below = forensic::events_below(inodes, children, 2, Seq::empty(), 0)->Ok_0;
    let above = events.len() - below.len();
    let value = inode_records[at].value;
    if is_record_of(inode_records, at, 2) {
        let event = stored_event(value, kind, 2, seq!['/']);
        law_inode_has_one_event_of_each_kind(value, inodes[2], 2, seq!['/']);
        assert(forensic::events_of(inodes[2], 2, seq!['/']).contains(event));
        let k = forensic::events_of(inodes[2], 2, seq!['/']).index_of(event);
        assert(events[k] == event);
        lemma_timeline_members(events, event);
    }
    assert forall|chain: Seq<int>| #[trigger]
        leads_down(dir_records, hashed, 2, chain) && is_record_of(
            inode_records,
            at,
            object_at_end(dir_records, hashed, chain),
        ) implies timeline.contains(
        stored_event(
            value,
            kind,
            object_at_end(dir_records, hashed, chain),
            path_along(dir_records, hashed, Seq::empty(), chain),
        ),
    ) by {
        let id = object_at_end(dir_records, hashed, chain);
        let path = path_along(dir_records, hashed, Seq::empty(), chain);
        let event = stored_event(value, kind, id, path);
        law_inode_has_one_event_of_each_kind(value, inodes[id], id, path);
        assert(forensic::events_of(inodes[id], id, path).contains(event));
        lemma_chain_has_events(
            inodes,
            children,
            dir_records,
            hashed,
            2,
            Seq::empty(),
            0,
            chain,
            event,
        );
        let k = below.index_of(event);
        assert(events[above + k] == event);
        lemma_timeline_members(events, event);
    }
}

proof fn lemma_own_count(
    inode: InodeView,
    value: Seq<u8>,
    own_id: u64,
    own_path: Seq<char>,
    id: u64,
    path: Seq<char>,
    kind: TimestampKind,
)
    requires
        own_id == id ==> inode::inode_of(value) == Ok::<InodeView, ApfsError>(inode),
    ensures
        forensic::events_of(inode, own_id, own_path).to_multiset().count(
            stored_event(value, kind, id, path),
        ) == if own_id == id && own_path == path {
            1nat
        } else {
            0nat
        },
{
    broadcast use group_to_multiset_ensures;

    let events = forensic::events_of(inode, own_id, own_path);
    let wanted = stored_event(value, kind, id, path);
    let a = forensic::event(inode.create_time, TimestampKind::Created, own_id, own_path);
    let b = forensic::event(inode.mod_time, TimestampKind::Modified, own_id, own_path);
    let c = forensic::event(inode.change_time, TimestampKind::Changed, own_id, own_path);
    let d = forensic::event(inode.access_time, TimestampKind::Accessed, own_id, own_path);
    let none = Seq::<TimelineEventView>::empty();
    assert(events =~= none.push(a).push(b).push(c).push(d));
    assert(none.to_multiset().count(wanted) == 0);
    assert(none.push(a).to_multiset() =~= none.to_multiset().insert(a));
    assert(none.push(a).push(b).to_multiset() =~= none.push(a).to_multiset().insert(b));
    assert(none.push(a).push(b).push(c).to_multiset() =~= none.push(a).push(b).to_multiset().insert(
        c,
    ));
    assert(events.to_multiset() =~= none.push(a).push(b).push(c).to_multiset().insert(d));
}

/// The number of times that an event is among events.
pub open spec fn times(events: Seq<TimelineEventView>, event: TimelineEventView) -> nat {
    events.to_multiset().count(event)
}

proof fn lemma_times_of_both(
    left: Seq<TimelineEventView>,
    right: Seq<TimelineEventView>,
    event: TimelineEventView,
)
    ensures
        times(left + right, event) == times(left, event) + times(right, event),
{
    lemma_multiset_commutative(left, right);
}

proof fn lemma_below_counts(
    inodes: Map<u64, InodeView>,
    children: Map<u64, Seq<DirEntryView>>,
    dir_id: u64,
    prefix: Seq<char>,
    depth: nat,
    value: Seq<u8>,
    id: u64,
    path: Seq<char>,
    one: TimestampKind,
    other: TimestampKind,
)
    requires
        inodes.dom().contains(id) ==> inode::inode_of(value) == Ok::<InodeView, ApfsError>(
            inodes[id],
        ),
    ensures
        forensic::events_below(inodes, children, dir_id, prefix, depth) matches Ok(events)
            ==> times(events, stored_event(value, one, id, path)) == times(
            events,
            stored_event(value, other, id, path),
        ),
    decreases MAX_TIMELINE_DEPTH - depth, 1int, 0nat,
{
    if depth < MAX_TIMELINE_DEPTH {
        let entries = forensic::children_in(children, dir_id);
        lemma_entries_counts(
            inodes,
            children,
            entries,
            prefix,
            depth,
            entries.len(),
            value,
            id,
            path,
            one,
            other,
        );
    }
}

proof fn lemma_entries_counts(
    inodes: Map<u64, InodeView>,
    children: Map<u64, Seq<DirEntryView>>,
    entries: Seq<DirEntryView>,
    prefix: Seq<char>,
    depth: nat,
    count: nat,
    value: Seq<u8>,
    id: u64,
    path: Seq<char>,
    one: TimestampKind,
    other: TimestampKind,
)
    requires
        inodes.dom().contains(id) ==> inode::inode_of(value) == Ok::<InodeView, ApfsError>(
            inodes[id],
        ),
    ensures
        forensic::events_of_entries(
            inodes,
            children,
            entries,
            prefix,
            depth,
            count,
        ) matches Ok(events) ==> times(events, stored_event(value, one, id, path)) == times(
            events,
            stored_event(value, other, id, path),
        ),
    decreases MAX_TIMELINE_DEPTH - depth, 0int, count,
{
    let left = stored_event(value, one, id, path);
    let right = stored_event(value, other, id, path);
    let none = Seq::<TimelineEventView>::empty();
    assert(times(none, left) == 0 && times(none, right) == 0) by {
        broadcast use group_to_multiset_ensures;

    }
    if count > 0 && depth < MAX_TIMELINE_DEPTH {
        let last = (count - 1) as nat;
        lemma_entries_counts(
            inodes,
            children,
            entries,
            prefix,
            depth,
            last,
            value,
            id,
            path,
            one,
            other,
        );
        if let Ok(events) = forensic::events_of_entries(
            inodes,
            children,
            entries,
            prefix,
            depth,
            count,
        ) {
            let before = forensic::events_of_entries(
                inodes,
                children,
                entries,
                prefix,
                depth,
                last,
            )->Ok_0;
            let entry = entries[last as int];
            let here = forensic::child_path(prefix, entry.name);
            let own = forensic::own_events(inodes, entry, here);
            if inodes.dom().contains(entry.file_id) {
                lemma_own_count(
                    inodes[entry.file_id],
                    value,
                    entry.file_id,
                    here,
                    id,
                    path,
                    one,
                );
                lemma_own_count(
                    inodes[entry.file_id],
                    value,
                    entry.file_id,
                    here,
                    id,
                    path,
                    other,
                );
            }
            lemma_times_of_both(before, own, left);
            lemma_times_of_both(before, own, right);
            if entry.file_type == DirEntryType::Directory {
                lemma_below_counts(
                    inodes,
                    children,
                    entry.file_id,
                    here,
                    depth + 1,
                    value,
                    id,
                    path,
                    one,
                    other,
                );
                let below = forensic::events_below(
                    inodes,
                    children,
                    entry.file_id,
                    here,
                    depth + 1,
                )->Ok_0;
                lemma_times_of_both(before + own, below, left);
                lemma_times_of_both(before + own, below, right);
            }
        }
    }
}

/// An inode has as many events of one kind as of another at each path, so that none of its
/// times is missing or repeated: as many as it is reached times there.
pub proof fn law_kinds_come_equally_often(
    device: Device,
    catalog: Catalog,
    hashed: bool,
    inode_records: Seq<RecordView>,
    dir_records: Seq<RecordView>,
    at: int,
    id: u64,
    path: Seq<char>,
    one: TimestampKind,
    other: TimestampKind,
)
    requires
        are_records_of(device, catalog, inode_records, dir_records),
        is_record_of(inode_records, at, id),
        forensic::timeline_of(device, catalog, hashed) is Ok,
    ensures
        ({
            let timeline = forensic::timeline_of(device, catalog, hashed)->Ok_0;
            let value = inode_records[at].value;
            times(timeline, stored_event(value, one, id, path)) == times(
                timeline,
                stored_event(value, other, id, path),
            )
        }),
{
    let inodes = forensic::inode_index(inode_records, inode_records.len())->Ok_0;
    let children = forensic::children_index(dir_records, hashed, dir_records.len())->Ok_0;
    lemma_inode_index(inode_records, inode_records.len());
    assert(inode_records.take(inode_records.len() as int) =~= inode_records);
    let value = inode_records[at].value;
    let left = stored_event(value, one, id, path);
    let right = stored_event(value, other, id, path);
    let events = forensic::volume_events(inodes, children)->Ok_0;
    sort::law_stable_sort_permutes(events, forensic::event_order());
    let below = forensic::events_below(inodes, children, 2, Seq::empty(), 0)->Ok_0;
    lemma_below_counts(
        inodes,
        children,
        2,
        Seq::empty(),
        0,
        value,
        id,
        path,
        one,
        other,
    );
    let root = if inodes.dom().contains(2) {
        forensic::events_of(inodes[2], 2, seq!['/'])
    } else {
        Seq::empty()
    };
    if inodes.dom().contains(2) {
        lemma_own_count(inodes[2], value, 2, seq!['/'], id, path, one);
        lemma_own_count(inodes[2], value, 2, seq!['/'], id, path, other);
    } else {
        broadcast use group_to_multiset_ensures;

        assert(times(root, left) == 0 && times(root, right) == 0);
    }
    lemma_times_of_both(root, below, left);
    lemma_times_of_both(root, below, right);
}

proof fn lemma_events_are_given(
    inodes: Map<u64, InodeView>,
    children: Map<u64, Seq<DirEntryView>>,
    records: Seq<RecordView>,
    hashed: bool,
    dir_id: u64,
    prefix: Seq<char>,
    depth: nat,
)
    requires
        lists(children, records, hashed),
        depth <= 255,
        forall|chain: Seq<int>| #[trigger]
            leads_down(records, hashed, dir_id, chain) && entry_in(
                records[chain.last()],
                hashed,
            ).file_type == DirEntryType::Directory ==> chain.len() + depth <= 255,
    ensures
        forensic::events_below(inodes, children, dir_id, prefix, depth) is Ok,
    decreases 256 - depth, 1int, 0nat,
{
    let entries = forensic::children_in(children, dir_id);
    lemma_entries_are_given(
        inodes,
        children,
        records,
        hashed,
        dir_id,
        prefix,
        depth,
        entries.len(),
    );
}

proof fn lemma_entries_are_given(
    inodes: Map<u64, InodeView>,
    children: Map<u64, Seq<DirEntryView>>,
    records: Seq<RecordView>,
    hashed: bool,
    dir_id: u64,
    prefix: Seq<char>,
    depth: nat,
    count: nat,
)
    requires
        lists(children, records, hashed),
        depth <= 255,
        count <= forensic::children_in(children, dir_id).len(),
        forall|chain: Seq<int>| #[trigger]
            leads_down(records, hashed, dir_id, chain) && entry_in(
                records[chain.last()],
                hashed,
            ).file_type == DirEntryType::Directory ==> chain.len() + depth <= 255,
    ensures
        forensic::events_of_entries(
            inodes,
            children,
            forensic::children_in(children, dir_id),
            prefix,
            depth,
            count,
        ) is Ok,
    decreases 256 - depth, 0int, count,
{
    if count > 0 {
        let last = (count - 1) as nat;
        lemma_entries_are_given(
            inodes,
            children,
            records,
            hashed,
            dir_id,
            prefix,
            depth,
            last,
        );
        let entries = forensic::children_in(children, dir_id);
        let entry = entries[last as int];
        if entry.file_type == DirEntryType::Directory {
            assert(entries.contains(entry));
            assert(is_entry_of(records, hashed, dir_id, entry));
            let i = choose|i: int|
                0 <= i < records.len() && (#[trigger] records[i]).key_header.obj_id == dir_id
                    && entry_in(records[i], hashed) == entry;
            let one = seq![i];
            assert(leads_down(records, hashed, dir_id, one));
            assert forall|chain: Seq<int>| #[trigger]
                leads_down(records, hashed, entry.file_id, chain) && entry_in(
                    records[chain.last()],
                    hashed,
                ).file_type == DirEntryType::Directory implies chain.len() + (depth + 1) <= 255 by {
                let longer = one + chain;
                assert(longer.drop_first() =~= chain);
                assert(longer.last() == chain.last());
                assert(leads_down(records, hashed, dir_id, longer));
            }
            lemma_events_are_given(
                inodes,
                children,
                records,
                hashed,
                entry.file_id,
                forensic::child_path(prefix, entry.name),
                depth + 1,
            );
        }
    }
}

proof fn lemma_indexes_are_given(records: Seq<RecordView>, hashed: bool, count: nat)
    requires
        count <= records.len(),
    ensures
        (forall|i: int| 0 <= i < count ==> inode::inode_of((#[trigger] records[i]).value) is Ok)
            ==> forensic::inode_index(records, count) is Ok,
        (forall|i: int|
            0 <= i < count ==> directory::dir_entry_of(#[trigger] records[i], hashed) is Ok)
            ==> forensic::children_index(records, hashed, count) is Ok,
    decreases count,
{
    if count > 0 {
        lemma_indexes_are_given(records, hashed, (count - 1) as nat);
    }
}

/// A timeline is given wherever every inode and every directory record can be read and no
/// directory is nested more than 255 deep below the root.
pub proof fn law_timeline_is_given(
    device: Device,
    catalog: Catalog,
    hashed: bool,
    inode_records: Seq<RecordView>,
    dir_records: Seq<RecordView>,
)
    requires
        are_records_of(device, catalog, inode_records, dir_records),
        forall|i: int|
            0 <= i < inode_records.len() ==> (#[trigger] inode_records[i]).value.len() >= 92,
        forall|i: int|
            0 <= i < dir_records.len() ==> directory::dir_entry_of(
                #[trigger] dir_records[i],
                hashed,
            ) is Ok,
        forall|chain: Seq<int>| #[trigger]
            leads_down(dir_records, hashed, 2, chain) && entry_in(
                dir_records[chain.last()],
                hashed,
            ).file_type == DirEntryType::Directory ==> chain.len() <= 255,
    ensures
        forensic::timeline_of(device, catalog, hashed) is Ok,
{
    lemma_indexes_are_given(inode_records, hashed, inode_records.len());
    lemma_indexes_are_given(dir_records, hashed, dir_records.len());
    let inodes = forensic::inode_index(inode_records, inode_records.len())->Ok_0;
    let children = forensic::children_index(dir_records, hashed, dir_records.len())->Ok_0;
    lemma_children_index(dir_records, hashed, dir_records.len());
    assert(dir_records.take(dir_records.len() as int) =~= dir_records);
    lemma_events_are_given(inodes, children, dir_records, hashed, 2, Seq::empty(), 0);
}

} // verus!
