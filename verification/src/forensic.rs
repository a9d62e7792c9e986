//! Forensic synthesis: file timelines and clone-relationship maps.
//!
//! This module turns the parsed filesystem into the synthesized outputs an
//! analyst consumes: a chronological event timeline built from inode
//! timestamps, and a map of which files share physical extents (clones).

use std::collections::BTreeMap;

use vstd::prelude::*;
use vstd::string::*;

use crate::catalog;
use crate::catalog::{Catalog, CatalogRecord, JObjType, RecordView, Selection};
use crate::clones::ClassifiedExtent;
use crate::directory;
use crate::directory::{DirEntry, DirEntryType, DirEntryView};
use crate::error;
use crate::error::ApfsError;
use crate::index;
use crate::inode;
use crate::inode::{Inode, InodeView, ROOT_DIR_INO_NUM};
use crate::io::{Device, Reader};
use crate::sort;
use crate::sort::Ranked;
use crate::time::ApfsTimestamp;

verus! {

/// Maximum directory depth walked while building a timeline.
pub const MAX_TIMELINE_DEPTH: u32 = 256;

/// Which inode timestamp a timeline event records.
#[derive(Debug, Clone, Copy, PartialEq, Eq, Structural)]
pub enum TimestampKind {
    /// The inode's creation time.
    Created,
    /// The inode's last content-modification time.
    Modified,
    /// The inode's last attribute-change time.
    Changed,
    /// The inode's last access time.
    Accessed,
}

/// One entry in a forensic timeline.
#[derive(Debug, Clone, PartialEq, Eq)]
pub struct TimelineEvent {
    /// When the event occurred.
    pub time: ApfsTimestamp,
    /// Which timestamp the event came from.
    pub kind: TimestampKind,
    /// Object identifier of the inode.
    pub obj_id: u64,
    /// Absolute path of the inode within its volume.
    pub path: String,
}

/// The content of a [`TimelineEvent`].
#[verifier::ext_equal]
pub struct TimelineEventView {
    /// When the event occurred.
    pub time: ApfsTimestamp,
    /// Which timestamp the event came from.
    pub kind: TimestampKind,
    /// Object identifier of the inode.
    pub obj_id: u64,
    /// Absolute path of the inode within its volume.
    pub path: Seq<char>,
}

impl View for TimelineEvent {
    type V = TimelineEventView;

    open spec fn view(&self) -> TimelineEventView {
        TimelineEventView {
            time: self.time,
            kind: self.kind,
            obj_id: self.obj_id,
            path: self.path@,
        }
    }
}

/// The place of an event in a timeline: by time, then by object identifier.
pub open spec fn event_rank(time: ApfsTimestamp, obj_id: u64) -> nat {
    (time.0 * 0x1_0000_0000_0000_0000 + obj_id) as nat
}

/// The place of an event in a timeline.
pub open spec fn event_order() -> spec_fn(TimelineEventView) -> nat {
    |event: TimelineEventView| event_rank(event.time, event.obj_id)
}

impl Ranked for TimelineEvent {
    open spec fn spec_rank(&self) -> nat {
        event_rank(self.time, self.obj_id)
    }

    fn rank(&self) -> (rank: u128) {
        self.time.0 as u128 * 0x1_0000_0000_0000_0000 + self.obj_id as u128
    }
}

/// An event of an object.
pub open spec fn event(
    time: u64,
    kind: TimestampKind,
    obj_id: u64,
    path: Seq<char>,
) -> TimelineEventView {
    TimelineEventView { time: ApfsTimestamp(time), kind, obj_id, path }
}

/// The four timeline events of an inode.
pub open spec fn events_of(inode: InodeView, obj_id: u64, path: Seq<char>) -> Seq<
    TimelineEventView,
> {
    seq![
        event(inode.create_time, TimestampKind::Created, obj_id, path),
        event(inode.mod_time, TimestampKind::Modified, obj_id, path),
        event(inode.change_time, TimestampKind::Changed, obj_id, path),
        event(inode.access_time, TimestampKind::Accessed, obj_id, path),
    ]
}

/// Produces the four timeline events of one inode.
#[must_use]
pub fn inode_events(inode: &Inode, obj_id: u64, path: &str) -> (events: Vec<TimelineEvent>)
    ensures
        error::views(events@) == events_of(inode@, obj_id, path@),
{
    let mut events: Vec<TimelineEvent> = Vec::new();
    events.push(
        TimelineEvent {
            time: inode.created(),
            kind: TimestampKind::Created,
            obj_id,
            path: path.to_owned(),
        },
    );
    events.push(
        TimelineEvent {
            time: inode.modified(),
            kind: TimestampKind::Modified,
            obj_id,
            path: path.to_owned(),
        },
    );
    events.push(
        TimelineEvent {
            time: inode.changed(),
            kind: TimestampKind::Changed,
            obj_id,
            path: path.to_owned(),
        },
    );
    events.push(
        TimelineEvent {
            time: inode.accessed(),
            kind: TimestampKind::Accessed,
            obj_id,
            path: path.to_owned(),
        },
    );
    assert(error::views(events@) =~= events_of(inode@, obj_id, path@));
    events
}

/// The inodes in the first `count` records, by object identifier; a later record
/// of an object replaces an earlier one.
pub open spec fn inode_index(records: Seq<RecordView>, count: nat) -> Result<
    Map<u64, InodeView>,
    ApfsError,
>
    decreases count,
{
    if count == 0 {
        Ok(Map::empty())
    } else {
        match inode_index(records, (count - 1) as nat) {
            Err(error) => Err(error),
            Ok(before) => match inode::inode_of(records[count - 1].value) {
                Err(error) => Err(error),
                Ok(inode) => Ok(before.insert(records[count - 1].key_header.obj_id, inode)),
            },
        }
    }
}

/// The entries of a directory in an index; a directory without any has none.
pub open spec fn children_in(
    children: Map<u64, Seq<DirEntryView>>,
    dir_id: u64,
) -> Seq<DirEntryView> {
    if children.dom().contains(dir_id) {
        children[dir_id]
    } else {
        Seq::empty()
    }
}

/// The directory entries in the first `count` records, by directory, in the
/// order of the records.
pub open spec fn children_index(records: Seq<RecordView>, hashed: bool, count: nat) -> Result<
    Map<u64, Seq<DirEntryView>>,
    ApfsError,
>
    decreases count,
{
    if count == 0 {
        Ok(Map::empty())
    } else {
        match children_index(records, hashed, (count - 1) as nat) {
            Err(error) => Err(error),
            Ok(before) => match directory::dir_entry_of(records[count - 1], hashed) {
                Err(error) => Err(error),
                Ok(entry) => {
                    let dir_id = records[count - 1].key_header.obj_id;
                    Ok(before.insert(dir_id, children_in(before, dir_id).push(entry)))
                },
            },
        }
    }
}

/// The path of an entry of a directory.
pub open spec fn child_path(prefix: Seq<char>, name: Seq<char>) -> Seq<char> {
    prefix + seq!['/'] + name
}

/// The events of the object that an entry names, if it has an inode.
pub open spec fn own_events(
    inodes: Map<u64, InodeView>,
    entry: DirEntryView,
    path: Seq<char>,
) -> Seq<TimelineEventView> {
    if inodes.dom().contains(entry.file_id) {
        events_of(inodes[entry.file_id], entry.file_id, path)
    } else {
        Seq::empty()
    }
}

/// The events of everything below a directory.
pub open spec fn events_below(
    inodes: Map<u64, InodeView>,
    children: Map<u64, Seq<DirEntryView>>,
    dir_id: u64,
    prefix: Seq<char>,
    depth: nat,
) -> Result<Seq<TimelineEventView>, ApfsError>
    decreases MAX_TIMELINE_DEPTH - depth, 1int, 0nat,
{
    if depth >= MAX_TIMELINE_DEPTH {
        error::malformed(
            "directory tree",
            "directory nesting exceeds the timeline depth limit",
        )
    } else {
        let entries = children_in(children, dir_id);
        events_of_entries(inodes, children, entries, prefix, depth, entries.len())
    }
}

/// The events of the first `count` entries of a directory, and of everything
/// below those that are directories.
pub open spec fn events_of_entries(
    inodes: Map<u64, InodeView>,
    children: Map<u64, Seq<DirEntryView>>,
    entries: Seq<DirEntryView>,
    prefix: Seq<char>,
    depth: nat,
    count: nat,
) -> Result<Seq<TimelineEventView>, ApfsError>
    decreases MAX_TIMELINE_DEPTH - depth, 0int, count,
{
    if count == 0 || depth >= MAX_TIMELINE_DEPTH {
        Ok(Seq::empty())
    } else {
        match events_of_entries(inodes, children, entries, prefix, depth, (count - 1) as nat) {
            Err(error) => Err(error),
            Ok(before) => {
                let entry = entries[count - 1];
                let path = child_path(prefix, entry.name);
                let with_own = before + own_events(inodes, entry, path);
                if entry.file_type != DirEntryType::Directory {
                    Ok(with_own)
                } else {
                    match events_below(inodes, children, entry.file_id, path, depth + 1) {
                        Err(error) => Err(error),
                        Ok(below) => Ok(with_own + below),
                    }
                }
            },
        }
    }
}

/// The events of the root directory and of everything below it.
pub open spec fn volume_events(
    inodes: Map<u64, InodeView>,
    children: Map<u64, Seq<DirEntryView>>,
) -> Result<Seq<TimelineEventView>, ApfsError> {
    let root = if inodes.dom().contains(ROOT_DIR_INO_NUM) {
        events_of(inodes[ROOT_DIR_INO_NUM], ROOT_DIR_INO_NUM, seq!['/'])
    } else {
        Seq::empty()
    };
    match events_below(inodes, children, ROOT_DIR_INO_NUM, Seq::empty(), 0) {
        Err(error) => Err(error),
        Ok(below) => Ok(root + below),
    }
}

/// The timeline of a catalog: the events of everything reachable from the root,
/// sorted by time and then by object identifier.
pub open spec fn timeline_of(device: Device, catalog: Catalog, hashed: bool) -> Result<
    Seq<TimelineEventView>,
    ApfsError,
> {
    match catalog::catalog_records(device, catalog, Selection::Kind(JObjType::Inode)) {
        Err(error) => Err(error),
        Ok(inode_records) => match inode_index(inode_records, inode_records.len()) {
            Err(error) => Err(error),
            Ok(inodes) => match catalog::catalog_records(
                device,
                catalog,
                Selection::Kind(JObjType::DirRec),
            ) {
                Err(error) => Err(error),
                Ok(dir_records) => match children_index(dir_records, hashed, dir_records.len()) {
                    Err(error) => Err(error),
                    Ok(children) => match volume_events(inodes, children) {
                        Err(error) => Err(error),
                        Ok(events) => Ok(sort::stable_sort(events, event_order())),
                    },
                },
            },
        },
    }
}

/// The events of a timeline are in order of time, and those of one time in order
/// of object identifier; they are the events that the walk gives.
pub proof fn law_timeline_is_sorted(events: Seq<TimelineEventView>, i: int, j: int)
    requires
        0 <= i <= j < sort::stable_sort(events, event_order()).len(),
    ensures
        ({
            let timeline = sort::stable_sort(events, event_order());
            &&& timeline[i].time.0 <= timeline[j].time.0
            &&& timeline[i].time == timeline[j].time ==> timeline[i].obj_id <= timeline[j].obj_id
            &&& timeline.to_multiset() == events.to_multiset()
        }),
{
    let timeline = sort::stable_sort(events, event_order());
    sort::law_stable_sort_sorts(events, event_order());
    sort::law_stable_sort_permutes(events, event_order());
    assert(event_order()(timeline[i]) <= event_order()(timeline[j]));
}

proof fn lemma_inode_index_error(
    records: Seq<RecordView>,
    some: nat,
    all: nat,
    error: ApfsError,
)
    requires
        some <= all,
        inode_index(records, some) == Err::<Map<u64, InodeView>, ApfsError>(error),
    ensures
        inode_index(records, all) == Err::<Map<u64, InodeView>, ApfsError>(error),
    decreases all,
{
    if some < all {
        lemma_inode_index_error(records, some, (all - 1) as nat, error);
    }
}

proof fn lemma_children_index_error(
    records: Seq<RecordView>,
    hashed: bool,
    some: nat,
    all: nat,
    error: ApfsError,
)
    requires
        some <= all,
        children_index(records, hashed, some) == Err::<Map<u64, Seq<DirEntryView>>, ApfsError>(
            error,
        ),
    ensures
        children_index(records, hashed, all) == Err::<Map<u64, Seq<DirEntryView>>, ApfsError>(
            error,
        ),
    decreases all,
{
    if some < all {
        lemma_children_index_error(records, hashed, some, (all - 1) as nat, error);
    }
}

proof fn lemma_entries_error(
    inodes: Map<u64, InodeView>,
    children: Map<u64, Seq<DirEntryView>>,
    entries: Seq<DirEntryView>,
    prefix: Seq<char>,
    depth: nat,
    some: nat,
    all: nat,
    error: ApfsError,
)
    requires
        some <= all,
        events_of_entries(inodes, children, entries, prefix, depth, some) == Err::<
            Seq<TimelineEventView>,
            ApfsError,
        >(error),
    ensures
        events_of_entries(inodes, children, entries, prefix, depth, all) == Err::<
            Seq<TimelineEventView>,
            ApfsError,
        >(error),
    decreases all,
{
    if some < all {
        lemma_entries_error(
            inodes,
            children,
            entries,
            prefix,
            depth,
            some,
            (all - 1) as nat,
            error,
        );
    }
}

/// The inodes of an index, seen through their views.
pub open spec fn inode_views(inodes: Map<u64, Inode>) -> Map<u64, InodeView> {
    inodes.map_values(|inode: Inode| inode@)
}

/// The entries of an index, seen through their views.
pub open spec fn children_views(children: Map<u64, Vec<DirEntry>>) -> Map<
    u64,
    Seq<DirEntryView>,
> {
    children.map_values(|entries: Vec<DirEntry>| error::views(entries@))
}

/// Indexes the inodes in records.
fn index_inodes(records: &Vec<CatalogRecord>) -> (inodes: Result<BTreeMap<u64, Inode>, ApfsError>)
    ensures
        match inodes {
            Ok(map) => inode_index(error::views(records@), records@.len()) == Ok::<
                Map<u64, InodeView>,
                ApfsError,
            >(inode_views(map@)),
            Err(error) => inode_index(error::views(records@), records@.len()) == Err::<
                Map<u64, InodeView>,
                ApfsError,
            >(error),
        },
{
    let ghost all = error::views(records@);
    let mut inodes: BTreeMap<u64, Inode> = BTreeMap::new();
    let mut i: usize = 0;
    proof {
        assert(inode_views(inodes@) =~= Map::<u64, InodeView>::empty());
    }
    while i < records.len()
        invariant
            i <= records@.len(),
            all == error::views(records@),
            inode_index(all, i as nat) == Ok::<Map<u64, InodeView>, ApfsError>(
                inode_views(inodes@),
            ),
        decreases records@.len() - i,
    {
        proof {
            assert(all[i as int] == records@[i as int]@);
        }
        match Inode::parse(records[i].value.as_slice()) {
            Ok(inode) => {
                let obj_id: u64 = records[i].key_header.obj_id;
                proof {
                    assert(inode_views(inodes@.insert(obj_id, inode)) =~= inode_views(
                        inodes@,
                    ).insert(obj_id, inode@));
                }
                index::put(&mut inodes, obj_id, inode);
            },
            Err(error) => {
                proof {
                    lemma_inode_index_error(all, (i + 1) as nat, all.len(), error);
                }
                return Err(error);
            },
        }
        i += 1;
    }
    Ok(inodes)
}

/// Adds an entry to those of a directory.
fn add_child(children: &mut BTreeMap<u64, Vec<DirEntry>>, dir_id: u64, entry: DirEntry)
    ensures
        children_views(final(children)@) == children_views(old(children)@).insert(
            dir_id,
            children_in(children_views(old(children)@), dir_id).push(entry@),
        ),
{
    let ghost before = children@;
    let mut entries: Vec<DirEntry> = match index::take(children, dir_id) {
        Some(entries) => entries,
        None => Vec::new(),
    };
    proof {
        assert(error::views(entries@) =~= children_in(children_views(before), dir_id));
        assert(error::views(entries@.push(entry)) =~= error::views(entries@).push(entry@));
    }
    entries.push(entry);
    index::put(children, dir_id, entries);
    proof {
        assert(children_views(children@) =~= children_views(before).insert(
            dir_id,
            children_in(children_views(before), dir_id).push(entry@),
        ));
    }
}

/// Indexes the directory entries in records.
fn index_children(records: &Vec<CatalogRecord>, hashed: bool) -> (children: Result<
    BTreeMap<u64, Vec<DirEntry>>,
    ApfsError,
>)
    ensures
        match children {
            Ok(map) => children_index(error::views(records@), hashed, records@.len()) == Ok::<
                Map<u64, Seq<DirEntryView>>,
                ApfsError,
            >(children_views(map@)),
            Err(error) => children_index(error::views(records@), hashed, records@.len()) == Err::<
                Map<u64, Seq<DirEntryView>>,
                ApfsError,
            >(error),
        },
{
    let ghost all = error::views(records@);
    let mut children: BTreeMap<u64, Vec<DirEntry>> = BTreeMap::new();
    let mut i: usize = 0;
    proof {
        assert(children_views(children@) =~= Map::<u64, Seq<DirEntryView>>::empty());
    }
    while i < records.len()
        invariant
            i <= records@.len(),
            all == error::views(records@),
            children_index(all, hashed, i as nat) == Ok::<Map<u64, Seq<DirEntryView>>, ApfsError>(
                children_views(children@),
            ),
        decreases records@.len() - i,
    {
        proof {
            assert(all[i as int] == records@[i as int]@);
        }
        match DirEntry::from_record(&records[i], hashed) {
            Ok(entry) => {
                add_child(&mut children, records[i].key_header.obj_id, entry);
            },
            Err(error) => {
                proof {
                    lemma_children_index_error(all, hashed, (i + 1) as nat, all.len(), error);
                }
                return Err(error);
            },
        }
        i += 1;
    }
    Ok(children)
}

/// Adds the events of one object, if it has an inode.
fn push_own(
    inodes: &BTreeMap<u64, Inode>,
    obj_id: u64,
    path: &str,
    events: &mut Vec<TimelineEvent>,
)
    ensures
        error::views(final(events)@) == error::views(old(events)@) + if inodes@.dom().contains(
            obj_id,
        ) {
            events_of(inodes@[obj_id]@, obj_id, path@)
        } else {
            Seq::empty()
        },
{
    let ghost before = events@;
    match index::get(inodes, obj_id) {
        Some(inode) => {
            let mut own: Vec<TimelineEvent> = inode_events(inode, obj_id, path);
            let ghost added = own@;
            events.append(&mut own);
            assert(error::views(events@) =~= error::views(before) + error::views(added));
        },
        None => {
            assert(error::views(events@) =~= error::views(before) + Seq::empty());
        },
    }
}

/// Recursively collects timeline events from a directory and its children,
/// using the in-memory inode and directory-entry indexes.
fn walk_timeline(
    inodes: &BTreeMap<u64, Inode>,
    children: &BTreeMap<u64, Vec<DirEntry>>,
    dir_id: u64,
    prefix: &str,
    depth: u32,
    events: &mut Vec<TimelineEvent>,
) -> (done: Result<(), ApfsError>)
    requires
        depth <= MAX_TIMELINE_DEPTH,
    ensures
        match events_below(
            inode_views(inodes@),
            children_views(children@),
            dir_id,
            prefix@,
            depth as nat,
        ) {
            Ok(below) => done is Ok && error::views(final(events)@) == error::views(old(events)@)
                + below,
            Err(error) => done matches Err(reported) && reported == error,
        },
    decreases MAX_TIMELINE_DEPTH - depth,
{
    let ghost inode_map = inode_views(inodes@);
    let ghost child_map = children_views(children@);
    let ghost start = error::views(events@);
    if depth >= MAX_TIMELINE_DEPTH {
        return Err(
            ApfsError::Malformed {
                structure: "directory tree",
                reason: "directory nesting exceeds the timeline depth limit",
            },
        );
    }
    let entries: &Vec<DirEntry> = match index::get(children, dir_id) {
        Some(entries) => entries,
        None => {
            assert(start + Seq::empty() =~= start);
            return Ok(());
        },
    };
    let ghost all = error::views(entries@);
    let mut i: usize = 0;
    proof {
        assert(start + Seq::empty() =~= start);
    }
    while i < entries.len()
        invariant
            i <= entries@.len(),
            depth < MAX_TIMELINE_DEPTH,
            inode_map == inode_views(inodes@),
            child_map == children_views(children@),
            all == error::views(entries@),
            all == children_in(child_map, dir_id),
            start == error::views(old(events)@),
            events_of_entries(
                inode_map,
                child_map,
                all,
                prefix@,
                depth as nat,
                i as nat,
            ) matches Ok(done) && error::views(events@) == start + done,
        decreases entries@.len() - i,
    {
        let entry: &DirEntry = &entries[i];
        let ghost before = error::views(events@);
        let ghost done = events_of_entries(
            inode_map,
            child_map,
            all,
            prefix@,
            depth as nat,
            i as nat,
        )->Ok_0;
        let mut path: String = prefix.to_owned();
        path.append("/");
        path.append(entry.name.as_str());
        proof {
            reveal_strlit("/");
            assert("/"@ =~= seq!['/']);
            assert(all[i as int] == entry@);
            assert(path@ =~= child_path(prefix@, entry@.name));
        }
        push_own(inodes, entry.file_id, path.as_str(), events);
        let ghost own = own_events(inode_map, entry@, path@);
        proof {
            assert(error::views(events@) =~= start + (done + own));
        }
        if entry.file_type == DirEntryType::Directory {
            match walk_timeline(
                inodes,
                children,
                entry.file_id,
                path.as_str(),
                depth + 1,
                events,
            ) {
                Ok(()) => {
                    proof {
                        let below = events_below(
                            inode_map,
                            child_map,
                            entry@.file_id,
                            path@,
                            (depth + 1) as nat,
                        )->Ok_0;
                        assert(start + (done + own) + below =~= start + (done + own + below));
                    }
                },
                Err(error) => {
                    proof {
                        lemma_entries_error(
                            inode_map,
                            child_map,
                            all,
                            prefix@,
                            depth as nat,
                            (i + 1) as nat,
                            all.len(),
                            error,
                        );
                    }
                    return Err(error);
                },
            }
        }
        i += 1;
    }
    Ok(())
}

/// Builds a chronological timeline of every inode reachable from a volume's root
/// directory.
///
/// `hashed` selects the directory-entry key form (see
/// [`Directory::new`](crate::directory::Directory::new)). Events are returned
/// sorted by time, then by object id.
///
/// The catalog is scanned exactly twice, once for inodes and once for directory
/// records, and the directory tree is then walked entirely in memory, so
/// timeline synthesis stays linear in the number of records.
pub fn build_timeline<T: Reader>(reader: &mut T, catalog: &Catalog, hashed: bool) -> (timeline:
    Result<Vec<TimelineEvent>, ApfsError>)
    ensures
        final(reader).device() == old(reader).device(),
        error::viewed_all(timeline) == timeline_of(old(reader).device(), *catalog, hashed),
{
    let inode_records: Vec<CatalogRecord> = match catalog.records_of_kind(
        reader,
        JObjType::Inode,
    ) {
        Ok(records) => records,
        Err(error) => return Err(error),
    };
    let inodes: BTreeMap<u64, Inode> = match index_inodes(&inode_records) {
        Ok(inodes) => inodes,
        Err(error) => return Err(error),
    };
    let dir_records: Vec<CatalogRecord> = match catalog.records_of_kind(
        reader,
        JObjType::DirRec,
    ) {
        Ok(records) => records,
        Err(error) => return Err(error),
    };
    let children: BTreeMap<u64, Vec<DirEntry>> = match index_children(&dir_records, hashed) {
        Ok(children) => children,
        Err(error) => return Err(error),
    };
    let mut events: Vec<TimelineEvent> = Vec::new();
    proof {
        reveal_strlit("/");
        reveal_strlit("");
        assert("/"@ =~= seq!['/']);
        assert(""@ =~= Seq::<char>::empty());
        assert(error::views(events@) =~= Seq::<TimelineEventView>::empty());
    }
    push_own(&inodes, ROOT_DIR_INO_NUM, "/", &mut events);
    match walk_timeline(&inodes, &children, ROOT_DIR_INO_NUM, "", 0, &mut events) {
        Ok(()) => {},
        Err(error) => return Err(error),
    }
    let ghost walked = events@;
    proof {
        assert(Ok::<Seq<TimelineEventView>, ApfsError>(error::views(walked)) == volume_events(
            inode_views(inodes@),
            children_views(children@),
        ));
        sort::lemma_stable_sort_map(
            walked,
            sort::rank_of::<TimelineEvent>(),
            |item: TimelineEvent| item@,
            event_order(),
        );
    }
    sort::sort_by_rank(&mut events);
    Ok(events)
}

/// A set of files that share a physical extent: copy-on-write clones.
#[derive(Debug, Clone, PartialEq, Eq)]
pub struct CloneSet {
    /// The physical block address the files share.
    pub physical_block: u64,
    /// Object identifiers of the files sharing the extent, in ascending order.
    pub members: Vec<u64>,
}

/// The content of a [`CloneSet`].
#[verifier::ext_equal]
pub struct CloneSetView {
    /// The physical block address the files share.
    pub physical_block: u64,
    /// Object identifiers of the files sharing the extent.
    pub members: Seq<u64>,
}

impl View for CloneSet {
    type V = CloneSetView;

    open spec fn view(&self) -> CloneSetView {
        CloneSetView { physical_block: self.physical_block, members: self.members@ }
    }
}

/// Whether file number `file` has, as its extent number `extent`, a shared
/// extent at `block`.
pub open spec fn shared_at(
    files: Seq<(u64, Vec<ClassifiedExtent>)>,
    file: int,
    extent: int,
    block: u64,
) -> bool {
    let found = files[file].1@[extent];
    &&& 0 <= file < files.len()
    &&& 0 <= extent < files[file].1@.len()
    &&& found.refcnt matches Some(count) && count > 1
    &&& found.extent.phys_block_num == block
}

/// The object identifiers of the files that have a shared extent at `block`.
pub open spec fn sharers(files: Seq<(u64, Vec<ClassifiedExtent>)>, block: u64) -> Set<u64> {
    Set::new(
        |obj_id: u64|
            exists|file: int, extent: int| #[trigger]
                shared_at(files, file, extent, block) && files[file].0 == obj_id,
    )
}

/// Whether two files have a shared extent at `block`.
pub open spec fn is_cloned(files: Seq<(u64, Vec<ClassifiedExtent>)>, block: u64) -> bool {
    exists|left: u64, right: u64|
        left != right && #[trigger] sharers(files, block).contains(left)
            && #[trigger] sharers(files, block).contains(right)
}

/// The clone set at `block`.
pub open spec fn clone_set_at(
    files: Seq<(u64, Vec<ClassifiedExtent>)>,
    block: u64,
) -> CloneSetView {
    CloneSetView {
        physical_block: block,
        members: index::ascending(sharers(files, block)),
    }
}

/// The clone sets of files: one for each block at which two files or more have a
/// shared extent, in order of the blocks.
pub open spec fn clone_sets(files: Seq<(u64, Vec<ClassifiedExtent>)>) -> Seq<CloneSetView> {
    index::ascending(Set::new(|block: u64| is_cloned(files, block))).map_values(
        |block: u64| clone_set_at(files, block),
    )
}

/// Each clone set has two members or more, in ascending order.
pub proof fn law_clone_sets_are_shared(files: Seq<(u64, Vec<ClassifiedExtent>)>, i: int)
    requires
        0 <= i < clone_sets(files).len(),
    ensures
        clone_sets(files)[i].members.len() >= 2,
        index::is_ascending(clone_sets(files)[i].members),
{
    let cloned = Set::new(|block: u64| is_cloned(files, block));
    let block = index::ascending(cloned)[i];
    index::law_ascending_lists_the_set(cloned);
    assert(index::ascending(cloned).contains(block));
    index::law_ascending_lists_the_set(sharers(files, block));
    let members = index::ascending(sharers(files, block));
    let (left, right) = choose|left: u64, right: u64|
        left != right && #[trigger] sharers(files, block).contains(left)
            && #[trigger] sharers(files, block).contains(right);
    assert(members.contains(left) && members.contains(right));
    let a = members.index_of(left);
    let b = members.index_of(right);
    assert(a != b);
}

/// Whether a shared extent at `block` of file `obj_id` has been seen: among
/// those of the first `done` files, or the first `extents` of the next one.
spec fn seen(
    files: Seq<(u64, Vec<ClassifiedExtent>)>,
    done: int,
    extents: int,
    block: u64,
    obj_id: u64,
) -> bool {
    exists|file: int, extent: int| #[trigger]
        shared_at(files, file, extent, block) && files[file].0 == obj_id && (file < done || (file
            == done && extent < extents))
}

/// Whether `groups` holds, without repetition, the files seen at each block.
spec fn groups_seen(
    groups: Map<u64, Vec<u64>>,
    files: Seq<(u64, Vec<ClassifiedExtent>)>,
    done: int,
    extents: int,
) -> bool {
    forall|block: u64|
        {
            &&& #[trigger] groups.dom().contains(block) <==> (exists|obj_id: u64|
                seen(files, done, extents, block, obj_id))
            &&& groups.dom().contains(block) ==> groups[block]@.no_duplicates() && forall|
                obj_id: u64,
            | #[trigger]
                groups[block]@.contains(obj_id) <==> seen(files, done, extents, block, obj_id)
        }
}

/// Whether a list holds an identifier.
fn holds_id(list: &Vec<u64>, id: u64) -> (found: bool)
    ensures
        found == list@.contains(id),
{
    let mut i: usize = 0;
    while i < list.len()
        invariant
            i <= list@.len(),
            forall|k: int| 0 <= k < i ==> list@[k] != id,
        decreases list@.len() - i,
    {
        if list[i] == id {
            assert(list@[i as int] == id);
            return true;
        }
        i += 1;
    }
    false
}

/// Adds a file to those seen at a block.
fn add_member(groups: &mut BTreeMap<u64, Vec<u64>>, block: u64, obj_id: u64)
    requires
        old(groups)@.dom().contains(block) ==> old(groups)@[block]@.no_duplicates(),
    ensures
        final(groups)@.dom() == old(groups)@.dom().insert(block),
        final(groups)@[block]@.no_duplicates(),
        forall|other: u64| #[trigger]
            final(groups)@[block]@.contains(other) <==> other == obj_id || (old(groups)@.dom().contains(block)
                && old(groups)@[block]@.contains(other)),
        forall|other: u64|
            other != block && old(groups)@.dom().contains(other) ==> #[trigger] final(groups)@[other]
                == old(groups)@[other],
{
    let ghost before = groups@;
    let mut members: Vec<u64> = match index::take(groups, block) {
        Some(members) => members,
        None => Vec::new(),
    };
    let ghost start = members@;
    if !holds_id(&members, obj_id) {
        members.push(obj_id);
        proof {
            assert forall|other: u64| #[trigger] members@.contains(other) <==> other == obj_id
                || start.contains(other) by {
                if start.contains(other) {
                    let i = start.index_of(other);
                    assert(members@[i] == other);
                }
                if other == obj_id {
                    assert(members@[start.len() as int] == other);
                }
            }
        }
    }
    index::put(groups, block, members);
    assert(groups@.dom() =~= before.dom().insert(block));
}

proof fn lemma_seen_step(
    files: Seq<(u64, Vec<ClassifiedExtent>)>,
    done: int,
    extents: int,
    block: u64,
    obj_id: u64,
)
    requires
        0 <= done < files.len(),
        0 <= extents < files[done].1@.len(),
    ensures
        seen(files, done, extents + 1, block, obj_id) <==> seen(
            files,
            done,
            extents,
            block,
            obj_id,
        ) || (shared_at(files, done, extents, block) && files[done].0 == obj_id),
{
    if seen(files, done, extents + 1, block, obj_id) {
        let (file, extent) = choose|file: int, extent: int| #[trigger]
            shared_at(files, file, extent, block) && files[file].0 == obj_id && (file < done || (
            file == done && extent < extents + 1));
        if !(file == done && extent == extents) {
            assert(shared_at(files, file, extent, block));
        }
    }
    if seen(files, done, extents, block, obj_id) {
        let (file, extent) = choose|file: int, extent: int| #[trigger]
            shared_at(files, file, extent, block) && files[file].0 == obj_id && (file < done || (
            file == done && extent < extents));
        assert(shared_at(files, file, extent, block));
    }
}

proof fn lemma_seen_file(
    files: Seq<(u64, Vec<ClassifiedExtent>)>,
    done: int,
    block: u64,
    obj_id: u64,
)
    requires
        0 <= done < files.len(),
    ensures
        seen(files, done, files[done].1@.len() as int, block, obj_id) <==> seen(
            files,
            done + 1,
            0,
            block,
            obj_id,
        ),
{
    let len = files[done].1@.len() as int;
    if seen(files, done, len, block, obj_id) {
        let (file, extent) = choose|file: int, extent: int| #[trigger]
            shared_at(files, file, extent, block) && files[file].0 == obj_id && (file < done || (
            file == done && extent < len));
        assert(shared_at(files, file, extent, block));
    }
    if seen(files, done + 1, 0, block, obj_id) {
        let (file, extent) = choose|file: int, extent: int| #[trigger]
            shared_at(files, file, extent, block) && files[file].0 == obj_id && (file < done + 1
                || (file == done + 1 && extent < 0));
        assert(shared_at(files, file, extent, block));
    }
}

/// Adds the shared extents of one file to the groups.
fn add_file(
    groups: &mut BTreeMap<u64, Vec<u64>>,
    files: &[(u64, Vec<ClassifiedExtent>)],
    done: usize,
)
    requires
        done < files@.len(),
        groups_seen(old(groups)@, files@, done as int, 0),
    ensures
        groups_seen(final(groups)@, files@, done + 1, 0),
{
    let obj_id: u64 = files[done].0;
    let extents: &Vec<ClassifiedExtent> = &files[done].1;
    let mut i: usize = 0;
    while i < extents.len()
        invariant
            i <= extents@.len(),
            done < files@.len(),
            obj_id == files@[done as int].0,
            extents@ == files@[done as int].1@,
            groups_seen(groups@, files@, done as int, i as int),
        decreases extents@.len() - i,
    {
        let ghost before = groups@;
        let extent: ClassifiedExtent = extents[i];
        let block: u64 = extent.extent.phys_block_num;
        let shared: bool = extent.is_shared();
        if shared {
            assert(before.dom().contains(block) ==> before[block]@.no_duplicates());
            add_member(groups, block, obj_id);
        }
        proof {
            lemma_groups_step(
                before,
                groups@,
                files@,
                done as int,
                i as int,
                block,
                obj_id,
                shared,
            );
        }
        i += 1;
    }
    proof {
        let next = done + 1;
        assert forall|block: u64|
            {
                &&& #[trigger] groups@.dom().contains(block) <==> (exists|id: u64|
                    seen(files@, next, 0, block, id))
                &&& groups@.dom().contains(block) ==> groups@[block]@.no_duplicates() && forall|
                    id: u64,
                | #[trigger]
                    groups@[block]@.contains(id) <==> seen(files@, next, 0, block, id)
            } by {
            assert forall|id: u64|
                #![trigger seen(files@, next, 0, block, id)]
                #![trigger seen(files@, done as int, i as int, block, id)]
                seen(files@, done as int, i as int, block, id) <==> seen(
                    files@,
                    next,
                    0,
                    block,
                    id,
                ) by {
                lemma_seen_file(files@, done as int, block, id);
            }
        }
    }
}

proof fn lemma_groups_step(
    before: Map<u64, Vec<u64>>,
    after: Map<u64, Vec<u64>>,
    files: Seq<(u64, Vec<ClassifiedExtent>)>,
    done: int,
    extent: int,
    block: u64,
    obj_id: u64,
    shared: bool,
)
    requires
        0 <= done < files.len(),
        0 <= extent < files[done].1@.len(),
        obj_id == files[done].0,
        shared == shared_at(files, done, extent, block),
        block == files[done].1@[extent].extent.phys_block_num,
        groups_seen(before, files, done, extent),
        !shared ==> after == before,
        shared ==> {
            &&& after.dom() == before.dom().insert(block)
            &&& after[block]@.no_duplicates()
            &&& forall|other: u64| #[trigger]
                after[block]@.contains(other) <==> other == obj_id || (before.dom().contains(block)
                    && before[block]@.contains(other))
            &&& forall|other: u64|
                other != block && before.dom().contains(other) ==> #[trigger] after[other]
                    == before[other]
        },
    ensures
        groups_seen(after, files, done, extent + 1),
{
    let next = extent + 1;
    assert forall|other: u64|
        {
            &&& #[trigger] after.dom().contains(other) <==> (exists|id: u64|
                seen(files, done, next, other, id))
            &&& after.dom().contains(other) ==> after[other]@.no_duplicates() && forall|id: u64|
             #[trigger]
                after[other]@.contains(id) <==> seen(files, done, next, other, id)
        } by {
        assert(before.dom().contains(other) <==> (exists|id: u64|
            seen(files, done, extent, other, id)));
        assert forall|id: u64|
            #![trigger seen(files, done, next, other, id)]
            #![trigger seen(files, done, extent, other, id)]
            seen(files, done, next, other, id) <==> seen(files, done, extent, other, id) || (shared && other == block && id == obj_id) by {
            lemma_seen_step(files, done, extent, other, id);
        }
        if shared && other == block {
            assert(seen(files, done, next, other, obj_id));
            if !before.dom().contains(block) {
                assert forall|id: u64| !seen(files, done, extent, block, id) by {}
            }
        } else {
            if before.dom().contains(other) {
                let id = choose|id: u64| seen(files, done, extent, other, id);
                assert(seen(files, done, next, other, id));
            }
            if exists|id: u64| seen(files, done, next, other, id) {
                let id = choose|id: u64| seen(files, done, next, other, id);
                assert(seen(files, done, extent, other, id));
            }
        }
    }
}

proof fn lemma_sorted_members(sorted: Seq<u64>, members: Seq<u64>)
    requires
        members.no_duplicates(),
        sorted == sort::stable_sort(members, sort::rank_of::<u64>()),
    ensures
        index::is_ascending(sorted),
        sorted.len() == members.len(),
        forall|id: u64| #[trigger] sorted.contains(id) <==> members.contains(id),
{
    let rank = sort::rank_of::<u64>();
    sort::law_stable_sort_sorts(members, rank);
    sort::law_stable_sort_permutes(members, rank);
    members.lemma_multiset_has_no_duplicates();
    sorted.to_multiset_ensures();
    members.to_multiset_ensures();
    assert forall|i: int, j: int| 0 <= i < j < sorted.len() implies #[trigger] sorted[i]
        < #[trigger] sorted[j] by {
        assert(rank(sorted[i]) <= rank(sorted[j]));
        if sorted[i] == sorted[j] {
            sorted.lemma_multiset_has_no_duplicates_conv();
        }
    }
    assert forall|id: u64| #[trigger] sorted.contains(id) <==> members.contains(id) by {
        if members.contains(id) {
            sort::lemma_same_multiset_contains(sorted, members, id);
        }
        if sorted.contains(id) {
            sort::lemma_same_multiset_contains(members, sorted, id);
        }
    }
}

/// Builds a clone-relationship map from per-file classified extents.
///
/// Each input pair is a file's object id and the classification of its extents
/// (from [`classify_extents`](crate::clones::classify_extents)). Files that
/// share a physical extent with a reference count above one are grouped into a
/// [`CloneSet`].
#[must_use]
pub fn build_clone_map(files: &[(u64, Vec<ClassifiedExtent>)]) -> (sets: Vec<CloneSet>)
    ensures
        error::views(sets@) == clone_sets(files@),
{
    let mut groups: BTreeMap<u64, Vec<u64>> = BTreeMap::new();
    let mut done: usize = 0;
    proof {
        assert forall|block: u64, id: u64| !(#[trigger] seen(files@, 0, 0, block, id)) by {}
    }
    while done < files.len()
        invariant
            done <= files@.len(),
            groups_seen(groups@, files@, done as int, 0),
        decreases files@.len() - done,
    {
        add_file(&mut groups, files, done);
        done += 1;
    }
    proof {
        assert forall|block: u64, id: u64|
            seen(files@, done as int, 0, block, id) <==> #[trigger] sharers(files@, block).contains(
                id,
            ) by {
            if sharers(files@, block).contains(id) {
                let (file, extent) = choose|file: int, extent: int| #[trigger]
                    shared_at(files@, file, extent, block) && files@[file].0 == id;
                assert(shared_at(files@, file, extent, block));
            }
        }
    }
    collect_sets(&groups, Ghost(files@))
}

/// Turns the groups of two members or more into clone sets, in order of the
/// blocks.
fn collect_sets(
    groups: &BTreeMap<u64, Vec<u64>>,
    Ghost(files): Ghost<Seq<(u64, Vec<ClassifiedExtent>)>>,
) -> (sets: Vec<CloneSet>)
    requires
        groups_seen(groups@, files, files.len() as int, 0),
        forall|block: u64, id: u64|
            seen(files, files.len() as int, 0, block, id) <==> #[trigger] sharers(
                files,
                block,
            ).contains(id),
    ensures
        error::views(sets@) == clone_sets(files),
{
    let blocks: Vec<u64> = index::ids(groups);
    let ghost dom = groups@.dom();
    let ghost cloned = Set::new(|block: u64| is_cloned(files, block));
    let ghost mut kept: Seq<u64> = Seq::empty();
    let mut sets: Vec<CloneSet> = Vec::new();
    let mut i: usize = 0;
    proof {
        index::law_ascending_lists_the_set(dom);
        assert(error::views(sets@) =~= kept.map_values(|block: u64| clone_set_at(files, block)));
    }
    while i < blocks.len()
        invariant
            i <= blocks@.len(),
            dom == groups@.dom(),
            blocks@ == index::ascending(dom),
            index::is_ascending(blocks@),
            forall|id: u64| #[trigger] blocks@.contains(id) <==> dom.contains(id),
            cloned == Set::new(|block: u64| is_cloned(files, block)),
            groups_seen(groups@, files, files.len() as int, 0),
            forall|block: u64, id: u64|
                seen(files, files.len() as int, 0, block, id) <==> #[trigger] sharers(
                    files,
                    block,
                ).contains(id),
            index::is_ascending(kept),
            forall|k: int| 0 <= k < kept.len() ==> cloned.contains(#[trigger] kept[k]),
            forall|k: int, n: int|
                0 <= k < kept.len() && i <= n < blocks@.len() ==> #[trigger] kept[k]
                    < #[trigger] blocks@[n],
            forall|n: int|
                0 <= n < i && cloned.contains(#[trigger] blocks@[n]) ==> kept.contains(blocks@[n]),
            error::views(sets@) == kept.map_values(|block: u64| clone_set_at(files, block)),
        decreases blocks@.len() - i,
    {
        let block: u64 = blocks[i];
        proof {
            assert(blocks@.contains(block));
        }
        if let Some(found) = index::get(groups, block) {
            let ghost members = found@;
            proof {
                assert(dom.contains(block));
                assert forall|id: u64| #[trigger] members.contains(id) <==> sharers(
                    files,
                    block,
                ).contains(id) by {
                    assert(members.contains(id) <==> seen(
                        files,
                        files.len() as int,
                        0,
                        block,
                        id,
                    ));
                }
                lemma_cloned(files, block, members);
            }
            if found.len() > 1 {
                let mut list: Vec<u64> = vstd::slice::slice_to_vec(found.as_slice());
                sort::sort_by_rank(&mut list);
                proof {
                    lemma_sorted_members(list@, members);
                    assert forall|id: u64| #[trigger] list@.contains(id) <==> sharers(
                        files,
                        block,
                    ).contains(id) by {
                        assert(list@.contains(id) <==> members.contains(id));
                    }
                    index::lemma_ascending_is(list@, sharers(files, block));
                }
                let set: CloneSet = CloneSet { physical_block: block, members: list };
                proof {
                    let grown = kept.push(block);
                    assert(set@ == clone_set_at(files, block));
                    assert(error::views(sets@.push(set)) =~= error::views(sets@).push(set@));
                    assert(grown.map_values(|block: u64| clone_set_at(files, block))
                        =~= kept.map_values(|block: u64| clone_set_at(files, block)).push(set@));
                    assert forall|n: int|
                        0 <= n < i + 1 && cloned.contains(
                            #[trigger] blocks@[n],
                        ) implies grown.contains(blocks@[n]) by {
                        if n == i {
                            assert(grown[kept.len() as int] == blocks@[n]);
                        } else {
                            let k = kept.index_of(blocks@[n]);
                            assert(grown[k] == blocks@[n]);
                        }
                    }
                    kept = grown;
                }
                sets.push(set);
            }
        }
        i += 1;
    }
    proof {
        assert forall|block: u64| #[trigger] kept.contains(block) <==> cloned.contains(block) by {
            if cloned.contains(block) {
                let (left, right) = choose|left: u64, right: u64|
                    left != right && #[trigger] sharers(files, block).contains(left)
                        && #[trigger] sharers(files, block).contains(right);
                assert(seen(files, files.len() as int, 0, block, left));
                assert(dom.contains(block));
                assert(blocks@.contains(block));
                let n = blocks@.index_of(block);
                assert(cloned.contains(blocks@[n]));
            }
            if kept.contains(block) {
                let k = kept.index_of(block);
                assert(cloned.contains(kept[k]));
            }
        }
        index::lemma_ascending_is(kept, cloned);
    }
    sets
}

proof fn lemma_cloned(files: Seq<(u64, Vec<ClassifiedExtent>)>, block: u64, members: Seq<u64>)
    requires
        members.no_duplicates(),
        forall|id: u64| #[trigger] members.contains(id) <==> sharers(files, block).contains(id),
    ensures
        members.len() > 1 <==> is_cloned(files, block),
{
    if members.len() > 1 {
        assert(members.contains(members[0]) && members.contains(members[1]));
        assert(sharers(files, block).contains(members[0]) && sharers(files, block).contains(
            members[1],
        ));
    }
    if is_cloned(files, block) {
        let (left, right) = choose|left: u64, right: u64|
            left != right && #[trigger] sharers(files, block).contains(left)
                && #[trigger] sharers(files, block).contains(right);
        assert(members.contains(left) && members.contains(right));
        let a = members.index_of(left);
        let b = members.index_of(right);
        assert(a != b);
    }
}

/// Whether a file has an extent that starts at a block and that more than one reference
/// is counted of.
pub open spec fn has_shared_extent(
    files: Seq<(u64, Vec<ClassifiedExtent>)>,
    obj_id: u64,
    block: u64,
) -> bool {
    exists|file: int, extent: int|
        #![trigger files[file].1@[extent]]
        {
            &&& 0 <= file < files.len()
            &&& 0 <= extent < files[file].1@.len()
            &&& files[file].0 == obj_id
            &&& files[file].1@[extent].extent.phys_block_num == block
            &&& files[file].1@[extent].refcnt matches Some(count) && count >= 2
        }
}

proof fn lemma_sharers(files: Seq<(u64, Vec<ClassifiedExtent>)>, obj_id: u64, block: u64)
    ensures
        sharers(files, block).contains(obj_id) <==> has_shared_extent(files, obj_id, block),
{
    if sharers(files, block).contains(obj_id) {
        let (file, extent) = choose|file: int, extent: int| #[trigger]
            shared_at(files, file, extent, block) && files[file].0 == obj_id;
        assert(files[file].1@[extent].extent.phys_block_num == block);
    }
    if has_shared_extent(files, obj_id, block) {
        let (file, extent) = choose|file: int, extent: int|
            #![trigger files[file].1@[extent]]
            {
                &&& 0 <= file < files.len()
                &&& 0 <= extent < files[file].1@.len()
                &&& files[file].0 == obj_id
                &&& files[file].1@[extent].extent.phys_block_num == block
                &&& files[file].1@[extent].refcnt matches Some(count) && count >= 2
            };
        assert(shared_at(files, file, extent, block));
    }
}

/// A clone map has a set for exactly those blocks at which two files or more have an extent
/// that more than one reference is counted of, one set for each block, in order of the
/// blocks; and the members of a set are exactly the files with such an extent there.
pub proof fn law_clone_map_is_of_shared_blocks(files: Seq<(u64, Vec<ClassifiedExtent>)>)
    ensures
        forall|left: u64, right: u64, block: u64|
            left != right && #[trigger] has_shared_extent(files, left, block)
                && #[trigger] has_shared_extent(files, right, block) ==> exists|i: int|
                0 <= i < clone_sets(files).len() && (#[trigger] clone_sets(
                    files,
                )[i]).physical_block == block,
        forall|i: int, obj_id: u64|
            0 <= i < clone_sets(files).len() ==> (#[trigger] clone_sets(files)[i].members.contains(
                obj_id,
            ) <==> has_shared_extent(files, obj_id, clone_sets(files)[i].physical_block)),
        forall|i: int, j: int|
            0 <= i < j < clone_sets(files).len() ==> (#[trigger] clone_sets(
                files,
            )[i]).physical_block < (#[trigger] clone_sets(files)[j]).physical_block,
{
    let cloned = Set::new(|block: u64| is_cloned(files, block));
    let blocks = index::ascending(cloned);
    let sets = clone_sets(files);
    index::law_ascending_lists_the_set(cloned);
    assert forall|left: u64, right: u64, block: u64|
        left != right && #[trigger] has_shared_extent(files, left, block)
            && #[trigger] has_shared_extent(files, right, block) implies exists|i: int|
        0 <= i < sets.len() && (#[trigger] sets[i]).physical_block == block by {
        lemma_sharers(files, left, block);
        lemma_sharers(files, right, block);
        assert(is_cloned(files, block));
        assert(cloned.contains(block));
        assert(blocks.contains(block));
        let i = blocks.index_of(block);
        assert(sets[i].physical_block == block);
    }
    assert forall|i: int, obj_id: u64| 0 <= i < sets.len() implies (
    #[trigger] sets[i].members.contains(obj_id) <==> has_shared_extent(
        files,
        obj_id,
        sets[i].physical_block,
    )) by {
        lemma_sharers(files, obj_id, blocks[i]);
        index::law_ascending_lists_the_set(sharers(files, blocks[i]));
    }
}

} // verus!
