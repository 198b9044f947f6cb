//! Keeping track of the snapshots that are being processed, and of those in the directory.

use crate::error::{Error, Failure, SnapResult};
use crate::key::SnapKey;
use crate::names::{
    file_kind, file_kind_of, parse_snap_name, path_in, snap_file_name, snap_of_name, FileKind,
    TMP_FILE_SUFFIX,
};
use crate::size::SizeTrack;
use crate::text::ends_with;
use crate::types::RaftSnapshotData;
use crate::v1;
use crate::v2;
use crate::v2::files::snapshot_cf_names;
use crate::v2::meta::{complete, first_bad_name, known, meta_names, no_bad_name};
use vstd::prelude::*;

verus! {

/// What is being done with a snapshot.
#[derive(Clone, Copy, PartialEq, Eq, Debug, Structural)]
pub enum SnapEntry {
    Generating,
    Sending,
    Receiving,
    Applying,
}

/// How many snapshots are on their way out, and how many on their way in.
#[derive(Clone, Copy, PartialEq, Eq, Debug, Structural)]
pub struct SnapStats {
    pub sending_count: usize,
    pub receiving_count: usize,
}

/// A snapshot of either form.
pub enum AnySnap {
    /// In one file.
    V1(v1::Snap),
    /// With a file for each column family.
    V2(v2::files::Snap),
}

/// What is being done with which snapshots.
pub type Registry = Map<SnapKey, Seq<SnapEntry>>;

/// Keeps track of all snapshots that are being processed.
pub struct SnapManagerCore {
    base: String,
    registry: Vec<(SnapKey, Vec<SnapEntry>)>,
    use_sst_file_snapshot: bool,
}

/// The entries of a key in a list of keys.
spec fn lookup(list: Seq<(SnapKey, Vec<SnapEntry>)>, key: SnapKey) -> Option<Seq<SnapEntry>>
    decreases list.len(),
{
    if list.len() == 0 {
        None
    } else if list.last().0 == key {
        Some(list.last().1@)
    } else {
        lookup(list.drop_last(), key)
    }
}

spec fn registry_of(list: Seq<(SnapKey, Vec<SnapEntry>)>) -> Registry {
    Map::new(|key: SnapKey| lookup(list, key) is Some, |key: SnapKey| lookup(list, key).unwrap())
}

spec fn distinct_keys(list: Seq<(SnapKey, Vec<SnapEntry>)>) -> bool {
    forall|i: int, j: int|
        0 <= i < j < list.len() ==> (#[trigger] list[i]).0 != (#[trigger] list[j]).0
}

proof fn lemma_lookup_at(list: Seq<(SnapKey, Vec<SnapEntry>)>, i: int)
    requires
        distinct_keys(list),
        0 <= i < list.len(),
    ensures
        lookup(list, list[i].0) == Some(list[i].1@),
    decreases list.len(),
{
    if i < list.len() - 1 {
        assert(list[i].0 != list[list.len() - 1].0);
        lemma_lookup_at(list.drop_last(), i);
    }
}

proof fn lemma_lookup_none(list: Seq<(SnapKey, Vec<SnapEntry>)>, key: SnapKey)
    requires
        forall|i: int| 0 <= i < list.len() ==> (#[trigger] list[i]).0 != key,
    ensures
        lookup(list, key) is None,
    decreases list.len(),
{
    if list.len() > 0 {
        assert(list[list.len() - 1].0 != key);
        lemma_lookup_none(list.drop_last(), key);
    }
}

proof fn lemma_lookup_found(list: Seq<(SnapKey, Vec<SnapEntry>)>, key: SnapKey) -> (i: int)
    requires
        lookup(list, key) is Some,
    ensures
        0 <= i < list.len(),
        list[i].0 == key,
        lookup(list, key) == Some(list[i].1@),
    decreases list.len(),
{
    if list.last().0 == key {
        list.len() - 1
    } else {
        lemma_lookup_found(list.drop_last(), key)
    }
}

/// The registry after a list entry is replaced.
proof fn lemma_registry_update(
    list: Seq<(SnapKey, Vec<SnapEntry>)>,
    i: int,
    entries: Vec<SnapEntry>,
)
    requires
        distinct_keys(list),
        0 <= i < list.len(),
    ensures
        distinct_keys(list.update(i, (list[i].0, entries))),
        registry_of(list.update(i, (list[i].0, entries))) == registry_of(list).insert(
            list[i].0,
            entries@,
        ),
{
    let next = list.update(i, (list[i].0, entries));
    assert(distinct_keys(next));
    assert forall|key: SnapKey| #[trigger] lookup(next, key) == (if key == list[i].0 {
        Some(entries@)
    } else {
        lookup(list, key)
    }) by {
        if key == list[i].0 {
            lemma_lookup_at(next, i);
        } else if lookup(list, key) is Some {
            let j = lemma_lookup_found(list, key);
            lemma_lookup_at(next, j);
        } else {
            if lookup(next, key) is Some {
                let j = lemma_lookup_found(next, key);
                lemma_lookup_at(list, j);
            }
        }
    }
    assert(registry_of(next) =~= registry_of(list).insert(list[i].0, entries@));
}

/// The registry after a list entry is appended.
proof fn lemma_registry_push(
    list: Seq<(SnapKey, Vec<SnapEntry>)>,
    key: SnapKey,
    entries: Vec<SnapEntry>,
)
    requires
        distinct_keys(list),
        forall|i: int| 0 <= i < list.len() ==> (#[trigger] list[i]).0 != key,
    ensures
        distinct_keys(list.push((key, entries))),
        registry_of(list.push((key, entries))) == registry_of(list).insert(key, entries@),
{
    let next = list.push((key, entries));
    assert(next.drop_last() =~= list);
    assert(registry_of(next) =~= registry_of(list).insert(key, entries@));
}

/// The registry after a list entry is removed.
proof fn lemma_registry_remove(list: Seq<(SnapKey, Vec<SnapEntry>)>, i: int)
    requires
        distinct_keys(list),
        0 <= i < list.len(),
    ensures
        distinct_keys(list.remove(i)),
        registry_of(list.remove(i)) == registry_of(list).remove(list[i].0),
{
    let next = list.remove(i);
    assert forall|a: int, b: int| 0 <= a < b < next.len() implies (#[trigger] next[a]).0 != (
    #[trigger] next[b]).0 by {
        let x = if a < i {
            a
        } else {
            a + 1
        };
        let y = if b < i {
            b
        } else {
            b + 1
        };
        assert(next[a] == list[x] && next[b] == list[y]);
    }
    assert forall|key: SnapKey| #[trigger] lookup(next, key) == (if key == list[i].0 {
        None
    } else {
        lookup(list, key)
    }) by {
        if lookup(next, key) is Some {
            let j = lemma_lookup_found(next, key);
            let k = if j < i {
                j
            } else {
                j + 1
            };
            assert(next[j] == list[k]);
            lemma_lookup_at(list, k);
            assert(list[k].0 != list[i].0);
        } else if key != list[i].0 && lookup(list, key) is Some {
            let k = lemma_lookup_found(list, key);
            let j = if k < i {
                k
            } else {
                k - 1
            };
            assert(next[j] == list[k]);
            lemma_lookup_at(next, j);
        }
    }
    assert(registry_of(next) =~= registry_of(list).remove(list[i].0));
}

/// Whether something is being done with a snapshot.
pub open spec fn registered(reg: Registry, key: SnapKey, entry: SnapEntry) -> bool {
    reg.contains_key(key) && reg[key].contains(entry)
}

/// The registry after a registration, which adds nothing that is there already.
pub open spec fn after_register(reg: Registry, key: SnapKey, entry: SnapEntry) -> Registry {
    if registered(reg, key, entry) {
        reg
    } else if reg.contains_key(key) {
        reg.insert(key, reg[key].push(entry))
    } else {
        reg.insert(key, seq![entry])
    }
}

/// Entries without one of them.
pub open spec fn without(entries: Seq<SnapEntry>, entry: SnapEntry) -> Seq<SnapEntry>
    decreases entries.len(),
{
    if entries.len() == 0 {
        Seq::empty()
    } else {
        let front = without(entries.drop_last(), entry);
        if entries.last() == entry {
            front
        } else {
            front.push(entries.last())
        }
    }
}

/// The registry after a deregistration. A key with which nothing more is done leaves it.
pub open spec fn after_deregister(reg: Registry, key: SnapKey, entry: SnapEntry) -> Registry {
    if !reg.contains_key(key) {
        reg
    } else {
        let rest = without(reg[key], entry);
        if rest.len() == 0 {
            reg.remove(key)
        } else {
            reg.insert(key, rest)
        }
    }
}

/// A registry in which every key has entries, and none twice.
pub open spec fn proper(reg: Registry) -> bool {
    forall|key: SnapKey| #[trigger]
        reg.contains_key(key) ==> reg[key].len() > 0 && reg[key].no_duplicates()
}

/// A snapshot on its way out.
pub open spec fn outgoing(entries: Seq<SnapEntry>) -> bool {
    entries.contains(SnapEntry::Sending) || entries.contains(SnapEntry::Generating)
}

/// A snapshot on its way in.
pub open spec fn incoming(entries: Seq<SnapEntry>) -> bool {
    entries.contains(SnapEntry::Receiving) || entries.contains(SnapEntry::Applying)
}

pub open spec fn outgoing_keys(reg: Registry) -> Set<SnapKey> {
    reg.dom().filter(|key: SnapKey| outgoing(reg[key]))
}

pub open spec fn incoming_keys(reg: Registry) -> Set<SnapKey> {
    reg.dom().filter(|key: SnapKey| incoming(reg[key]))
}

fn contains_entry(entries: &Vec<SnapEntry>, entry: SnapEntry) -> (found: bool)
    ensures
        found == entries@.contains(entry),
{
    let mut i: usize = 0;
    while i < entries.len()
        invariant
            i <= entries@.len(),
            forall|j: int| 0 <= j < i ==> entries@[j] != entry,
        decreases entries@.len() - i,
    {
        if entries[i] == entry {
            assert(entries@[i as int] == entry);
            return true;
        }
        i = i + 1;
    }
    false
}

fn retain_other(entries: &Vec<SnapEntry>, entry: SnapEntry) -> (rest: Vec<SnapEntry>)
    ensures
        rest@ == without(entries@, entry),
{
    let mut rest: Vec<SnapEntry> = Vec::new();
    let mut i: usize = 0;
    while i < entries.len()
        invariant
            i <= entries@.len(),
            rest@ == without(entries@.take(i as int), entry),
        decreases entries@.len() - i,
    {
        assert(entries@.take(i + 1).drop_last() =~= entries@.take(i as int));
        if entries[i] != entry {
            rest.push(entries[i]);
        }
        i = i + 1;
    }
    assert(entries@.take(i as int) =~= entries@);
    rest
}

proof fn lemma_push_contains(entries: Seq<SnapEntry>, last: SnapEntry, other: SnapEntry)
    ensures
        entries.push(last).contains(other) == (entries.contains(other) || other == last),
{
    let grown = entries.push(last);
    if entries.contains(other) {
        let i = choose|i: int| 0 <= i < entries.len() && entries[i] == other;
        assert(grown[i] == other);
    }
    assert(grown[entries.len() as int] == last);
    if grown.contains(other) && other != last {
        let i = choose|i: int| 0 <= i < grown.len() && grown[i] == other;
        assert(entries[i] == other);
    }
}

proof fn lemma_without(entries: Seq<SnapEntry>, entry: SnapEntry)
    ensures
        forall|other: SnapEntry| #[trigger]
            without(entries, entry).contains(other) <==> entries.contains(other) && other != entry,
        without(entries, entry).len() <= entries.len(),
        without(entries, entry).len() == entries.len() <==> !entries.contains(entry),
        !entries.contains(entry) ==> without(entries, entry) == entries,
        entries.no_duplicates() ==> without(entries, entry).no_duplicates(),
    decreases entries.len(),
{
    if entries.len() > 0 {
        let front = entries.drop_last();
        let last = entries.last();
        let kept = without(front, entry);
        lemma_without(front, entry);
        assert(entries =~= front.push(last));
        lemma_push_contains(front, last, entry);
        assert forall|other: SnapEntry| #[trigger]
            without(entries, entry).contains(other) <==> entries.contains(other) && other
                != entry by {
            lemma_push_contains(front, last, other);
            lemma_push_contains(kept, last, other);
            assert(kept.contains(other) <==> front.contains(other) && other != entry);
        }
        if entries.no_duplicates() {
            assert(front.no_duplicates());
            if front.contains(last) {
                let i = choose|i: int| 0 <= i < front.len() && front[i] == last;
                assert(entries[i] == entries[entries.len() - 1]);
            }
            assert(!kept.contains(last));
        }
    }
}

/// Deregistering goes through the entries of a snapshot one by one, in order: the one that is meant
/// is dropped, any other is kept.
pub proof fn law_other_entries_are_kept(a: Seq<SnapEntry>, b: Seq<SnapEntry>, entry: SnapEntry)
    ensures
        without(a + b, entry) == without(a, entry) + without(b, entry),
        without(seq![entry], entry).len() == 0,
        forall|other: SnapEntry|
            other != entry ==> #[trigger] without(seq![other], entry) == seq![other],
    decreases b.len(),
{
    reveal_with_fuel(without, 2);
    assert forall|other: SnapEntry| #[trigger] seq![other].drop_last() == Seq::<SnapEntry>::empty() by {
        assert(seq![other].drop_last() =~= Seq::<SnapEntry>::empty());
    }
    if b.len() == 0 {
        assert(a + b =~= a);
    } else {
        law_other_entries_are_kept(a, b.drop_last(), entry);
        assert((a + b).drop_last() =~= a + b.drop_last());
        assert((a + b).last() == b.last());
    }
}

/// Something that is done with a snapshot for the first time, and then no more, leaves no trace.
pub proof fn law_deregister_undoes_register(reg: Registry, key: SnapKey, entry: SnapEntry)
    requires
        proper(reg),
        !registered(reg, key, entry),
    ensures
        after_deregister(after_register(reg, key, entry), key, entry) == reg,
{
    let old_entries = if reg.contains_key(key) {
        reg[key]
    } else {
        Seq::empty()
    };
    let entries = old_entries.push(entry);
    assert(seq![entry] =~= Seq::<SnapEntry>::empty().push(entry));
    assert(entries.drop_last() =~= old_entries);
    lemma_without(old_entries, entry);
    assert(without(entries, entry) == old_entries);
    assert(after_deregister(after_register(reg, key, entry), key, entry) =~= reg);
}

/// Registering twice is registering once; so is deregistering.
pub proof fn law_repetition_changes_nothing(reg: Registry, key: SnapKey, entry: SnapEntry)
    requires
        proper(reg),
    ensures
        ({
            let once = after_register(reg, key, entry);
            after_register(once, key, entry) == once
        }),
        ({
            let once = after_deregister(reg, key, entry);
            after_deregister(once, key, entry) == once
        }),
{
    law_registered_after(reg, key, entry, key, entry);
    let once = after_deregister(reg, key, entry);
    if once.contains_key(key) {
        lemma_without(reg[key], entry);
        lemma_without(once[key], entry);
        assert(after_deregister(once, key, entry) =~= once);
    }
}

/// What is registered after a registration is what was, and that entry; what is registered after a
/// deregistration is what was, but for that entry.
pub proof fn law_registered_after(
    reg: Registry,
    key: SnapKey,
    entry: SnapEntry,
    other_key: SnapKey,
    other: SnapEntry,
)
    ensures
        registered(after_register(reg, key, entry), other_key, other) <==> registered(
            reg,
            other_key,
            other,
        ) || (other_key == key && other == entry),
        registered(after_deregister(reg, key, entry), other_key, other) <==> registered(
            reg,
            other_key,
            other,
        ) && !(other_key == key && other == entry),
{
    if reg.contains_key(key) {
        lemma_without(reg[key], entry);
        let grown = reg[key].push(entry);
        assert(grown[reg[key].len() as int] == entry);
        if reg[key].contains(other) {
            let i = choose|i: int| 0 <= i < reg[key].len() && reg[key][i] == other;
            assert(grown[i] == other);
        }
        let rest = without(reg[key], entry);
        if rest.len() == 0 {
            assert(!rest.contains(other));
        }
    } else {
        assert(seq![entry][0] == entry);
    }
}

/// A registry stays proper.
pub proof fn law_registry_stays_proper(reg: Registry, key: SnapKey, entry: SnapEntry)
    requires
        proper(reg),
    ensures
        proper(after_register(reg, key, entry)),
        proper(after_deregister(reg, key, entry)),
{
    if reg.contains_key(key) {
        lemma_without(reg[key], entry);
    }
}

/// Deregistering what is not registered changes nothing.
pub proof fn law_stale_deregistration_changes_nothing(
    reg: Registry,
    key: SnapKey,
    entry: SnapEntry,
)
    requires
        proper(reg),
        !registered(reg, key, entry),
    ensures
        after_deregister(reg, key, entry) == reg,
{
    if reg.contains_key(key) {
        lemma_without(reg[key], entry);
        assert(reg.insert(key, reg[key]) =~= reg);
    }
}

/// A snapshot is counted at most once on each side, and every one with which something is done is
/// counted on one side at least.
pub proof fn law_counts_are_bounded(reg: Registry)
    requires
        proper(reg),
        reg.dom().finite(),
    ensures
        outgoing_keys(reg).len() <= reg.dom().len(),
        incoming_keys(reg).len() <= reg.dom().len(),
        reg.dom().len() <= outgoing_keys(reg).len() + incoming_keys(reg).len(),
{
    let (out, inc, all) = (outgoing_keys(reg), incoming_keys(reg), reg.dom());
    vstd::set_lib::lemma_len_subset(out, all);
    vstd::set_lib::lemma_len_subset(inc, all);
    assert forall|key: SnapKey| all.contains(key) implies out.union(inc).contains(key) by {
        assert(reg.contains_key(key));
        let first = reg[key][0];
        assert(reg[key].contains(first));
    }
    vstd::set_lib::lemma_len_subset(all, out.union(inc));
    vstd::set_lib::lemma_len_union(out, inc);
}

/// What the start-up does with the snapshot directory.
#[derive(Clone, Copy, PartialEq, Eq, Debug, Structural)]
pub enum InitStep {
    /// Create it.
    CreateDir,
    /// Go through its files.
    Scan,
}

/// A directory entry: whether it is a file, and its name if that is text.
pub struct DirEntry {
    pub is_file: bool,
    pub name: Option<String>,
}

/// What the start-up does with a directory entry.
pub open spec fn entry_kind(entry: DirEntry) -> FileKind {
    match entry.name {
        Some(name) if entry.is_file => file_kind_of(name@),
        _ => FileKind::Other,
    }
}

/// The size that the start-up counts in a listing, of entries and their lengths: that of the files
/// that hold data.
pub open spec fn counted_size(entries: Seq<(DirEntry, u64)>) -> nat
    decreases entries.len(),
{
    if entries.len() == 0 {
        0
    } else {
        counted_size(entries.drop_last()) + if entry_kind(entries.last().0) == FileKind::Data {
            entries.last().1 as nat
        } else {
            0
        }
    }
}

/// The names that the start-up removes from a listing, in order.
pub open spec fn removed_names(entries: Seq<(DirEntry, u64)>) -> Seq<Seq<char>>
    decreases entries.len(),
{
    if entries.len() == 0 {
        Seq::empty()
    } else {
        let front = removed_names(entries.drop_last());
        if entry_kind(entries.last().0) == FileKind::Temporary {
            front.push(entries.last().0.name.unwrap()@)
        } else {
            front
        }
    }
}

/// A directory entry is a file of this name that was left unfinished.
pub open spec fn is_leftover(entry: DirEntry, name: Seq<char>) -> bool {
    &&& entry.is_file
    &&& entry.name matches Some(n) && n@ == name
    &&& ends_with(name, TMP_FILE_SUFFIX@)
}

/// The names that the start-up removes are exactly those of the files that were left unfinished.
pub proof fn law_leftovers_are_removed(entries: Seq<(DirEntry, u64)>, name: Seq<char>)
    ensures
        removed_names(entries).contains(name) <==> exists|i: int|
            0 <= i < entries.len() && is_leftover((#[trigger] entries[i]).0, name),
    decreases entries.len(),
{
    if entries.len() > 0 {
        let front = entries.drop_last();
        let last = entries.last().0;
        law_leftovers_are_removed(front, name);
        let names = removed_names(front);
        assert(last == entries[entries.len() - 1].0);
        if exists|i: int| 0 <= i < front.len() && is_leftover((#[trigger] front[i]).0, name) {
            let i = choose|i: int| 0 <= i < front.len() && is_leftover((#[trigger] front[i]).0, name);
            assert(is_leftover(entries[i].0, name));
        }
        if exists|i: int| 0 <= i < entries.len() && is_leftover((#[trigger] entries[i]).0, name) {
            let i = choose|i: int|
                0 <= i < entries.len() && is_leftover((#[trigger] entries[i]).0, name);
            if i < front.len() {
                assert(is_leftover(front[i].0, name));
            }
        }
        if entry_kind(last) == FileKind::Temporary {
            let n = last.name.unwrap()@;
            let grown = names.push(n);
            assert(grown[names.len() as int] == n);
            if names.contains(name) {
                let k = choose|k: int| 0 <= k < names.len() && names[k] == name;
                assert(grown[k] == name);
            }
            if grown.contains(name) && name != n {
                let k = choose|k: int| 0 <= k < grown.len() && grown[k] == name;
                assert(names[k] == name);
            }
        }
    }
}

/// Goes through the snapshot directory at start-up, entry by entry.
pub struct StartUp {
    waiting: bool,
    start: Ghost<u64>,
    entries: Ghost<Seq<(DirEntry, u64)>>,
    current: Ghost<DirEntry>,
}

impl StartUp {
    /// Whether the length of the current entry is to be told.
    pub closed spec fn waiting(&self) -> bool {
        self.waiting
    }

    /// The tracked size at the beginning.
    pub closed spec fn start(&self) -> u64 {
        self.start@
    }

    /// The entries that were dealt with, and the lengths of those that hold data.
    pub closed spec fn entries(&self) -> Seq<(DirEntry, u64)> {
        self.entries@
    }

    /// The entry whose length is to be told.
    pub closed spec fn current(&self) -> DirEntry {
        self.current@
    }

    /// What was counted is the size of the files that hold data.
    pub open spec fn wf(&self, track: SizeTrack) -> bool {
        &&& track.total == self.start() + counted_size(self.entries())
        &&& self.waiting() ==> entry_kind(self.current()) == FileKind::Data
    }

    pub fn new(track: &SizeTrack) -> (start_up: StartUp)
        ensures
            start_up.wf(*track),
            !start_up.waiting(),
            start_up.start() == track.total,
            start_up.entries() == Seq::<(DirEntry, u64)>::empty(),
    {
        StartUp {
            waiting: false,
            start: Ghost(track.total),
            entries: Ghost(Seq::empty()),
            current: Ghost(DirEntry { is_file: false, name: None }),
        }
    }

    /// What to do with the next entry: remove it, tell its length, or nothing.
    pub fn entry(&mut self, track: &SizeTrack, entry: &DirEntry) -> (kind: FileKind)
        requires
            old(self).wf(*track),
            !old(self).waiting(),
        ensures
            final(self).wf(*track),
            final(self).start() == old(self).start(),
            kind == entry_kind(*entry),
            final(self).waiting() == (kind == FileKind::Data),
            if kind == FileKind::Data {
                final(self).current() == *entry && final(self).entries() == old(self).entries()
            } else {
                final(self).entries() == old(self).entries().push((*entry, 0))
            },
    {
        let kind = init_entry(entry);
        if kind == FileKind::Data {
            self.waiting = true;
            proof {
                self.current@ = *entry;
            }
        } else {
            proof {
                let entries = self.entries@.push((*entry, 0u64));
                assert(entries.drop_last() =~= self.entries@);
                self.entries@ = entries;
            }
        }
        kind
    }

    /// The length of the current entry.
    pub fn found(&mut self, track: &mut SizeTrack, len: u64)
        requires
            old(self).wf(*old(track)),
            old(self).waiting(),
            old(track).total + len <= u64::MAX,
        ensures
            final(self).wf(*final(track)),
            !final(self).waiting(),
            final(self).start() == old(self).start(),
            final(self).entries() == old(self).entries().push((old(self).current(), len)),
            final(track).total == old(track).total + len,
    {
        track.found(len);
        self.waiting = false;
        proof {
            let entries = self.entries@.push((self.current@, len));
            assert(entries.drop_last() =~= self.entries@);
            self.entries@ = entries;
        }
    }
}

/// What to do with an entry of the directory at start-up: remove a file that was left unfinished,
/// count the size of one that holds data.
pub fn init_entry(entry: &DirEntry) -> (kind: FileKind)
    ensures
        kind == entry_kind(*entry),
{
    match &entry.name {
        Some(name) => {
            if entry.is_file {
                file_kind(name.as_str())
            } else {
                FileKind::Other
            }
        },
        None => FileKind::Other,
    }
}

/// The snapshots that a directory entry stands for: one or none.
pub open spec fn snap_of_entry(entry: DirEntry) -> Option<(SnapKey, bool)> {
    match entry.name {
        Some(name) if entry.is_file => snap_of_name(name@),
        _ => None,
    }
}

/// The snapshots that directory entries stand for, in order.
pub open spec fn listed(entries: Seq<DirEntry>) -> Seq<(SnapKey, bool)>
    decreases entries.len(),
{
    if entries.len() == 0 {
        Seq::empty()
    } else {
        let front = listed(entries.drop_last());
        match snap_of_entry(entries.last()) {
            Some(found) => front.push(found),
            None => front,
        }
    }
}

/// In what form a snapshot is received, by the version in the message that announces it.
pub open spec fn has_cf_files(version: u64) -> bool {
    version == v2::SNAPSHOT_VERSION
}

/// A snapshot in one file is received as such, also where others are built.
pub proof fn law_single_files_are_received(data: RaftSnapshotData)
    requires
        data.version == v1::SNAPSHOT_VERSION,
    ensures
        !has_cf_files(data.version),
{
}

impl SnapManagerCore {
    /// What is being done with which snapshots.
    pub closed spec fn registry(&self) -> Registry {
        registry_of(self.registry@)
    }

    /// The directory of the snapshots.
    pub closed spec fn base(&self) -> Seq<char> {
        self.base@
    }

    /// Whether snapshots are built with a file for each column family.
    pub closed spec fn use_sst(&self) -> bool {
        self.use_sst_file_snapshot
    }

    pub closed spec fn wf(&self) -> bool {
        distinct_keys(self.registry@) && proper(self.registry())
    }

    pub fn new(path: String, use_sst_file_snapshot: bool) -> (mgr: SnapManagerCore)
        ensures
            mgr.wf(),
            mgr.registry() == Registry::empty(),
            mgr.base() == path@,
            mgr.use_sst() == use_sst_file_snapshot,
    {
        let mgr = SnapManagerCore { base: path, registry: Vec::new(), use_sst_file_snapshot };
        assert(mgr.registry() =~= Registry::empty());
        mgr
    }

    /// The directory of the snapshots.
    pub fn base_dir(&self) -> (dir: &str)
        ensures
            dir@ == self.base(),
    {
        self.base.as_str()
    }

    /// What to do with the snapshot directory at start-up. Refuses one that is something else.
    pub fn init(&self, present: bool, is_dir: bool) -> (res: SnapResult<InitStep>)
        ensures
            match res {
                Ok(step) => {
                    &&& !present || is_dir
                    &&& step == if present {
                        InitStep::Scan
                    } else {
                        InitStep::CreateDir
                    }
                },
                Err(e) => {
                    &&& present && !is_dir
                    &&& e matches Error::Other(Failure::NotDirectory(path))
                    &&& path@ == self.base()
                },
            },
    {
        if !present {
            return Ok(InitStep::CreateDir);
        }
        if !is_dir {
            return Err(Error::Other(Failure::NotDirectory(self.base.clone())));
        }
        Ok(InitStep::Scan)
    }

    /// The snapshots in the directory, and of each whether it was generated here: one for every
    /// file whose name tells its snapshot.
    pub fn list_snap(&self, entries: &Vec<DirEntry>) -> (snaps: Vec<(SnapKey, bool)>)
        ensures
            snaps@ == listed(entries@),
    {
        let mut snaps: Vec<(SnapKey, bool)> = Vec::new();
        let mut i: usize = 0;
        while i < entries.len()
            invariant
                i <= entries@.len(),
                snaps@ == listed(entries@.take(i as int)),
            decreases entries@.len() - i,
        {
            assert(entries@.take(i + 1).drop_last() =~= entries@.take(i as int));
            if entries[i].is_file {
                if let Some(name) = &entries[i].name {
                    if let Some(found) = parse_snap_name(name.as_str()) {
                        snaps.push(found);
                    }
                }
            }
            i = i + 1;
        }
        assert(entries@.take(i as int) =~= entries@);
        snaps
    }

    fn find(&self, key: &SnapKey) -> (place: Option<usize>)
        requires
            self.wf(),
        ensures
            match place {
                Some(i) => {
                    &&& i < self.registry@.len()
                    &&& self.registry@[i as int].0 == *key
                    &&& self.registry().contains_key(*key)
                    &&& self.registry()[*key] == self.registry@[i as int].1@
                },
                None => {
                    &&& !self.registry().contains_key(*key)
                    &&& forall|i: int|
                        0 <= i < self.registry@.len() ==> (#[trigger] self.registry@[i]).0 != *key
                },
            },
    {
        let mut i: usize = 0;
        while i < self.registry.len()
            invariant
                self.wf(),
                i <= self.registry@.len(),
                forall|j: int| 0 <= j < i ==> (#[trigger] self.registry@[j]).0 != *key,
            decreases self.registry@.len() - i,
        {
            if self.registry[i].0 == *key {
                proof {
                    lemma_lookup_at(self.registry@, i as int);
                }
                return Some(i);
            }
            i = i + 1;
        }
        proof {
            lemma_lookup_none(self.registry@, *key);
        }
        None
    }

    /// Whether anything is being done with a snapshot.
    pub fn has_registered(&self, key: &SnapKey) -> (yes: bool)
        requires
            self.wf(),
        ensures
            yes == self.registry().contains_key(*key),
    {
        self.find(key).is_some()
    }

    /// Something is being done with a snapshot from now on. Says whether that is news, which is
    /// then to be announced.
    pub fn register(&mut self, key: SnapKey, entry: SnapEntry) -> (notify: bool)
        requires
            old(self).wf(),
        ensures
            final(self).wf(),
            final(self).base() == old(self).base(),
            final(self).use_sst() == old(self).use_sst(),
            final(self).registry() == after_register(old(self).registry(), key, entry),
            notify == !registered(old(self).registry(), key, entry),
    {
        let ghost list = self.registry@;
        proof {
            law_registry_stays_proper(self.registry(), key, entry);
        }
        match self.find(&key) {
            Some(i) => {
                if contains_entry(&self.registry[i].1, entry) {
                    return false;
                }
                self.registry[i].1.push(entry);
                proof {
                    let entries = self.registry@[i as int].1;
                    lemma_registry_update(list, i as int, entries);
                    assert(self.registry@ =~= list.update(i as int, (list[i as int].0, entries)));
                }
            },
            None => {
                let entries: Vec<SnapEntry> = vec![entry];
                proof {
                    lemma_registry_push(list, key, entries);
                    assert(entries@ =~= seq![entry]);
                }
                self.registry.push((key, entries));
            },
        }
        true
    }

    /// Something is no longer being done with a snapshot. Says whether it was, which is then to be
    /// announced.
    pub fn deregister(&mut self, key: &SnapKey, entry: &SnapEntry) -> (handled: bool)
        requires
            old(self).wf(),
        ensures
            final(self).wf(),
            final(self).base() == old(self).base(),
            final(self).use_sst() == old(self).use_sst(),
            final(self).registry() == after_deregister(old(self).registry(), *key, *entry),
            handled == registered(old(self).registry(), *key, *entry),
    {
        let ghost list = self.registry@;
        proof {
            law_registry_stays_proper(self.registry(), *key, *entry);
        }
        match self.find(key) {
            Some(i) => {
                let last_len: usize = self.registry[i].1.len();
                let rest = retain_other(&self.registry[i].1, *entry);
                let handled = last_len > rest.len();
                proof {
                    lemma_without(list[i as int].1@, *entry);
                }
                if rest.len() == 0 {
                    self.registry.remove(i);
                    proof {
                        lemma_registry_remove(list, i as int);
                    }
                } else {
                    proof {
                        lemma_registry_update(list, i as int, rest);
                    }
                    self.registry[i].1 = rest;
                    assert(self.registry@ =~= list.update(i as int, (list[i as int].0, rest)));
                }
                handled
            },
            None => false,
        }
    }

    /// How many snapshots are on their way out, and how many on their way in. One can be both.
    pub fn stats(&self) -> (stats: SnapStats)
        requires
            self.wf(),
        ensures
            stats.sending_count == outgoing_keys(self.registry()).len(),
            stats.receiving_count == incoming_keys(self.registry()).len(),
    {
        let mut sending_count: usize = 0;
        let mut receiving_count: usize = 0;
        let mut i: usize = 0;
        proof {
            let none = self.registry@.take(0);
            assert(outgoing_keys(registry_of(none)) =~= Set::<SnapKey>::empty());
            assert(incoming_keys(registry_of(none)) =~= Set::<SnapKey>::empty());
        }
        while i < self.registry.len()
            invariant
                self.wf(),
                i <= self.registry@.len(),
                sending_count <= i,
                receiving_count <= i,
                outgoing_keys(registry_of(self.registry@.take(i as int))).finite(),
                incoming_keys(registry_of(self.registry@.take(i as int))).finite(),
                sending_count == outgoing_keys(registry_of(self.registry@.take(i as int))).len(),
                receiving_count == incoming_keys(registry_of(self.registry@.take(i as int))).len(),
            decreases self.registry@.len() - i,
        {
            let entries = &self.registry[i].1;
            proof {
                lemma_count_step(self.registry@, i as int);
            }
            if contains_entry(entries, SnapEntry::Sending) || contains_entry(
                entries,
                SnapEntry::Generating,
            ) {
                sending_count = sending_count + 1;
            }
            if contains_entry(entries, SnapEntry::Receiving) || contains_entry(
                entries,
                SnapEntry::Applying,
            ) {
                receiving_count = receiving_count + 1;
            }
            i = i + 1;
        }
        assert(self.registry@.take(i as int) =~= self.registry@);
        SnapStats { sending_count, receiving_count }
    }

    /// The snapshot to build, in the form that is set.
    pub fn get_snapshot_for_building(&self, key: &SnapKey) -> (snap: AnySnap)
        ensures
            match snap {
                AnySnap::V2(s) => self.use_sst() && s.is_new(
                    self.base(),
                    true,
                    *key,
                    snapshot_cf_names(),
                ),
                AnySnap::V1(s) => !self.use_sst() && v1_for_writing(s, self.base(), true, *key),
            },
    {
        if self.use_sst_file_snapshot {
            AnySnap::V2(v2::files::Snap::new_for_building(self.base.as_str(), key))
        } else {
            AnySnap::V1(v1::Snap::new_for_writing(self.base.as_str(), true, key))
        }
    }

    /// The snapshot to send: the one in one file if that is there.
    pub fn get_snapshot_for_sending(&self, key: &SnapKey, v1_present: bool) -> (snap: AnySnap)
        ensures
            match snap {
                AnySnap::V1(s) => v1_present && v1_for_reading(s, self.base(), true, *key),
                AnySnap::V2(s) => !v1_present && s.is_new(
                    self.base(),
                    true,
                    *key,
                    snapshot_cf_names(),
                ),
            },
    {
        if v1_present {
            AnySnap::V1(v1::Snap::new_for_reading(self.base.as_str(), true, key))
        } else {
            AnySnap::V2(v2::files::Snap::new_for_sending(self.base.as_str(), key))
        }
    }

    /// The snapshot to receive, in the form that its message says, whatever form is built here. The
    /// message comes as the outcome of parsing it.
    pub fn get_snapshot_for_receiving(
        &self,
        key: &SnapKey,
        data: core::result::Result<&RaftSnapshotData, String>,
    ) -> (res: SnapResult<AnySnap>)
        ensures
            match data {
                Err(words) => res matches Err(Error::Other(Failure::Parse(e))) && e@ == words@,
                Ok(d) => if has_cf_files(d.version) {
                    let names = meta_names(d.meta@);
                    match res {
                        Ok(AnySnap::V2(s)) => complete(names) && s.is_new(
                            self.base(),
                            false,
                            *key,
                            names,
                        ),
                        Ok(AnySnap::V1(_)) => false,
                        Err(Error::Other(Failure::DecodeInvalidCf(cf))) => exists|i: int|
                            #[trigger]
                            first_bad_name(names, i) && !known(names[i]) && cf@ == names[i],
                        Err(Error::Other(Failure::DecodeDuplicatedCf(cf))) => exists|i: int|
                            #[trigger]
                            first_bad_name(names, i) && known(names[i]) && cf@ == names[i],
                        Err(Error::Other(Failure::CfCount(got, expect))) => {
                            &&& no_bad_name(names)
                            &&& got == names.len()
                            &&& expect == snapshot_cf_names().len()
                            &&& got != expect
                        },
                        Err(_) => false,
                    }
                } else {
                    res matches Ok(AnySnap::V1(s)) && v1_for_writing(s, self.base(), false, *key)
                },
            },
    {
        match data {
            Err(words) => Err(Error::Other(Failure::Parse(words))),
            Ok(d) => {
                if d.version == v2::SNAPSHOT_VERSION {
                    match v2::files::Snap::new_for_receiving(self.base.as_str(), key, &d.meta) {
                        Ok(snap) => Ok(AnySnap::V2(snap)),
                        Err(e) => Err(e),
                    }
                } else {
                    Ok(AnySnap::V1(v1::Snap::new_for_writing(self.base.as_str(), false, key)))
                }
            },
        }
    }

    /// The snapshot to apply: the one with a file for each column family if that is there and its
    /// metadata could be read.
    pub fn get_snapshot_for_applying(&self, key: &SnapKey, v2_ready: bool) -> (snap: AnySnap)
        ensures
            match snap {
                AnySnap::V2(s) => v2_ready && s.is_new(
                    self.base(),
                    false,
                    *key,
                    snapshot_cf_names(),
                ),
                AnySnap::V1(s) => !v2_ready && v1_for_reading(s, self.base(), false, *key),
            },
    {
        if v2_ready {
            AnySnap::V2(v2::files::Snap::new_for_applying(self.base.as_str(), key))
        } else {
            AnySnap::V1(v1::Snap::new_for_reading(self.base.as_str(), false, key))
        }
    }
}

/// The registry of a manager is proper, and holds finitely many keys.
pub proof fn law_registry_is_proper(mgr: SnapManagerCore)
    requires
        mgr.wf(),
    ensures
        proper(mgr.registry()),
        mgr.registry().dom().finite(),
{
    lemma_registry_finite(mgr.registry@);
}

/// A manager that is told of something new and then that it is over has the registry that it had,
/// so that it answers every question about it as before.
pub proof fn law_manager_forgets(
    before: SnapManagerCore,
    during: SnapManagerCore,
    after: SnapManagerCore,
    key: SnapKey,
    entry: SnapEntry,
)
    requires
        before.wf(),
        !registered(before.registry(), key, entry),
        during.registry() == after_register(before.registry(), key, entry),
        after.registry() == after_deregister(during.registry(), key, entry),
    ensures
        after.registry() == before.registry(),
{
    law_deregister_undoes_register(before.registry(), key, entry);
}

/// The counts of a manager lie within the bounds that the number of its keys sets.
pub proof fn law_manager_counts(mgr: SnapManagerCore)
    requires
        mgr.wf(),
    ensures
        outgoing_keys(mgr.registry()).len() <= mgr.registry().dom().len(),
        incoming_keys(mgr.registry()).len() <= mgr.registry().dom().len(),
        mgr.registry().dom().len() <= outgoing_keys(mgr.registry()).len() + incoming_keys(
            mgr.registry(),
        ).len(),
{
    law_registry_is_proper(mgr);
    law_counts_are_bounded(mgr.registry());
}

proof fn lemma_registry_finite(list: Seq<(SnapKey, Vec<SnapEntry>)>)
    ensures
        registry_of(list).dom().finite(),
    decreases list.len(),
{
    if list.len() == 0 {
        assert(registry_of(list).dom() =~= Set::empty());
    } else {
        lemma_registry_finite(list.drop_last());
        assert(registry_of(list).dom() =~= registry_of(list.drop_last()).dom().insert(
            list.last().0,
        ));
    }
}

/// A snapshot in one file that is to be written from the start.
pub open spec fn v1_for_writing(
    snap: v1::Snap,
    dir: Seq<char>,
    is_sending: bool,
    key: SnapKey,
) -> bool {
    &&& snap.wf()
    &&& snap.writable()
    &&& snap.file() == path_in(dir, snap_file_name(is_sending, key))
    &&& snap.tmp_file() is None
    &&& snap.written() == Seq::<u8>::empty()
}

/// A snapshot in one file that is to be read.
pub open spec fn v1_for_reading(
    snap: v1::Snap,
    dir: Seq<char>,
    is_sending: bool,
    key: SnapKey,
) -> bool {
    &&& snap.wf()
    &&& !snap.writable()
    &&& snap.file() == path_in(dir, snap_file_name(is_sending, key))
    &&& snap.tmp_file() is None
}

proof fn lemma_count_step(list: Seq<(SnapKey, Vec<SnapEntry>)>, i: int)
    requires
        distinct_keys(list),
        0 <= i < list.len(),
        outgoing_keys(registry_of(list.take(i))).finite(),
        incoming_keys(registry_of(list.take(i))).finite(),
    ensures
        outgoing_keys(registry_of(list.take(i + 1))).finite(),
        incoming_keys(registry_of(list.take(i + 1))).finite(),
        outgoing_keys(registry_of(list.take(i + 1))).len() == outgoing_keys(
            registry_of(list.take(i)),
        ).len() + if outgoing(list[i].1@) {
            1nat
        } else {
            0nat
        },
        incoming_keys(registry_of(list.take(i + 1))).len() == incoming_keys(
            registry_of(list.take(i)),
        ).len() + if incoming(list[i].1@) {
            1nat
        } else {
            0nat
        },
{
    let key = list[i].0;
    let before = list.take(i);
    let after = list.take(i + 1);
    assert(after =~= before.push(list[i]));
    assert(distinct_keys(before));
    lemma_registry_push(before, key, list[i].1);
    lemma_lookup_none(before, key);
    let (b, a) = (registry_of(before), registry_of(after));
    assert(a == b.insert(key, list[i].1@));
    if outgoing(list[i].1@) {
        assert(outgoing_keys(a) =~= outgoing_keys(b).insert(key));
    } else {
        assert(outgoing_keys(a) =~= outgoing_keys(b));
    }
    if incoming(list[i].1@) {
        assert(incoming_keys(a) =~= incoming_keys(b).insert(key));
    } else {
        assert(incoming_keys(a) =~= incoming_keys(b));
    }
}

/// Listing goes file by file: what a directory gives is what its parts give, one after the other,
/// whatever else is in it; an entry gives the snapshot that its name tells, if it is a file with a
/// name that tells one, and otherwise nothing.
pub proof fn law_listing_goes_by_file(a: Seq<DirEntry>, b: Seq<DirEntry>, entry: DirEntry)
    ensures
        listed(a + b) == listed(a) + listed(b),
        listed(seq![entry]) == (if entry.is_file && entry.name is Some && snap_of_name(
            entry.name.unwrap()@,
        ) is Some {
            seq![snap_of_name(entry.name.unwrap()@).unwrap()]
        } else {
            Seq::empty()
        }),
{
    lemma_listed_append(a, b);
    let one = seq![entry];
    assert(one.drop_last() =~= Seq::<DirEntry>::empty());
    assert(listed(one.drop_last()) =~= Seq::<(SnapKey, bool)>::empty());
    assert(listed(one) =~= listed(one));
    if let Some(found) = snap_of_entry(entry) {
        assert(listed(one) =~= seq![found]);
    }
}

proof fn lemma_listed_append(a: Seq<DirEntry>, b: Seq<DirEntry>)
    ensures
        listed(a + b) == listed(a) + listed(b),
    decreases b.len(),
{
    if b.len() == 0 {
        assert(a + b =~= a);
        assert(listed(a) + listed(b) =~= listed(a));
    } else {
        lemma_listed_append(a, b.drop_last());
        assert((a + b).drop_last() =~= a + b.drop_last());
        assert(listed(a + b) =~= listed(a) + listed(b));
    }
}

/// A snapshot is listed exactly if some file of the directory stands for it.
pub proof fn law_listed_exactly(entries: Seq<DirEntry>, found: (SnapKey, bool))
    ensures
        listed(entries).contains(found) <==> exists|i: int|
            0 <= i < entries.len() && stands_for(#[trigger] entries[i], found),
    decreases entries.len(),
{
    if entries.len() == 0 {
        assert(listed(entries) =~= Seq::<(SnapKey, bool)>::empty());
    } else {
        let front = entries.drop_last();
        let last = entries.last();
        let before = listed(front);
        let after = listed(entries);
        law_listed_exactly(front, found);
        assert(last == entries[entries.len() - 1]);
        if exists|i: int| 0 <= i < entries.len() && stands_for(#[trigger] entries[i], found) {
            let i = choose|i: int|
                0 <= i < entries.len() && stands_for(#[trigger] entries[i], found);
            if i < front.len() {
                assert(stands_for(front[i], found));
            }
        }
        if exists|i: int| 0 <= i < front.len() && stands_for(#[trigger] front[i], found) {
            let i = choose|i: int| 0 <= i < front.len() && stands_for(#[trigger] front[i], found);
            assert(stands_for(entries[i], found));
            let k = choose|k: int| 0 <= k < before.len() && before[k] == found;
            assert(after[k] == found);
        }
        if stands_for(last, found) {
            assert(after[before.len() as int] == found);
        }
        if after.contains(found) && !stands_for(last, found) {
            let k = choose|k: int| 0 <= k < after.len() && after[k] == found;
            assert(before[k] == found);
            let i = choose|i: int| 0 <= i < front.len() && stands_for(#[trigger] front[i], found);
            assert(stands_for(entries[i], found));
        }
    }
}

/// A directory entry is a file whose name tells this snapshot.
pub open spec fn stands_for(entry: DirEntry, found: (SnapKey, bool)) -> bool {
    &&& entry.is_file
    &&& entry.name matches Some(name) && snap_of_name(name@) == Some(found)
}

/// A list has as many elements as the directory has files whose names tell a snapshot.
pub proof fn law_listed_count(entries: Seq<DirEntry>)
    ensures
        listed(entries).len() == entries.filter(
            |entry: DirEntry|
                entry.is_file && entry.name is Some && snap_of_name(entry.name.unwrap()@) is Some,
        ).len(),
    decreases entries.len(),
{
    let tells = |entry: DirEntry|
        entry.is_file && entry.name is Some && snap_of_name(entry.name.unwrap()@) is Some;
    reveal(Seq::filter);
    if entries.len() > 0 {
        law_listed_count(entries.drop_last());
        assert(entries.drop_last().filter(tells).len() == listed(entries.drop_last()).len());
        assert(tells(entries.last()) <==> snap_of_entry(entries.last()) is Some);
    }
}

/// A snapshot is on its way out exactly if it is registered as being sent or generated, and on its
/// way in exactly if it is registered as being received or applied.
pub proof fn law_what_counts(reg: Registry, key: SnapKey)
    ensures
        outgoing_keys(reg).contains(key) <==> registered(reg, key, SnapEntry::Sending)
            || registered(reg, key, SnapEntry::Generating),
        incoming_keys(reg).contains(key) <==> registered(reg, key, SnapEntry::Receiving)
            || registered(reg, key, SnapEntry::Applying),
{
}

/// Registering that a snapshot is sent or generated puts its key among those on their way out, and
/// changes nothing about those on their way in; registering that it is received or applied does the
/// opposite.
pub proof fn law_registration_counts(reg: Registry, key: SnapKey, entry: SnapEntry)
    ensures
        outgoing_keys(after_register(reg, key, entry)) == (if entry == SnapEntry::Sending || entry
            == SnapEntry::Generating {
            outgoing_keys(reg).insert(key)
        } else {
            outgoing_keys(reg)
        }),
        incoming_keys(after_register(reg, key, entry)) == (if entry == SnapEntry::Receiving || entry
            == SnapEntry::Applying {
            incoming_keys(reg).insert(key)
        } else {
            incoming_keys(reg)
        }),
{
    let after = after_register(reg, key, entry);
    assert forall|other: SnapKey| #[trigger] outgoing_keys(after).contains(other) <==> (
    outgoing_keys(reg).contains(other) || (other == key && (entry == SnapEntry::Sending || entry
        == SnapEntry::Generating))) by {
        law_what_counts(reg, other);
        law_what_counts(after, other);
        law_registered_after(reg, key, entry, other, SnapEntry::Sending);
        law_registered_after(reg, key, entry, other, SnapEntry::Generating);
    }
    assert forall|other: SnapKey| #[trigger] incoming_keys(after).contains(other) <==> (
    incoming_keys(reg).contains(other) || (other == key && (entry == SnapEntry::Receiving || entry
        == SnapEntry::Applying))) by {
        law_what_counts(reg, other);
        law_what_counts(after, other);
        law_registered_after(reg, key, entry, other, SnapEntry::Receiving);
        law_registered_after(reg, key, entry, other, SnapEntry::Applying);
    }
    assert(outgoing_keys(after) =~= if entry == SnapEntry::Sending || entry
        == SnapEntry::Generating {
        outgoing_keys(reg).insert(key)
    } else {
        outgoing_keys(reg)
    });
    assert(incoming_keys(after) =~= if entry == SnapEntry::Receiving || entry
        == SnapEntry::Applying {
        incoming_keys(reg).insert(key)
    } else {
        incoming_keys(reg)
    });
}

/// One snapshot with which one thing is done counts on one side only.
pub proof fn law_single_registration_counts(key: SnapKey, entry: SnapEntry)
    ensures
        ({
            let reg = after_register(Registry::empty(), key, entry);
            let out = entry == SnapEntry::Sending || entry == SnapEntry::Generating;
            &&& outgoing_keys(reg).len() == if out {
                1nat
            } else {
                0nat
            }
            &&& incoming_keys(reg).len() == if out {
                0nat
            } else {
                1nat
            }
        }),
{
    let none = Registry::empty();
    law_registration_counts(none, key, entry);
    assert(outgoing_keys(none) =~= Set::<SnapKey>::empty());
    assert(incoming_keys(none) =~= Set::<SnapKey>::empty());
}

/// Counting goes file by file: the size of a listing is that of its parts together, and an entry
/// counts with its length exactly if it is a file whose name ends with a data suffix and not with
/// the temporary one.
pub proof fn law_counting_goes_by_file(
    a: Seq<(DirEntry, u64)>,
    b: Seq<(DirEntry, u64)>,
    entry: DirEntry,
    len: u64,
)
    ensures
        counted_size(a + b) == counted_size(a) + counted_size(b),
        counted_size(seq![(entry, len)]) == (if entry.is_file && entry.name is Some && !ends_with(
            entry.name.unwrap()@,
            ".tmp"@,
        ) && (ends_with(entry.name.unwrap()@, ".snap"@) || ends_with(
            entry.name.unwrap()@,
            ".sst"@,
        )) {
            len as nat
        } else {
            0
        }),
    decreases b.len(),
{
    let one = seq![(entry, len)];
    assert(one.drop_last() =~= Seq::<(DirEntry, u64)>::empty());
    assert(counted_size(one.drop_last()) == 0);
    if b.len() == 0 {
        assert(a + b =~= a);
    } else {
        law_counting_goes_by_file(a, b.drop_last(), entry, len);
        assert((a + b).drop_last() =~= a + b.drop_last());
    }
}

/// A snapshot is received with a file for each column family exactly if its message says version
/// two.
pub proof fn law_received_form(version: u64)
    ensures
        has_cf_files(version) <==> version == 2,
{
}

/// A snapshot in one file that is to be written or read stands in the directory under the name of
/// its key and direction; only one that is to be written can be, and nothing of it was.
pub proof fn law_single_file_snapshots(
    snap: v1::Snap,
    dir: Seq<char>,
    is_sending: bool,
    key: SnapKey,
)
    ensures
        v1_for_writing(snap, dir, is_sending, key) ==> snap.file() == path_in(
            dir,
            snap_file_name(is_sending, key),
        ) && snap.wf() && snap.writable() && snap.tmp_file() is None && snap.written().len() == 0,
        v1_for_reading(snap, dir, is_sending, key) ==> snap.file() == path_in(
            dir,
            snap_file_name(is_sending, key),
        ) && snap.wf() && !snap.writable() && snap.tmp_file() is None,
{
}

} // verus!
