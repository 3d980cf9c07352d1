//! Inventories of regular files.

use crate::error::ManifestError;
use crate::path::{PathComponent, Relation, SyncPath};
use vstd::prelude::*;

verus! {

/// What a manifest entry is. Only regular files are listed.
#[derive(Debug, Clone, Copy, PartialEq, Eq, Structural)]
pub enum EntryKind {
    File,
}

impl EntryKind {
    /// The kind in words.
    pub fn to_string(&self) -> (text: String)
        ensures
            text@ == "file"@,
    {
        "file".to_string()
    }
}

/// What is recorded of a file: its length, and when it was modified, in seconds
/// since the Unix epoch, where that is known.
#[derive(Debug, Clone, Copy, PartialEq, Eq, Structural)]
pub struct EntryMetadata {
    pub len: u64,
    pub modified_unix_secs: Option<u64>,
}

/// One file, under its path relative to the scanned root.
///
/// A file `/archive/photos/cover.jpg` that is found under `/archive` is listed as
/// `photos/cover.jpg`. A scanned root `/archive/todo.txt` that is itself a file is
/// listed as `todo.txt`.
#[derive(Debug, PartialEq, Eq)]
pub struct ManifestEntry {
    pub path: SyncPath,
    pub kind: EntryKind,
    pub metadata: EntryMetadata,
}

/// What an entry says.
pub struct Listing {
    pub path: Seq<crate::path::Name>,
    pub kind: EntryKind,
    pub metadata: EntryMetadata,
}

impl View for ManifestEntry {
    type V = Listing;

    open spec fn view(&self) -> Listing {
        Listing { path: self.path@, kind: self.kind, metadata: self.metadata }
    }
}

/// What the entries say, in their order.
pub open spec fn listings(entries: Seq<ManifestEntry>) -> Seq<Listing> {
    entries.map_values(|entry: ManifestEntry| entry@)
}

/// Whether a scanned root is a file or a directory.
#[derive(Debug, Clone, Copy, PartialEq, Eq, Structural)]
pub enum ManifestRoot {
    File,
    Directory,
}

impl ManifestRoot {
    /// The kind of root in words.
    pub fn to_string(&self) -> (text: String)
        ensures
            text@ == match self {
                ManifestRoot::File => "file"@,
                ManifestRoot::Directory => "directory"@,
            },
    {
        match self {
            ManifestRoot::File => "file".to_string(),
            ManifestRoot::Directory => "directory".to_string(),
        }
    }
}

/// The regular files under a root. Those of a directory stand in the order of
/// their paths; a file root has exactly one entry, itself.
#[derive(Debug, PartialEq, Eq)]
pub struct Manifest {
    pub root: ManifestRoot,
    pub entries: Vec<ManifestEntry>,
}

/// One step of a walk through a directory.
#[derive(Debug, PartialEq, Eq)]
pub enum WalkStep {
    /// The walk itself failed.
    Unreadable,
    /// The metadata of a path could not be read.
    NoMetadata { path: SyncPath },
    /// The path is no regular file.
    Other { path: SyncPath },
    /// The path is a regular file.
    File { path: SyncPath, metadata: EntryMetadata },
}

/// What was found at a root.
#[derive(Debug, PartialEq, Eq)]
pub enum RootProbe {
    /// Nothing is there.
    Missing,
    /// A file, with its metadata if that could be read.
    File { metadata: Option<EntryMetadata> },
    /// A directory, with the steps of a walk through it.
    Directory { walk: Vec<WalkStep> },
}

/// Why there is no manifest.
pub enum Failure {
    MissingPath { path: Seq<crate::path::Name> },
    Walk { root: Seq<crate::path::Name> },
    Metadata { path: Seq<crate::path::Name> },
    RelativePath { path: Seq<crate::path::Name> },
    MissingFileName { path: Seq<crate::path::Name> },
}

impl View for ManifestError {
    type V = Failure;

    open spec fn view(&self) -> Failure {
        match self {
            ManifestError::MissingPath { path } => Failure::MissingPath { path: path@ },
            ManifestError::Walk { root } => Failure::Walk { root: root@ },
            ManifestError::Metadata { path } => Failure::Metadata { path: path@ },
            ManifestError::RelativePath { path } => Failure::RelativePath { path: path@ },
            ManifestError::MissingFileName { path } => Failure::MissingFileName { path: path@ },
        }
    }
}

/// The path under which a file is listed: its name if it is the root itself,
/// otherwise what follows the root.
pub open spec fn listed_path(
    path: Seq<crate::path::Name>,
    root: Seq<crate::path::Name>,
) -> Result<Seq<crate::path::Name>, Failure> {
    if path == root {
        match crate::path::leaf_of(path) {
            Some(name) => Ok(seq![crate::path::Name::Normal(name)]),
            None => Err(Failure::MissingFileName { path }),
        }
    } else if crate::path::begins_with(path, root) {
        Ok(path.skip(root.len() as int))
    } else {
        Err(Failure::RelativePath { path })
    }
}

/// The entry of a file.
pub open spec fn listed(
    path: Seq<crate::path::Name>,
    root: Seq<crate::path::Name>,
    metadata: EntryMetadata,
) -> Result<Listing, Failure> {
    match listed_path(path, root) {
        Ok(path) => Ok(Listing { path, kind: EntryKind::File, metadata }),
        Err(failure) => Err(failure),
    }
}

/// The entries of the regular files among `walk`, in the order of the walk, or
/// the first failure.
pub open spec fn collected(walk: Seq<WalkStep>, root: Seq<crate::path::Name>) -> Result<
    Seq<Listing>,
    Failure,
>
    decreases walk.len(),
{
    if walk.len() == 0 {
        Ok(Seq::empty())
    } else {
        match collected(walk.drop_last(), root) {
            Err(failure) => Err(failure),
            Ok(entries) => match walk.last() {
                WalkStep::Unreadable => Err(Failure::Walk { root }),
                WalkStep::NoMetadata { path } => Err(Failure::Metadata { path: path@ }),
                WalkStep::Other { .. } => Ok(entries),
                WalkStep::File { path, metadata } => match listed(path@, root, metadata) {
                    Ok(entry) => Ok(entries.push(entry)),
                    Err(failure) => Err(failure),
                },
            },
        }
    }
}

/// Whether no entry comes before an earlier one.
pub open spec fn in_path_order(entries: Seq<Listing>) -> bool {
    forall|i: int, j: int|
        0 <= i < j < entries.len() ==> !crate::path::path_before(
            #[trigger] entries[j].path,
            #[trigger] entries[i].path,
        )
}

/// The entries listed under `path`, in their order.
pub open spec fn under(entries: Seq<Listing>, path: Seq<crate::path::Name>) -> Seq<Listing>
    decreases entries.len(),
{
    if entries.len() == 0 {
        Seq::empty()
    } else if entries.last().path == path {
        under(entries.drop_last(), path).push(entries.last())
    } else {
        under(entries.drop_last(), path)
    }
}

/// Whether `sorted` holds the entries of `entries` in the order of their paths,
/// those of one path as they stood.
pub open spec fn sorts(entries: Seq<Listing>, sorted: Seq<Listing>) -> bool {
    &&& in_path_order(sorted)
    &&& forall|path: Seq<crate::path::Name>| #[trigger] under(sorted, path) == under(entries, path)
}

/// What `left` and `right`, both in path order, are together. On equal paths the
/// entries of `left` come first.
spec fn merged(left: Seq<Listing>, right: Seq<Listing>) -> Seq<Listing>
    decreases left.len() + right.len(),
{
    if left.len() == 0 {
        right
    } else if right.len() == 0 {
        left
    } else if crate::path::path_before(right.last().path, left.last().path) {
        merged(left.drop_last(), right).push(left.last())
    } else {
        merged(left, right.drop_last()).push(right.last())
    }
}

proof fn lemma_under_push(entries: Seq<Listing>, entry: Listing, path: Seq<crate::path::Name>)
    ensures
        under(entries.push(entry), path) == if entry.path == path {
            under(entries, path).push(entry)
        } else {
            under(entries, path)
        },
{
    assert(entries.push(entry).drop_last() =~= entries);
}

proof fn lemma_under_append(
    left: Seq<Listing>,
    right: Seq<Listing>,
    path: Seq<crate::path::Name>,
)
    ensures
        under(left + right, path) == under(left, path) + under(right, path),
    decreases right.len(),
{
    if right.len() == 0 {
        assert(left + right =~= left);
        assert(under(left, path) + under(right, path) =~= under(left, path));
    } else {
        assert((left + right).drop_last() =~= left + right.drop_last());
        lemma_under_append(left, right.drop_last(), path);
        assert((left + right).last() == right.last());
        assert(under(left + right, path) =~= under(left, path) + under(right, path));
    }
}

/// Entries that all come after `path` hold none under it.
proof fn lemma_under_none(entries: Seq<Listing>, path: Seq<crate::path::Name>)
    requires
        forall|i: int| 0 <= i < entries.len() ==> (#[trigger] entries[i]).path != path,
    ensures
        under(entries, path) == Seq::<Listing>::empty(),
    decreases entries.len(),
{
    if entries.len() > 0 {
        lemma_under_none(entries.drop_last(), path);
    }
}

/// If `limit` comes before none of the entries of either side, nor of the merge.
proof fn lemma_merged_bounded(left: Seq<Listing>, right: Seq<Listing>, limit: Seq<
    crate::path::Name,
>)
    requires
        forall|i: int|
            0 <= i < left.len() ==> !crate::path::path_before(limit, (#[trigger] left[i]).path),
        forall|i: int|
            0 <= i < right.len() ==> !crate::path::path_before(limit, (#[trigger] right[i]).path),
    ensures
        forall|i: int|
            0 <= i < merged(left, right).len() ==> !crate::path::path_before(
                limit,
                (#[trigger] merged(left, right)[i]).path,
            ),
    decreases left.len() + right.len(),
{
    if left.len() > 0 && right.len() > 0 {
        if crate::path::path_before(right.last().path, left.last().path) {
            lemma_merged_bounded(left.drop_last(), right, limit);
        } else {
            lemma_merged_bounded(left, right.drop_last(), limit);
        }
    }
}

/// A merge of sorted entries is sorted, and keeps every entry.
proof fn lemma_merged_sorts(left: Seq<Listing>, right: Seq<Listing>)
    requires
        in_path_order(left),
        in_path_order(right),
    ensures
        sorts(left + right, merged(left, right)),
    decreases left.len() + right.len(),
{
    let all = merged(left, right);
    if left.len() == 0 {
        assert(left + right =~= right);
    } else if right.len() == 0 {
        assert(left + right =~= left);
    } else if crate::path::path_before(right.last().path, left.last().path) {
        let rest = merged(left.drop_last(), right);
        let last = left.last();
        lemma_merged_sorts(left.drop_last(), right);
        assert forall|i: int| 0 <= i < right.len() implies !crate::path::path_before(
            last.path,
            (#[trigger] right[i]).path,
        ) by {
            if crate::path::path_before(last.path, right[i].path) {
                crate::path::lemma_path_before_transitive(
                    right.last().path,
                    last.path,
                    right[i].path,
                );
                crate::path::lemma_path_before_total(right.last().path, right.last().path);
            }
        }
        lemma_merged_bounded(left.drop_last(), right, last.path);
        assert forall|path: Seq<crate::path::Name>| #[trigger] under(all, path) == under(
            left + right,
            path,
        ) by {
            lemma_under_push(rest, last, path);
            lemma_under_append(left, right, path);
            lemma_under_append(left.drop_last(), right, path);
            assert(under(rest, path) == under(left.drop_last() + right, path));
            if last.path == path {
                assert forall|i: int| 0 <= i < right.len() implies (#[trigger] right[i]).path
                    != path by {
                    crate::path::lemma_path_before_total(right.last().path, path);
                    if right[i].path == path {
                        assert(crate::path::path_before(right.last().path, right[i].path));
                        if i == right.len() - 1 {
                            crate::path::lemma_path_before_irreflexive(path);
                        }
                    }
                }
                lemma_under_none(right, path);
                assert(under(left.drop_last(), path) + Seq::<Listing>::empty() =~= under(
                    left.drop_last(),
                    path,
                ));
                assert(under(left, path) + Seq::<Listing>::empty() =~= under(left, path));
            }
        }
    } else {
        let rest = merged(left, right.drop_last());
        let last = right.last();
        lemma_merged_sorts(left, right.drop_last());
        assert forall|i: int| 0 <= i < left.len() implies !crate::path::path_before(
            last.path,
            (#[trigger] left[i]).path,
        ) by {
            if crate::path::path_before(last.path, left[i].path) {
                crate::path::lemma_path_before_total(left.last().path, left[i].path);
                if crate::path::path_before(left[i].path, left.last().path) {
                    crate::path::lemma_path_before_transitive(
                        last.path,
                        left[i].path,
                        left.last().path,
                    );
                }
            }
        }
        lemma_merged_bounded(left, right.drop_last(), last.path);
        assert forall|path: Seq<crate::path::Name>| #[trigger] under(all, path) == under(
            left + right,
            path,
        ) by {
            lemma_under_push(rest, last, path);
            assert((left + right).drop_last() =~= left + right.drop_last());
            assert((left + right).last() == last);
            assert(under(rest, path) == under(left + right.drop_last(), path));
        }
    }
}

/// Sorting is done piece by piece.
proof fn lemma_sorts_pieces(
    left: Seq<Listing>,
    right: Seq<Listing>,
    sorted_left: Seq<Listing>,
    sorted_right: Seq<Listing>,
)
    requires
        sorts(left, sorted_left),
        sorts(right, sorted_right),
    ensures
        sorts(left + right, merged(sorted_left, sorted_right)),
{
    lemma_merged_sorts(sorted_left, sorted_right);
    let all = merged(sorted_left, sorted_right);
    assert forall|path: Seq<crate::path::Name>| #[trigger] under(all, path) == under(
        left + right,
        path,
    ) by {
        lemma_under_append(left, right, path);
        lemma_under_append(sorted_left, sorted_right, path);
        assert(under(all, path) == under(sorted_left + sorted_right, path));
        assert(under(sorted_left, path) == under(left, path));
        assert(under(sorted_right, path) == under(right, path));
    }
}

/// Merges two runs of entries, each in path order.
fn merge_entries(left: Vec<ManifestEntry>, right: Vec<ManifestEntry>) -> (all: Vec<ManifestEntry>)
    ensures
        listings(all@) == merged(listings(left@), listings(right@)),
{
    let ghost whole = merged(listings(left@), listings(right@));
    let mut left = left;
    let mut right = right;
    // The entries come off the two ends, so they pile up last first.
    let mut reversed: Vec<ManifestEntry> = Vec::new();
    assert(whole =~= merged(listings(left@), listings(right@)) + listings(reversed@).reverse());
    while left.len() > 0 && right.len() > 0
        invariant
            whole == merged(listings(left@), listings(right@)) + listings(reversed@).reverse(),
        decreases left@.len() + right@.len(),
    {
        let ghost (before_left, before_right, before) = (left@, right@, reversed@);
        let from_left = match right[right.len() - 1].path.relate(&left[left.len() - 1].path) {
            Relation::Before => true,
            _ => false,
        };
        assert(listings(before_left).last() == before_left.last()@);
        assert(listings(before_right).last() == before_right.last()@);
        assert(listings(before_left).drop_last() =~= listings(before_left.drop_last()));
        assert(listings(before_right).drop_last() =~= listings(before_right.drop_last()));
        let taken = if from_left {
            left.pop()
        } else {
            right.pop()
        };
        if let Some(entry) = taken {
            reversed.push(entry);
            assert(listings(reversed@).reverse() =~= seq![entry@] + listings(before).reverse());
            assert(whole =~= merged(listings(left@), listings(right@)) + listings(
                reversed@,
            ).reverse());
        }
    }
    let mut rest = if left.len() > 0 {
        left
    } else {
        right
    };
    assert(whole == listings(rest@) + listings(reversed@).reverse());
    while reversed.len() > 0
        invariant
            whole == listings(rest@) + listings(reversed@).reverse(),
        decreases reversed@.len(),
    {
        let ghost (before, before_rest) = (reversed@, rest@);
        if let Some(entry) = reversed.pop() {
            rest.push(entry);
            assert(listings(before).reverse() =~= seq![entry@] + listings(reversed@).reverse());
            assert(listings(rest@) =~= listings(before_rest).push(entry@));
            assert(whole =~= listings(rest@) + listings(reversed@).reverse());
        }
    }
    assert(whole =~= listings(rest@));
    rest
}

/// Sorts entries by their paths, and leaves those of one path as they stood.
pub fn sort_entries(entries: Vec<ManifestEntry>) -> (sorted: Vec<ManifestEntry>)
    ensures
        sorts(listings(entries@), listings(sorted@)),
    decreases entries@.len(),
{
    if entries.len() < 2 {
        return entries;
    }
    let ghost all = entries@;
    let mut left = entries;
    let middle: usize = left.len() / 2;
    let right = left.split_off(middle);
    assert(listings(left@) + listings(right@) =~= listings(all));
    let ghost (first, second) = (listings(left@), listings(right@));
    let sorted_left = sort_entries(left);
    let sorted_right = sort_entries(right);
    proof {
        lemma_sorts_pieces(first, second, listings(sorted_left@), listings(sorted_right@));
    }
    merge_entries(sorted_left, sorted_right)
}

impl ManifestEntry {
    /// The entry of the file `path`, found at or under `root`.
    pub fn build_file_entry(path: &SyncPath, root: &SyncPath, metadata: EntryMetadata) -> (entry:
        Result<Self, ManifestError>)
        ensures
            match listed(path@, root@, metadata) {
                Ok(listing) => entry matches Ok(found) && found@ == listing,
                Err(failure) => entry matches Err(error) && error@ == failure,
            },
    {
        let relative = if path.same_as(root) {
            match path.file_name() {
                Some(name) => {
                    let relative = SyncPath::new(vec![PathComponent::Normal(name)]);
                    assert(relative@ =~= seq![crate::path::Name::Normal(name@)]);
                    relative
                },
                None => {
                    return Err(ManifestError::MissingFileName { path: path.clone() });
                },
            }
        } else {
            match path.strip_prefix(root) {
                Some(relative) => relative,
                None => {
                    return Err(ManifestError::RelativePath { path: path.clone() });
                },
            }
        };
        Ok(ManifestEntry { path: relative, kind: EntryKind::File, metadata })
    }
}

/// The entries of the regular files among `walk`, in the order of the walk.
fn collect_entries(walk: &Vec<WalkStep>, root: &SyncPath) -> (entries: Result<
    Vec<ManifestEntry>,
    ManifestError,
>)
    ensures
        match collected(walk@, root@) {
            Ok(expected) => entries matches Ok(found) && listings(found@) == expected,
            Err(failure) => entries matches Err(error) && error@ == failure,
        },
{
    let mut entries: Vec<ManifestEntry> = Vec::new();
    let mut index: usize = 0;
    assert(listings(entries@) =~= Seq::<Listing>::empty());
    while index < walk.len()
        invariant
            index <= walk@.len(),
            collected(walk@.take(index as int), root@) == Ok::<Seq<Listing>, Failure>(
                listings(entries@),
            ),
        decreases walk.len() - index,
    {
        let ghost before = entries@;
        let ghost next = walk@.take(index + 1);
        assert(next.drop_last() =~= walk@.take(index as int));
        assert(next.last() == walk@[index as int]);
        match &walk[index] {
            WalkStep::Unreadable => {
                proof {
                    lemma_collected_fails(walk@, index + 1, root@);
                }
                return Err(ManifestError::Walk { root: root.clone() });
            },
            WalkStep::NoMetadata { path } => {
                proof {
                    lemma_collected_fails(walk@, index + 1, root@);
                }
                return Err(ManifestError::Metadata { path: path.clone() });
            },
            WalkStep::Other { .. } => {},
            WalkStep::File { path, metadata } => {
                match ManifestEntry::build_file_entry(path, root, *metadata) {
                    Ok(entry) => {
                        entries.push(entry);
                        assert(listings(entries@) =~= listings(before).push(entry@));
                    },
                    Err(error) => {
                        proof {
                            lemma_collected_fails(walk@, index + 1, root@);
                        }
                        return Err(error);
                    },
                }
            },
        }
        index = index + 1;
    }
    assert(walk@.take(index as int) =~= walk@);
    Ok(entries)
}

/// A failure stays whatever the walk goes on to find.
proof fn lemma_collected_fails(walk: Seq<WalkStep>, upto: int, root: Seq<crate::path::Name>)
    requires
        0 <= upto <= walk.len(),
        collected(walk.take(upto), root) is Err,
    ensures
        collected(walk, root) == collected(walk.take(upto), root),
    decreases walk.len() - upto,
{
    if upto == walk.len() {
        assert(walk.take(upto) =~= walk);
    } else {
        assert(walk.take(upto + 1).drop_last() =~= walk.take(upto));
        lemma_collected_fails(walk, upto + 1, root);
    }
}

/// Whether `result` is the manifest of what was found at `root`.
pub open spec fn scans(
    root: Seq<crate::path::Name>,
    probe: RootProbe,
    result: Result<Manifest, ManifestError>,
) -> bool {
    match probe {
        RootProbe::Missing => result matches Err(error) && error@ == (Failure::MissingPath {
            path: root,
        }),
        RootProbe::File { metadata: None } => result matches Err(error) && error@
            == (Failure::Metadata { path: root }),
        RootProbe::File { metadata: Some(metadata) } => match listed(root, root, metadata) {
            Err(failure) => result matches Err(error) && error@ == failure,
            Ok(listing) => {
                &&& result matches Ok(manifest)
                &&& manifest.root == ManifestRoot::File
                &&& listings(manifest.entries@) == seq![listing]
            },
        },
        RootProbe::Directory { walk } => match collected(walk@, root) {
            Err(failure) => result matches Err(error) && error@ == failure,
            Ok(entries) => {
                &&& result matches Ok(manifest)
                &&& manifest.root == ManifestRoot::Directory
                &&& sorts(entries, listings(manifest.entries@))
            },
        },
    }
}

impl Manifest {
    /// The manifest of what was found at `root`.
    ///
    /// A walk gives no stable order, so the entries of a directory are sorted by
    /// their paths.
    pub fn scan(root: &SyncPath, probe: RootProbe) -> (manifest: Result<Self, ManifestError>)
        ensures
            scans(root@, probe, manifest),
    {
        match probe {
            RootProbe::Missing => Err(ManifestError::MissingPath { path: root.clone() }),
            RootProbe::File { metadata: None } => Err(
                ManifestError::Metadata { path: root.clone() },
            ),
            RootProbe::File { metadata: Some(metadata) } => {
                let entry = match ManifestEntry::build_file_entry(root, root, metadata) {
                    Ok(entry) => entry,
                    Err(error) => {
                        return Err(error);
                    },
                };
                let entries = vec![entry];
                assert(listings(entries@) =~= seq![entry@]);
                Ok(Manifest { root: ManifestRoot::File, entries })
            },
            RootProbe::Directory { walk } => {
                let entries = match collect_entries(&walk, root) {
                    Ok(entries) => entries,
                    Err(error) => {
                        return Err(error);
                    },
                };
                Ok(Manifest { root: ManifestRoot::Directory, entries: sort_entries(entries) })
            },
        }
    }
}

/// Whether every path is listed once.
pub open spec fn lists_once(entries: Seq<Listing>) -> bool {
    forall|i: int, j: int|
        0 <= i < j < entries.len() ==> (#[trigger] entries[i]).path != (#[trigger] entries[j]).path
}

/// Entries that are listed under their own path, and nothing else is.
proof fn lemma_under_contains(entries: Seq<Listing>, entry: Listing)
    ensures
        under(entries, entry.path).contains(entry) <==> entries.contains(entry),
    decreases entries.len(),
{
    if entries.len() > 0 {
        let last = entries.last();
        let rest = entries.drop_last();
        lemma_under_contains(rest, entry);
        if rest.contains(entry) {
            let i = choose|i: int| 0 <= i < rest.len() && rest[i] == entry;
            assert(entries[i] == entry);
            if last.path == entry.path {
                let k = choose|k: int|
                    0 <= k < under(rest, entry.path).len() && under(rest, entry.path)[k] == entry;
                assert(under(entries, entry.path)[k] == entry);
            }
        }
        if last == entry {
            assert(entries[entries.len() - 1] == entry);
            assert(under(entries, entry.path).last() == entry);
        }
        if entries.contains(entry) && last != entry {
            let i = choose|i: int| 0 <= i < entries.len() && entries[i] == entry;
            assert(rest[i] == entry);
        }
        if under(entries, entry.path).contains(entry) && last != entry {
            let k = choose|k: int|
                0 <= k < under(entries, entry.path).len() && under(entries, entry.path)[k]
                    == entry;
            if last.path == entry.path {
                assert(under(rest, entry.path)[k] == entry);
            }
        }
    }
}

/// Sorting neither loses nor adds an entry.
pub proof fn lemma_sorting_keeps_entries(entries: Seq<Listing>, sorted: Seq<Listing>)
    requires
        sorts(entries, sorted),
    ensures
        forall|entry: Listing| #[trigger] sorted.contains(entry) <==> entries.contains(entry),
{
    assert forall|entry: Listing| #[trigger] sorted.contains(entry) <==> entries.contains(
        entry,
    ) by {
        lemma_under_contains(entries, entry);
        lemma_under_contains(sorted, entry);
        assert(under(sorted, entry.path) == under(entries, entry.path));
    }
}

proof fn lemma_under_len(entries: Seq<Listing>, path: Seq<crate::path::Name>)
    requires
        lists_once(entries),
    ensures
        under(entries, path).len() <= 1,
    decreases entries.len(),
{
    if entries.len() > 0 {
        let rest = entries.drop_last();
        assert(lists_once(rest)) by {
            assert forall|i: int, j: int| 0 <= i < j < rest.len() implies (#[trigger] rest[i]).path
                != (#[trigger] rest[j]).path by {
                assert(entries[i].path != entries[j].path);
            }
        }
        lemma_under_len(rest, path);
        if entries.last().path == path {
            assert forall|i: int| 0 <= i < rest.len() implies (#[trigger] rest[i]).path != path by {
                assert(entries[i].path != entries[entries.len() - 1].path);
            }
            lemma_under_none(rest, path);
        }
    }
}

/// Two entries under one path are two entries of what is listed under it.
proof fn lemma_under_counts_two(entries: Seq<Listing>, i: int, j: int)
    requires
        0 <= i < j < entries.len(),
        entries[i].path == entries[j].path,
    ensures
        under(entries, entries[i].path).len() >= 2,
    decreases entries.len(),
{
    let path = entries[i].path;
    let rest = entries.drop_last();
    if j < entries.len() - 1 {
        lemma_under_counts_two(rest, i, j);
    } else {
        assert(rest[i] == entries[i]);
        lemma_under_contains(rest, entries[i]);
        assert(rest.contains(entries[i]));
        assert(under(rest, path).len() >= 1);
    }
}

/// Sorting entries of different paths puts each strictly before the next.
pub proof fn lemma_sorted_paths_increase(entries: Seq<Listing>, sorted: Seq<Listing>)
    requires
        sorts(entries, sorted),
        lists_once(entries),
    ensures
        lists_once(sorted),
        forall|i: int, j: int|
            0 <= i < j < sorted.len() ==> crate::path::path_before(
                (#[trigger] sorted[i]).path,
                (#[trigger] sorted[j]).path,
            ),
{
    assert forall|i: int, j: int| 0 <= i < j < sorted.len() implies crate::path::path_before(
        (#[trigger] sorted[i]).path,
        (#[trigger] sorted[j]).path,
    ) by {
        let path = sorted[i].path;
        if path == sorted[j].path {
            lemma_under_counts_two(sorted, i, j);
            lemma_under_len(entries, path);
            assert(under(sorted, path) == under(entries, path));
        }
        crate::path::lemma_path_before_total(path, sorted[j].path);
        assert(!crate::path::path_before(sorted[j].path, sorted[i].path));
    }
    assert forall|i: int, j: int| 0 <= i < j < sorted.len() implies (#[trigger] sorted[i]).path != (
    #[trigger] sorted[j]).path by {
        crate::path::lemma_path_before_irreflexive(sorted[i].path);
    }
}

/// Two strictly ordered lists of the same entries are the same list.
proof fn lemma_ordered_lists_agree(left: Seq<Listing>, right: Seq<Listing>)
    requires
        forall|i: int, j: int|
            0 <= i < j < left.len() ==> crate::path::path_before(
                (#[trigger] left[i]).path,
                (#[trigger] left[j]).path,
            ),
        forall|i: int, j: int|
            0 <= i < j < right.len() ==> crate::path::path_before(
                (#[trigger] right[i]).path,
                (#[trigger] right[j]).path,
            ),
        forall|entry: Listing| #[trigger] left.contains(entry) <==> right.contains(entry),
    ensures
        left == right,
    decreases left.len(),
{
    if left.len() == 0 {
        if right.len() > 0 {
            assert(right.contains(right[0]));
            assert(left.contains(right[0]));
        }
        assert(left =~= right);
    } else {
        let first = left.last();
        assert(left[left.len() - 1] == first);
        assert(left.contains(first));
        assert(right.contains(first));
        let second = right.last();
        let k = choose|k: int| 0 <= k < right.len() && right[k] == first;
        assert(right[right.len() - 1] == second);
        assert(right.contains(second));
        assert(left.contains(second));
        let m = choose|m: int| 0 <= m < left.len() && left[m] == second;
        if k < right.len() - 1 {
            assert(crate::path::path_before(right[k].path, right[right.len() - 1].path));
            if m < left.len() - 1 {
                assert(crate::path::path_before(left[m].path, left[left.len() - 1].path));
            }
            crate::path::lemma_path_before_total(first.path, second.path);
        }
        assert(first == second);
        let (a, b) = (left.drop_last(), right.drop_last());
        assert forall|entry: Listing| #[trigger] a.contains(entry) <==> b.contains(entry) by {
            if a.contains(entry) {
                let i = choose|i: int| 0 <= i < a.len() && a[i] == entry;
                assert(left[i] == entry);
                assert(left.contains(entry));
                let j = choose|j: int| 0 <= j < right.len() && right[j] == entry;
                if j == right.len() - 1 {
                    assert(crate::path::path_before(left[i].path, left[left.len() - 1].path));
                    crate::path::lemma_path_before_irreflexive(entry.path);
                }
                assert(b[j] == entry);
            }
            if b.contains(entry) {
                let i = choose|i: int| 0 <= i < b.len() && b[i] == entry;
                assert(right[i] == entry);
                assert(right.contains(entry));
                assert(left.contains(entry));
                let j = choose|j: int| 0 <= j < left.len() && left[j] == entry;
                if j == left.len() - 1 {
                    assert(crate::path::path_before(right[i].path, right[right.len() - 1].path));
                    crate::path::lemma_path_before_irreflexive(entry.path);
                }
                assert(a[j] == entry);
            }
        }
        lemma_ordered_lists_agree(a, b);
        assert(left =~= a.push(first));
        assert(right =~= b.push(second));
    }
}

/// A manifest does not depend on the order of the walk: two walks that list the
/// same files, each once, give the same entries in the same order.
pub proof fn lemma_walk_order_is_irrelevant(
    first: Seq<Listing>,
    second: Seq<Listing>,
    first_sorted: Seq<Listing>,
    second_sorted: Seq<Listing>,
)
    requires
        sorts(first, first_sorted),
        sorts(second, second_sorted),
        lists_once(first),
        lists_once(second),
        forall|entry: Listing| #[trigger] first.contains(entry) <==> second.contains(entry),
    ensures
        first_sorted == second_sorted,
{
    lemma_sorting_keeps_entries(first, first_sorted);
    lemma_sorting_keeps_entries(second, second_sorted);
    lemma_sorted_paths_increase(first, first_sorted);
    lemma_sorted_paths_increase(second, second_sorted);
    assert forall|entry: Listing| #[trigger]
        first_sorted.contains(entry) <==> second_sorted.contains(entry) by {
        assert(first_sorted.contains(entry) <==> first.contains(entry));
        assert(second_sorted.contains(entry) <==> second.contains(entry));
        assert(first.contains(entry) <==> second.contains(entry));
    }
    lemma_ordered_lists_agree(first_sorted, second_sorted);
}

/// What the file of a walk is listed as: under the path that follows the root, or under
/// its own name if it is the root.
pub open spec fn listing_of(step: WalkStep, root: Seq<crate::path::Name>) -> Listing {
    Listing {
        path: if step->File_path@ == root {
            seq![step->File_path@.last()]
        } else {
            step->File_path@.skip(root.len() as int)
        },
        kind: EntryKind::File,
        metadata: step->File_metadata,
    }
}

/// What the files of a walk are listed as, in the order of the walk.
pub open spec fn files_found(walk: Seq<WalkStep>, root: Seq<crate::path::Name>) -> Seq<Listing> {
    walk.filter(|step: WalkStep| step is File).map_values(
        |step: WalkStep| listing_of(step, root),
    )
}

/// Whether a step of a walk stands in the way of a manifest: the walk or the metadata
/// failed, or a file does not lie under the root, or is a root without a name.
pub open spec fn hinders(step: WalkStep, root: Seq<crate::path::Name>) -> bool {
    match step {
        WalkStep::Unreadable | WalkStep::NoMetadata { .. } => true,
        WalkStep::Other { .. } => false,
        WalkStep::File { path, .. } => {
            ||| path@.len() < root.len()
            ||| path@.take(root.len() as int) != root
            ||| path@ == root && (root.len() == 0 || !(root.last() is Normal))
        },
    }
}

/// What a step that stands in the way fails with.
pub open spec fn hindrance(step: WalkStep, root: Seq<crate::path::Name>) -> Failure {
    match step {
        WalkStep::NoMetadata { path } => Failure::Metadata { path: path@ },
        WalkStep::File { path, .. } => if path@ == root {
            Failure::MissingFileName { path: path@ }
        } else {
            Failure::RelativePath { path: path@ }
        },
        _ => Failure::Walk { root },
    }
}

/// Whether step `k` is the first that stands in the way, with `failure`.
spec fn first_hindrance(
    walk: Seq<WalkStep>,
    root: Seq<crate::path::Name>,
    failure: Failure,
    k: int,
) -> bool {
    &&& 0 <= k < walk.len()
    &&& hinders(walk[k], root)
    &&& failure == hindrance(walk[k], root)
    &&& forall|i: int| 0 <= i < k ==> !hinders(#[trigger] walk[i], root)
}

proof fn lemma_files_found_grow(walk: Seq<WalkStep>, root: Seq<crate::path::Name>)
    requires
        walk.len() > 0,
    ensures
        files_found(walk, root) == if walk.last() is File {
            files_found(walk.drop_last(), root).push(listing_of(walk.last(), root))
        } else {
            files_found(walk.drop_last(), root)
        },
{
    reveal(Seq::filter);
    let files = |step: WalkStep| step is File;
    if walk.last() is File {
        assert(walk.filter(files) == walk.drop_last().filter(files).push(walk.last()));
        assert(files_found(walk, root) =~= files_found(walk.drop_last(), root).push(
            listing_of(walk.last(), root),
        ));
    }
}

proof fn lemma_listed_or_hindered(
    path: Seq<crate::path::Name>,
    step: WalkStep,
    root: Seq<crate::path::Name>,
)
    requires
        step is File,
        path == step->File_path@,
    ensures
        match listed(path, root, step->File_metadata) {
            Ok(entry) => !hinders(step, root) && entry == listing_of(step, root),
            Err(failure) => hinders(step, root) && failure == hindrance(step, root),
        },
{
    if path == root {
        assert(path.take(root.len() as int) =~= root);
        if let Ok(entry) = listed(path, root, step->File_metadata) {
            assert(entry.path =~= listing_of(step, root).path);
        }
    }
}

proof fn lemma_collected_is_found(walk: Seq<WalkStep>, root: Seq<crate::path::Name>)
    ensures
        match collected(walk, root) {
            Ok(entries) => entries == files_found(walk, root) && forall|k: int|
                0 <= k < walk.len() ==> !hinders(#[trigger] walk[k], root),
            Err(failure) => exists|k: int| first_hindrance(walk, root, failure, k),
        },
    decreases walk.len(),
{
    if walk.len() > 0 {
        let rest = walk.drop_last();
        let last = walk.last();
        lemma_collected_is_found(rest, root);
        lemma_files_found_grow(walk, root);
        match collected(rest, root) {
            Err(failure) => {
                let k = choose|k: int| first_hindrance(rest, root, failure, k);
                assert forall|i: int| 0 <= i < k implies !hinders(#[trigger] walk[i], root) by {
                    assert(rest[i] == walk[i]);
                }
                assert(first_hindrance(walk, root, failure, k));
            },
            Ok(_) => {
                assert forall|i: int| 0 <= i < walk.len() - 1 implies !hinders(
                    #[trigger] walk[i],
                    root,
                ) by {
                    assert(rest[i] == walk[i]);
                }
                if let WalkStep::File { path, .. } = last {
                    lemma_listed_or_hindered(path@, last, root);
                }
                if let Err(failure) = collected(walk, root) {
                    assert(first_hindrance(walk, root, failure, walk.len() - 1));
                }
            },
        }
    } else {
        reveal(Seq::filter);
        assert(files_found(walk, root) =~= Seq::<Listing>::empty());
    }
}

proof fn lemma_under_count(entries: Seq<Listing>, entry: Listing)
    ensures
        entries.to_multiset().count(entry) == under(entries, entry.path).to_multiset().count(entry),
    decreases entries.len(),
{
    broadcast use vstd::seq_lib::group_to_multiset_ensures;

    if entries.len() > 0 {
        let rest = entries.drop_last();
        lemma_under_count(rest, entry);
        assert(entries =~= rest.push(entries.last()));
        vstd::seq_lib::to_multiset_build(rest, entries.last());
        vstd::seq_lib::to_multiset_build(under(rest, entry.path), entries.last());
    } else {
        assert(entries =~= under(entries, entry.path));
    }
}

/// The manifest of a directory lists the regular files that the walk found, at any
/// depth: each as often as it was found, under the path that follows the root and with
/// its metadata, and nothing else. They stand in path order. There is a manifest exactly
/// if no step stands in the way; else the first that does says why there is none.
pub proof fn lemma_scan_lists_the_files_found(
    root: Seq<crate::path::Name>,
    walk: Vec<WalkStep>,
    result: Result<Manifest, ManifestError>,
)
    requires
        scans(root, RootProbe::Directory { walk }, result),
    ensures
        result is Ok <==> forall|k: int| 0 <= k < walk@.len() ==> !hinders(#[trigger] walk@[k], root),
        result matches Ok(manifest) ==> {
            let entries = listings(manifest.entries@);
            let files = walk@.filter(|step: WalkStep| step is File);
            &&& manifest.root == ManifestRoot::Directory
            &&& manifest.entries@.len() == files.len()
            &&& entries.to_multiset() == files.map_values(
                |step: WalkStep| listing_of(step, root),
            ).to_multiset()
            &&& forall|i: int, j: int|
                0 <= i < j < entries.len() ==> !crate::path::path_before(
                    #[trigger] entries[j].path,
                    #[trigger] entries[i].path,
                )
        },
        result matches Err(error) ==> exists|k: int|
            #![trigger walk@[k]]
            0 <= k < walk@.len() && hinders(walk@[k], root) && error@ == hindrance(walk@[k], root)
                && forall|i: int| 0 <= i < k ==> !hinders(#[trigger] walk@[i], root),
{
    lemma_collected_is_found(walk@, root);
    if let Err(failure) = collected(walk@, root) {
        let k = choose|k: int| first_hindrance(walk@, root, failure, k);
        assert(hinders(walk@[k], root));
    }
    if let Ok(manifest) = result {
        let entries = listings(manifest.entries@);
        let found = files_found(walk@, root);
        assert forall|entry: Listing| entries.to_multiset().count(entry)
            == found.to_multiset().count(entry) by {
            lemma_under_count(entries, entry);
            lemma_under_count(found, entry);
            assert(under(entries, entry.path) == under(found, entry.path));
        }
        assert(entries.to_multiset() =~= found.to_multiset());
        entries.to_multiset_ensures();
        found.to_multiset_ensures();
        assert(entries.len() == found.len());
    }
}

/// A root that is a file gives one entry, under the file's own name and with its
/// metadata. A root that is missing, or whose metadata cannot be read, gives none.
pub proof fn lemma_scan_lists_a_file_root(
    root: Seq<crate::path::Name>,
    probe: RootProbe,
    result: Result<Manifest, ManifestError>,
)
    requires
        scans(root, probe, result),
        !(probe is Directory),
    ensures
        match probe {
            RootProbe::File { metadata: Some(metadata) } => if root.len() > 0
                && root.last() is Normal {
                &&& result matches Ok(manifest)
                &&& manifest.root == ManifestRoot::File
                &&& manifest.entries@.len() == 1
                &&& manifest.entries@[0].path@ == seq![root.last()]
                &&& manifest.entries@[0].kind == EntryKind::File
                &&& manifest.entries@[0].metadata == metadata
            } else {
                result matches Err(error) && error@ == (Failure::MissingFileName { path: root })
            },
            RootProbe::File { metadata: None } => result matches Err(error) && error@
                == (Failure::Metadata { path: root }),
            _ => result matches Err(error) && error@ == (Failure::MissingPath { path: root }),
        },
{
    if let Ok(manifest) = result {
        let entries = listings(manifest.entries@);
        assert(entries.len() == manifest.entries@.len());
        if entries.len() > 0 {
            assert(entries[0] == manifest.entries@[0]@);
        }
    }
}

proof fn lemma_under_is_a_filter(entries: Seq<Listing>, path: Seq<crate::path::Name>)
    ensures
        under(entries, path) == entries.filter(|entry: Listing| entry.path == path),
    decreases entries.len(),
{
    reveal(Seq::filter);
    if entries.len() > 0 {
        lemma_under_is_a_filter(entries.drop_last(), path);
    } else {
        assert(under(entries, path) =~= entries.filter(|entry: Listing| entry.path == path));
    }
}

/// Sorting puts entries in path order, with no later path in front of an earlier one, and
/// leaves those under one path in the order in which they stood.
pub proof fn lemma_sorting_is_stable(
    entries: Seq<Listing>,
    sorted: Seq<Listing>,
    path: Seq<crate::path::Name>,
)
    requires
        sorts(entries, sorted),
    ensures
        forall|i: int, j: int|
            0 <= i < j < sorted.len() ==> !crate::path::path_before(
                #[trigger] sorted[j].path,
                #[trigger] sorted[i].path,
            ),
        sorted.filter(|entry: Listing| entry.path == path) == entries.filter(
            |entry: Listing| entry.path == path,
        ),
        sorted.to_multiset() == entries.to_multiset(),
{
    lemma_under_is_a_filter(sorted, path);
    lemma_under_is_a_filter(entries, path);
    assert(under(sorted, path) == under(entries, path));
    assert forall|entry: Listing| sorted.to_multiset().count(entry)
        == entries.to_multiset().count(entry) by {
        lemma_under_count(sorted, entry);
        lemma_under_count(entries, entry);
        assert(under(sorted, entry.path) == under(entries, entry.path));
    }
    assert(sorted.to_multiset() =~= entries.to_multiset());
}

} // verus!
