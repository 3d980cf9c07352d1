//! Whether a benchmark left the destination equal to the source.

use crate::path::{Relation, SyncPath};
use crate::session::local::files_match;
use vstd::prelude::*;

verus! {

/// A file of a tree, under its path relative to the root.
#[derive(Debug, PartialEq, Eq)]
pub struct TreeFile {
    pub path: SyncPath,
    pub contents: Vec<u8>,
}

/// How a destination differs from its source.
#[derive(Debug, PartialEq, Eq)]
pub enum TreeMismatch {
    /// The trees have different numbers of files.
    FileCount { source: usize, destination: usize },
    /// The destination lacks a file.
    Missing { path: SyncPath },
    /// A file has other contents.
    Contents { path: SyncPath },
}

/// What a difference says.
pub enum Difference {
    FileCount { source: int, destination: int },
    Missing { path: Seq<crate::path::Name> },
    Contents { path: Seq<crate::path::Name> },
}

impl View for TreeMismatch {
    type V = Difference;

    open spec fn view(&self) -> Difference {
        match self {
            TreeMismatch::FileCount { source, destination } => Difference::FileCount {
                source: *source as int,
                destination: *destination as int,
            },
            TreeMismatch::Missing { path } => Difference::Missing { path: path@ },
            TreeMismatch::Contents { path } => Difference::Contents { path: path@ },
        }
    }
}

/// The first file from `from` on with the given path.
pub open spec fn position_of(
    files: Seq<TreeFile>,
    path: Seq<crate::path::Name>,
    from: int,
) -> Option<int>
    decreases files.len() - from,
{
    if from < 0 || from >= files.len() {
        None
    } else if files[from].path@ == path {
        Some(from)
    } else {
        position_of(files, path, from + 1)
    }
}

/// The first difference among the source files from `from` on.
pub open spec fn first_difference(
    source: Seq<TreeFile>,
    destination: Seq<TreeFile>,
    from: int,
) -> Option<Difference>
    decreases source.len() - from,
{
    if from < 0 || from >= source.len() {
        None
    } else {
        match position_of(destination, source[from].path@, 0) {
            None => Some(Difference::Missing { path: source[from].path@ }),
            Some(k) => if source[from].contents@ != destination[k].contents@ {
                Some(Difference::Contents { path: source[from].path@ })
            } else {
                first_difference(source, destination, from + 1)
            },
        }
    }
}

/// How two trees differ: in their number of files, or at the first source file
/// that the destination lacks or has with other contents.
pub open spec fn difference(source: Seq<TreeFile>, destination: Seq<TreeFile>) -> Option<
    Difference,
> {
    if source.len() != destination.len() {
        Some(
            Difference::FileCount {
                source: source.len() as int,
                destination: destination.len() as int,
            },
        )
    } else {
        first_difference(source, destination, 0)
    }
}

fn find_file(files: &Vec<TreeFile>, path: &SyncPath) -> (position: Option<usize>)
    ensures
        match position_of(files@, path@, 0) {
            Some(k) => position matches Some(found) && found == k && k < files@.len(),
            None => position is None,
        },
{
    let mut index: usize = 0;
    while index < files.len()
        invariant
            index <= files@.len(),
            position_of(files@, path@, 0) == position_of(files@, path@, index as int),
        decreases files.len() - index,
    {
        match files[index].path.relate(path) {
            Relation::Same => {
                return Some(index);
            },
            _ => {},
        }
        index = index + 1;
    }
    None
}

/// Refuses a destination that differs from its source.
pub fn verify_trees_match(source: &Vec<TreeFile>, destination: &Vec<TreeFile>) -> (outcome: Result<
    (),
    TreeMismatch,
>)
    ensures
        match difference(source@, destination@) {
            None => outcome is Ok,
            Some(expected) => outcome matches Err(mismatch) && mismatch@ == expected,
        },
{
    if source.len() != destination.len() {
        return Err(
            TreeMismatch::FileCount { source: source.len(), destination: destination.len() },
        );
    }
    let mut index: usize = 0;
    while index < source.len()
        invariant
            index <= source@.len(),
            difference(source@, destination@) == first_difference(
                source@,
                destination@,
                index as int,
            ),
        decreases source.len() - index,
    {
        let file = &source[index];
        let position: usize = match find_file(destination, &file.path) {
            Some(position) => position,
            None => {
                return Err(TreeMismatch::Missing { path: file.path.clone() });
            },
        };
        if !files_match(file.contents.as_slice(), destination[position].contents.as_slice()) {
            return Err(TreeMismatch::Contents { path: file.path.clone() });
        }
        index = index + 1;
    }
    Ok(())
}

/// How many files a tree has, and how many bytes they have together.
#[derive(Debug, Clone, Copy, PartialEq, Eq, Structural)]
pub struct TreeStats {
    pub files: usize,
    pub bytes: u64,
}

/// The sum of the first `count` sizes.
pub open spec fn total_of(sizes: Seq<u64>, count: int) -> int
    decreases count,
{
    if count <= 0 || count > sizes.len() {
        0
    } else {
        total_of(sizes, count - 1) + sizes[count - 1]
    }
}

proof fn lemma_total_grows(sizes: Seq<u64>, count: int, upto: int)
    requires
        0 <= count <= upto <= sizes.len(),
    ensures
        0 <= total_of(sizes, count) <= total_of(sizes, upto),
    decreases upto,
{
    if count < upto {
        lemma_total_grows(sizes, count, upto - 1);
    } else if count > 0 {
        lemma_total_grows(sizes, count - 1, count - 1);
    }
}

/// Counts the files of a tree and their bytes.
pub fn scan_tree(sizes: &Vec<u64>) -> (stats: TreeStats)
    requires
        total_of(sizes@, sizes@.len() as int) <= u64::MAX,
    ensures
        stats.files == sizes@.len(),
        stats.bytes == total_of(sizes@, sizes@.len() as int),
{
    let mut bytes: u64 = 0;
    let mut index: usize = 0;
    while index < sizes.len()
        invariant
            index <= sizes@.len(),
            total_of(sizes@, sizes@.len() as int) <= u64::MAX,
            bytes == total_of(sizes@, index as int),
        decreases sizes.len() - index,
    {
        proof {
            lemma_total_grows(sizes@, index + 1, sizes@.len() as int);
        }
        bytes = bytes + sizes[index];
        index = index + 1;
    }
    TreeStats { files: sizes.len(), bytes }
}

proof fn lemma_position_of(files: Seq<TreeFile>, path: Seq<crate::path::Name>, from: int)
    requires
        0 <= from,
    ensures
        position_of(files, path, from) matches Some(k) ==> from <= k < files.len()
            && files[k].path@ == path,
    decreases files.len() - from,
{
    if from < files.len() && files[from].path@ != path {
        lemma_position_of(files, path, from + 1);
    }
}

proof fn lemma_no_difference_from(
    source: Seq<TreeFile>,
    destination: Seq<TreeFile>,
    from: int,
    index: int,
)
    requires
        first_difference(source, destination, from) is None,
        0 <= from <= index < source.len(),
    ensures
        exists|k: int|
            0 <= k < destination.len() && (#[trigger] destination[k]).path@ == source[index].path@
                && destination[k].contents@ == source[index].contents@,
    decreases index - from,
{
    lemma_position_of(destination, source[from].path@, 0);
    if from < index {
        lemma_no_difference_from(source, destination, from + 1, index);
    } else {
        let k = position_of(destination, source[from].path@, 0)->0;
        assert(destination[k].path@ == source[index].path@);
    }
}

/// A destination that is not refused has every file of the source, under its path
/// and with its contents, and as many files as the source.
pub proof fn lemma_accepted_trees_agree(source: Seq<TreeFile>, destination: Seq<TreeFile>)
    requires
        difference(source, destination) is None,
    ensures
        source.len() == destination.len(),
        forall|i: int|
            0 <= i < source.len() ==> exists|k: int|
                0 <= k < destination.len() && (#[trigger] destination[k]).path@ == (
                #[trigger] source[i]).path@ && destination[k].contents@ == source[i].contents@,
{
    assert forall|i: int| 0 <= i < source.len() implies exists|k: int|
        0 <= k < destination.len() && (#[trigger] destination[k]).path@ == (
        #[trigger] source[i]).path@ && destination[k].contents@ == source[i].contents@ by {
        lemma_no_difference_from(source, destination, 0, i);
    }
}

proof fn lemma_position_is_first(files: Seq<TreeFile>, path: Seq<crate::path::Name>, from: int)
    requires
        0 <= from,
    ensures
        match position_of(files, path, from) {
            Some(k) => from <= k < files.len() && files[k].path@ == path && forall|i: int|
                from <= i < k ==> (#[trigger] files[i]).path@ != path,
            None => forall|i: int| from <= i < files.len() ==> (#[trigger] files[i]).path@ != path,
        },
    decreases files.len() - from,
{
    if from < files.len() && files[from].path@ != path {
        lemma_position_is_first(files, path, from + 1);
    }
}

/// Whether the destination has the file under its path and with its contents. Of several
/// files under one path the first counts.
pub open spec fn has_file(destination: Seq<TreeFile>, file: TreeFile) -> bool {
    exists|k: int|
        #![trigger destination[k]]
        0 <= k < destination.len() && destination[k].path@ == file.path@ && destination[k].contents@
            == file.contents@ && forall|i: int|
            0 <= i < k ==> (#[trigger] destination[i]).path@ != file.path@
}

/// Whether the destination has some file under the path.
pub open spec fn has_path(destination: Seq<TreeFile>, path: Seq<crate::path::Name>) -> bool {
    exists|k: int| 0 <= k < destination.len() && (#[trigger] destination[k]).path@ == path
}

proof fn lemma_difference_from(source: Seq<TreeFile>, destination: Seq<TreeFile>, from: int)
    requires
        0 <= from <= source.len(),
    ensures
        match first_difference(source, destination, from) {
            None => forall|i: int|
                from <= i < source.len() ==> has_file(destination, #[trigger] source[i]),
            Some(found) => exists|i: int|
                #![trigger source[i]]
                from <= i < source.len() && !has_file(destination, source[i]) && (forall|j: int|
                    from <= j < i ==> has_file(destination, #[trigger] source[j])) && found
                    == if has_path(destination, source[i].path@) {
                    Difference::Contents { path: source[i].path@ }
                } else {
                    Difference::Missing { path: source[i].path@ }
                },
        },
    decreases source.len() - from,
{
    if from < source.len() {
        let file = source[from];
        lemma_position_is_first(destination, file.path@, 0);
        match position_of(destination, file.path@, 0) {
            None => {
                assert(!has_file(destination, source[from]));
                assert(!has_path(destination, file.path@));
            },
            Some(k) => {
                assert(has_path(destination, file.path@)) by {
                    assert(destination[k].path@ == file.path@);
                }
                if file.contents@ == destination[k].contents@ {
                    assert(has_file(destination, file)) by {
                        assert(destination[k].path@ == file.path@);
                    }
                    lemma_difference_from(source, destination, from + 1);
                    if let Some(found) = first_difference(source, destination, from + 1) {
                        let i = choose|i: int|
                            #![trigger source[i]]
                            from + 1 <= i < source.len() && !has_file(destination, source[i]) && (
                            forall|j: int|
                                from + 1 <= j < i ==> has_file(destination, #[trigger] source[j]))
                                && found == if has_path(destination, source[i].path@) {
                                Difference::Contents { path: source[i].path@ }
                            } else {
                                Difference::Missing { path: source[i].path@ }
                            };
                        assert(!has_file(destination, source[i]));
                    }
                } else {
                    assert(!has_file(destination, source[from])) by {
                        if has_file(destination, file) {
                            let m = choose|m: int|
                                #![trigger destination[m]]
                                0 <= m < destination.len() && destination[m].path@ == file.path@
                                    && destination[m].contents@ == file.contents@ && forall|i: int|
                                    0 <= i < m ==> (#[trigger] destination[i]).path@ != file.path@;
                            if m < k {
                                assert(destination[m].path@ != file.path@);
                            } else if k < m {
                                assert(destination[k].path@ != file.path@);
                            }
                        }
                    }
                }
            },
        }
    }
}

/// A destination is accepted exactly if it has as many files as the source and each of the
/// source's. Else the numbers of files are told if they differ, and if not the first file
/// that is missing or has other contents.
pub proof fn lemma_trees_differ_where_it_is_told(source: Seq<TreeFile>, destination: Seq<TreeFile>)
    ensures
        difference(source, destination) is None <==> source.len() == destination.len()
            && forall|i: int|
            0 <= i < source.len() ==> has_file(destination, #[trigger] source[i]),
        match difference(source, destination) {
            None => true,
            Some(Difference::FileCount { source: ours, destination: theirs }) => ours
                == source.len() && theirs == destination.len() && ours != theirs,
            Some(Difference::Missing { path }) => source.len() == destination.len() && exists|i: int|
                #![trigger source[i]]
                0 <= i < source.len() && path == source[i].path@ && !has_path(destination, path)
                    && forall|j: int|
                    0 <= j < i ==> has_file(destination, #[trigger] source[j]),
            Some(Difference::Contents { path }) => source.len() == destination.len()
                && exists|i: int|
                #![trigger source[i]]
                0 <= i < source.len() && path == source[i].path@ && has_path(destination, path)
                    && !has_file(destination, source[i]) && forall|j: int|
                    0 <= j < i ==> has_file(destination, #[trigger] source[j]),
        },
{
    lemma_difference_from(source, destination, 0);
    if source.len() == destination.len() {
        if let Some(found) = first_difference(source, destination, 0) {
            let i = choose|i: int|
                #![trigger source[i]]
                0 <= i < source.len() && !has_file(destination, source[i]) && (forall|j: int|
                    0 <= j < i ==> has_file(destination, #[trigger] source[j])) && found
                    == if has_path(destination, source[i].path@) {
                    Difference::Contents { path: source[i].path@ }
                } else {
                    Difference::Missing { path: source[i].path@ }
                };
            assert(!has_file(destination, source[i]));
        }
    }
}

proof fn lemma_total_of_prefix(sizes: Seq<u64>, more: Seq<u64>, count: int)
    requires
        count <= sizes.len(),
    ensures
        total_of(sizes + more, count) == total_of(sizes, count),
    decreases count,
{
    if count > 0 {
        lemma_total_of_prefix(sizes, more, count - 1);
        assert((sizes + more)[count - 1] == sizes[count - 1]);
    }
}

/// The bytes of a tree are counted file by file: one more file adds its size.
pub proof fn lemma_totals_add_each_size(sizes: Seq<u64>, size: u64)
    ensures
        total_of(Seq::empty(), 0) == 0,
        total_of(sizes.push(size), sizes.len() as int + 1) == total_of(sizes, sizes.len() as int) + size,
{
    assert(sizes.push(size) =~= sizes + seq![size]);
    lemma_total_of_prefix(sizes, seq![size], sizes.len() as int);
}

} // verus!
