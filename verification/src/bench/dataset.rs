//! The files that benchmarks run on.
//!
//! Every byte is determined, so that runs can be repeated. One file is patterned,
//! one has long runs of zeros, and many are small texts.

use crate::bench::{Scenario, Tool};
use crate::text::{decimal, padded};
use vstd::prelude::*;
use vstd::slice::slice_subrange;

verus! {

pub const DATASET_NAME: &'static str = "mixed-tree-v1";

pub const LARGE_FILE_SIZE: usize = 8388608;

pub const ZERO_FILE_SIZE: usize = 2097152;

pub const SMALL_FILE_COUNT: usize = 64;

pub const SMALL_FILE_SIZE: usize = 2048;

pub const PREPEND_SIZE: usize = 128;

pub const INSERT_SIZE: usize = 4096;

pub const OVERWRITE_SIZE: usize = 1048576;

/// How much of a generated file is written at once.
pub const RUN_SIZE: usize = 8192;

/// The byte at `index` of a patterned file.
pub open spec fn patterned_byte(index: int) -> u8 {
    ((index * 31 + index / 97) % 251) as u8
}

/// The contents of a patterned file of `len` bytes.
pub fn patterned_bytes(len: usize) -> (bytes: Vec<u8>)
    requires
        len > 0 ==> (len - 1) * 31 + (len - 1) / 97 <= usize::MAX,
    ensures
        bytes@ == Seq::new(len as nat, |index: int| patterned_byte(index)),
        bytes@.len() == len,
        forall|i: int| 0 <= i < len ==> #[trigger] bytes@[i] == (i * 31 + i / 97) % 251,
{
    let mut bytes: Vec<u8> = Vec::new();
    let mut index: usize = 0;
    while index < len
        invariant
            index <= len,
            len > 0 ==> (len - 1) * 31 + (len - 1) / 97 <= usize::MAX,
            bytes@ == Seq::new(index as nat, |i: int| patterned_byte(i)),
        decreases len - index,
    {
        bytes.push(((index * 31 + index / 97) % 251) as u8);
        index = index + 1;
        assert(bytes@ =~= Seq::new(index as nat, |i: int| patterned_byte(i)));
    }
    bytes
}

/// The byte at `index` of a file with runs of zeros. The file is made of runs of
/// a fixed size. A run is all zeros when an even number of whole runs is left from
/// its start on, and otherwise the last quarter of every sixty-four bytes is ones.
pub open spec fn zero_run_byte(len: int, index: int) -> u8 {
    let start = index - index % RUN_SIZE as int;
    if ((len - start) / RUN_SIZE as int) % 2 == 0 || (index % RUN_SIZE as int) % 64 < 48 {
        0
    } else {
        0xFF
    }
}

/// The contents of a file of `len` bytes with runs of zeros.
pub fn zero_run_bytes(len: usize) -> (bytes: Vec<u8>)
    ensures
        bytes@ == Seq::new(len as nat, |index: int| zero_run_byte(len as int, index)),
        bytes@.len() == len,
        forall|i: int|
            0 <= i < len ==> (#[trigger] bytes@[i] == 0 || bytes@[i] == 255) && (bytes@[i] == 255
                <==> ((len - (i - i % 8192)) / 8192) % 2 == 1 && i % 64 >= 48),
{
    let mut bytes: Vec<u8> = Vec::new();
    let mut index: usize = 0;
    while index < len
        invariant
            index <= len,
            bytes@ == Seq::new(index as nat, |i: int| zero_run_byte(len as int, i)),
        decreases len - index,
    {
        let within: usize = index % RUN_SIZE;
        let remaining: usize = len - (index - within);
        let byte: u8 = if (remaining / RUN_SIZE) % 2 == 0 || within % 64 < 48 {
            0
        } else {
            0xFF
        };
        bytes.push(byte);
        index = index + 1;
        assert(bytes@ =~= Seq::new(index as nat, |i: int| zero_run_byte(len as int, i)));
    }
    bytes
}

/// `bytes`, so many times one after the other.
pub open spec fn repeated(bytes: Seq<u8>, times: int) -> Seq<u8>
    decreases times,
{
    if times <= 0 {
        Seq::empty()
    } else {
        repeated(bytes, times - 1) + bytes
    }
}

/// The contents of a text file that repeats one line.
pub fn text_bytes(line: &str, repeats: usize) -> (bytes: Vec<u8>)
    ensures
        bytes@ == repeated(vstd::utf8::encode_utf8(line@), repeats as int),
{
    let mut bytes: Vec<u8> = Vec::new();
    let mut done: usize = 0;
    assert(bytes@ =~= repeated(vstd::utf8::encode_utf8(line@), 0));
    while done < repeats
        invariant
            done <= repeats,
            bytes@ == repeated(vstd::utf8::encode_utf8(line@), done as int),
        decreases repeats - done,
    {
        let ghost before = bytes@;
        bytes.extend_from_slice(line.as_bytes());
        assert(bytes@ =~= before + vstd::utf8::encode_utf8(line@));
        done = done + 1;
    }
    bytes
}

/// What a file of the dataset holds.
#[derive(Debug, PartialEq, Eq)]
pub enum Content {
    /// A pattern of so many bytes.
    Patterned { len: usize },
    /// So many bytes with runs of zeros.
    ZeroRuns { len: usize },
    /// A line, so many times.
    Text { line: String, repeats: usize },
}

/// A file of the dataset.
#[derive(Debug, PartialEq, Eq)]
pub struct DatasetFile {
    pub path: String,
    pub content: Content,
}

/// What a file of the dataset is.
pub enum Specimen {
    Patterned { path: Seq<char>, len: usize },
    ZeroRuns { path: Seq<char>, len: usize },
    Text { path: Seq<char>, line: Seq<char>, repeats: usize },
}

impl View for DatasetFile {
    type V = Specimen;

    open spec fn view(&self) -> Specimen {
        match self.content {
            Content::Patterned { len } => Specimen::Patterned { path: self.path@, len },
            Content::ZeroRuns { len } => Specimen::ZeroRuns { path: self.path@, len },
            Content::Text { line, repeats } => Specimen::Text {
                path: self.path@,
                line: line@,
                repeats,
            },
        }
    }
}

/// What the files of the dataset are, in their order.
pub open spec fn specimens_of(files: Seq<DatasetFile>) -> Seq<Specimen> {
    files.map_values(|file: DatasetFile| file@)
}

/// One of the small files.
pub open spec fn small_specimen(index: int) -> Specimen {
    Specimen::Text {
        path: "small/file-"@ + crate::text::padded_text(index as nat, 3) + ".txt"@,
        line: "small benchmark file "@ + crate::text::decimal_text(index as nat) + "\n"@,
        repeats: (SMALL_FILE_SIZE / 32) as usize,
    }
}

/// The files of the dataset.
pub open spec fn specimens() -> Seq<Specimen> {
    seq![
        Specimen::Patterned { path: "large/blob.bin"@, len: LARGE_FILE_SIZE },
        Specimen::ZeroRuns { path: "zeroes/vm-like.bin"@, len: ZERO_FILE_SIZE },
        Specimen::Text {
            path: "docs/readme.txt"@,
            line: "Oni benchmark dataset.\nThe contents are deterministic.\n"@,
            repeats: 512,
        },
    ] + Seq::new(SMALL_FILE_COUNT as nat, |index: int| small_specimen(index))
}

/// One of the small files.
fn small_file(index: u64) -> (file: DatasetFile)
    ensures
        file@ == small_specimen(index as int),
{
    let mut path = "small/file-".to_string();
    path.append(padded(index, 3).as_str());
    path.append(".txt");
    let mut line = "small benchmark file ".to_string();
    line.append(decimal(index).as_str());
    line.append("\n");
    DatasetFile { path, content: Content::Text { line, repeats: SMALL_FILE_SIZE / 32 } }
}

/// The files of the dataset.
pub fn dataset_files() -> (files: Vec<DatasetFile>)
    ensures
        specimens_of(files@) == specimens(),
{
    let mut files = vec![
        DatasetFile {
            path: "large/blob.bin".to_string(),
            content: Content::Patterned { len: LARGE_FILE_SIZE },
        },
        DatasetFile {
            path: "zeroes/vm-like.bin".to_string(),
            content: Content::ZeroRuns { len: ZERO_FILE_SIZE },
        },
        DatasetFile {
            path: "docs/readme.txt".to_string(),
            content: Content::Text {
                line: "Oni benchmark dataset.\nThe contents are deterministic.\n".to_string(),
                repeats: 512,
            },
        },
    ];
    let mut index: usize = 0;
    assert(specimens_of(files@) =~= specimens().take(3));
    while index < SMALL_FILE_COUNT
        invariant
            index <= SMALL_FILE_COUNT,
            specimens_of(files@) == specimens().take(3 + index),
        decreases SMALL_FILE_COUNT - index,
    {
        let ghost before = files@;
        let file = small_file(index as u64);
        files.push(file);
        assert(specimens_of(files@) =~= specimens_of(before).push(file@));
        assert(specimens()[3 + index] == small_specimen(index as int));
        index = index + 1;
        assert(specimens_of(files@) =~= specimens().take(3 + index));
    }
    assert(specimens().take(3 + index) =~= specimens());
    files
}

/// A change to the large file of the source.
#[derive(Debug, Clone, Copy, PartialEq, Eq, Structural)]
pub enum Mutation {
    /// Bytes in front.
    Prepend { len: usize },
    /// Bytes in between.
    Insert { offset: usize, len: usize },
    /// Other bytes in place of those that are there.
    Overwrite { offset: usize, len: usize },
}

/// How a case is prepared.
#[derive(Debug, Clone, Copy, PartialEq, Eq, Structural)]
pub struct CasePlan {
    /// Whether the destination starts as a copy of the source.
    pub copy_tree: bool,
    /// How the large file of the source is changed after that.
    pub mutation: Option<Mutation>,
}

/// How a case is prepared.
pub open spec fn plan_for(scenario: Scenario) -> CasePlan {
    match scenario {
        Scenario::ColdCopy => CasePlan { copy_tree: false, mutation: None },
        Scenario::WarmNoop => CasePlan { copy_tree: true, mutation: None },
        Scenario::Prepend128B => CasePlan {
            copy_tree: true,
            mutation: Some(Mutation::Prepend { len: 128 }),
        },
        Scenario::MiddleInsert4K => CasePlan {
            copy_tree: true,
            mutation: Some(Mutation::Insert { offset: 4194304, len: 4096 }),
        },
        Scenario::EqualOverwrite1M => CasePlan {
            copy_tree: true,
            mutation: Some(Mutation::Overwrite { offset: 4194304, len: 1048576 }),
        },
    }
}

/// How a case is prepared.
pub fn materialize_case(scenario: Scenario) -> (plan: CasePlan)
    ensures
        plan == plan_for(scenario),
{
    match scenario {
        Scenario::ColdCopy => CasePlan { copy_tree: false, mutation: None },
        Scenario::WarmNoop => CasePlan { copy_tree: true, mutation: None },
        Scenario::Prepend128B => CasePlan {
            copy_tree: true,
            mutation: Some(Mutation::Prepend { len: PREPEND_SIZE }),
        },
        Scenario::MiddleInsert4K => CasePlan {
            copy_tree: true,
            mutation: Some(Mutation::Insert { offset: LARGE_FILE_SIZE / 2, len: INSERT_SIZE }),
        },
        Scenario::EqualOverwrite1M => CasePlan {
            copy_tree: true,
            mutation: Some(
                Mutation::Overwrite { offset: LARGE_FILE_SIZE / 2, len: OVERWRITE_SIZE },
            ),
        },
    }
}

/// So many letters from `first` on, over and over.
pub open spec fn letters(first: u8, period: int, len: int) -> Seq<u8> {
    Seq::new(len as nat, |index: int| (first + index % period) as u8)
}

fn push_letters(bytes: &mut Vec<u8>, first: u8, period: u8, len: usize)
    requires
        period > 0,
        first + period <= 256,
    ensures
        final(bytes)@ == old(bytes)@ + letters(first, period as int, len as int),
{
    let mut index: usize = 0;
    assert(bytes@ =~= old(bytes)@ + letters(first, period as int, 0));
    while index < len
        invariant
            index <= len,
            period > 0,
            first + period <= 256,
            bytes@ == old(bytes)@ + letters(first, period as int, index as int),
        decreases len - index,
    {
        let step: u8 = (index % period as usize) as u8;
        bytes.push(first + step);
        index = index + 1;
        assert(bytes@ =~= old(bytes)@ + letters(first, period as int, index as int));
    }
}

/// `original` with `len` letters in front.
pub fn prepend_bytes(original: &[u8], len: usize) -> (updated: Vec<u8>)
    ensures
        updated@ == letters(65, 26, len as int) + original@,
{
    let mut updated: Vec<u8> = Vec::new();
    push_letters(&mut updated, 65, 26, len);
    updated.extend_from_slice(original);
    assert(updated@ =~= letters(65, 26, len as int) + original@);
    updated
}

/// Where a change at `offset` takes place: no further on than the end.
pub open spec fn place_of(offset: usize, original_len: int) -> int {
    if offset <= original_len {
        offset as int
    } else {
        original_len
    }
}

/// `original` with `len` letters in between, at `offset` or else at the end.
pub fn insert_bytes(original: &[u8], offset: usize, len: usize) -> (updated: Vec<u8>)
    ensures
        ({
            let place = place_of(offset, original@.len() as int);
            updated@ == original@.take(place) + letters(107, 13, len as int) + original@.skip(place)
        }),
{
    let split: usize = if offset <= original.len() {
        offset
    } else {
        original.len()
    };
    let mut updated: Vec<u8> = Vec::new();
    updated.extend_from_slice(slice_subrange(original, 0, split));
    push_letters(&mut updated, 107, 13, len);
    updated.extend_from_slice(slice_subrange(original, split, original.len()));
    assert(updated@ =~= original@.take(split as int) + letters(107, 13, len as int)
        + original@.skip(split as int));
    updated
}

/// The byte at `index` of what is written over something.
pub open spec fn overwriting_byte(index: int) -> u8 {
    (90 - index % 23) as u8
}

/// `original` with up to `len` bytes replaced, from `offset` on.
pub fn overwrite_bytes(original: &[u8], offset: usize, len: usize) -> (updated: Vec<u8>)
    ensures
        updated@.len() == original@.len(),
        ({
            let start = place_of(offset, original@.len() as int);
            forall|i: int|
                0 <= i < original@.len() ==> #[trigger] updated@[i] == if start <= i < start
                    + len {
                    overwriting_byte(i - start)
                } else {
                    original@[i]
                }
        }),
{
    let start: usize = if offset <= original.len() {
        offset
    } else {
        original.len()
    };
    let mut updated: Vec<u8> = Vec::new();
    let mut index: usize = 0;
    while index < original.len()
        invariant
            index <= original@.len(),
            start == place_of(offset, original@.len() as int),
            updated@.len() == index,
            forall|i: int|
                0 <= i < index ==> #[trigger] updated@[i] == if start <= i < start + len {
                    overwriting_byte(i - start)
                } else {
                    original@[i]
                },
        decreases original.len() - index,
    {
        if index >= start && index - start < len {
            let step: u8 = ((index - start) % 23) as u8;
            updated.push(90 - step);
        } else {
            updated.push(original[index]);
        }
        index = index + 1;
    }
    updated
}

/// The contents of a file after a change.
pub open spec fn mutated(original: Seq<u8>, mutation: Mutation, updated: Seq<u8>) -> bool {
    match mutation {
        Mutation::Prepend { len } => updated == letters(65, 26, len as int) + original,
        Mutation::Insert { offset, len } => {
            let place = place_of(offset, original.len() as int);
            updated == original.take(place) + letters(107, 13, len as int) + original.skip(place)
        },
        Mutation::Overwrite { offset, len } => {
            let start = place_of(offset, original.len() as int);
            &&& updated.len() == original.len()
            &&& forall|i: int|
                0 <= i < original.len() ==> #[trigger] updated[i] == if start <= i < start + len {
                    overwriting_byte(i - start)
                } else {
                    original[i]
                }
        },
    }
}

/// The contents of a file after a change.
pub fn mutate(original: &[u8], mutation: Mutation) -> (updated: Vec<u8>)
    ensures
        mutated(original@, mutation, updated@),
{
    match mutation {
        Mutation::Prepend { len } => prepend_bytes(original, len),
        Mutation::Insert { offset, len } => insert_bytes(original, offset, len),
        Mutation::Overwrite { offset, len } => overwrite_bytes(original, offset, len),
    }
}

/// Bytes in front or in between make a file so much longer, and bytes in place of
/// others leave its size as it is.
pub proof fn lemma_mutations_change_sizes(original: Seq<u8>, mutation: Mutation, updated: Seq<u8>)
    requires
        mutated(original, mutation, updated),
    ensures
        updated.len() == original.len() + match mutation {
            Mutation::Prepend { len } => len as int,
            Mutation::Insert { len, .. } => len as int,
            Mutation::Overwrite { .. } => 0,
        },
{
}

/// The name of the directory that one measurement is made in.
pub fn case_name(iteration: u64, scenario: Scenario, tool: Tool) -> (name: String)
    ensures
        name@ == "iter-"@ + crate::text::padded_text(iteration as nat, 2) + "-"@
            + crate::bench::scenario_slug(scenario) + "-"@ + crate::bench::tool_slug(tool),
{
    let mut name = "iter-".to_string();
    name.append(padded(iteration, 2).as_str());
    name.append("-");
    name.append(scenario.slug());
    name.append("-");
    name.append(tool.slug());
    name
}

/// A change leaves all that it does not write. Bytes in front or in between push the rest
/// back, and bytes in place of others do not. A change behind the end takes place at the
/// end. What is written are runs of letters.
pub proof fn lemma_mutations_leave_the_rest(original: Seq<u8>, mutation: Mutation, updated: Seq<u8>)
    requires
        mutated(original, mutation, updated),
    ensures
        match mutation {
            Mutation::Prepend { len } => {
                &&& updated.len() == len + original.len()
                &&& updated.skip(len as int) == original
                &&& forall|i: int| 0 <= i < len ==> #[trigger] updated[i] == 65 + i % 26
            },
            Mutation::Insert { offset, len } => {
                let place = if offset <= original.len() {
                    offset as int
                } else {
                    original.len() as int
                };
                &&& updated.len() == len + original.len()
                &&& updated.take(place) == original.take(place)
                &&& updated.skip(place + len) == original.skip(place)
                &&& forall|i: int|
                    place <= i < place + len ==> #[trigger] updated[i] == 107 + (i - place) % 13
            },
            Mutation::Overwrite { offset, len } => {
                &&& updated.len() == original.len()
                &&& forall|i: int|
                    0 <= i < original.len() ==> #[trigger] updated[i] == if offset <= i < offset
                        + len {
                        90 - (i - offset) % 23
                    } else {
                        original[i] as int
                    }
            },
        },
{
    match mutation {
        Mutation::Prepend { len } => {
            assert(updated.skip(len as int) =~= original);
        },
        Mutation::Insert { offset, len } => {
            let place = place_of(offset, original.len() as int);
            assert(updated.take(place) =~= original.take(place));
            assert(updated.skip(place + len) =~= original.skip(place));
            assert forall|i: int| place <= i < place + len implies #[trigger] updated[i] == 107 + (
            i - place) % 13 by {
                assert(updated[i] == letters(107, 13, len as int)[i - place]);
            }
        },
        Mutation::Overwrite { .. } => {},
    }
}

/// A text that repeats one line has one line behind the other, and as many bytes as all of
/// them together.
pub proof fn lemma_repeated_lines_follow_one_another(bytes: Seq<u8>, times: int)
    requires
        0 <= times,
    ensures
        repeated(bytes, 0) == Seq::<u8>::empty(),
        repeated(bytes, times + 1) == repeated(bytes, times) + bytes,
        repeated(bytes, times).len() == times * bytes.len(),
    decreases times,
{
    if times > 0 {
        lemma_repeated_lines_follow_one_another(bytes, times - 1);
        assert(times * bytes.len() == (times - 1) * bytes.len() + bytes.len())
            by (nonlinear_arith);
    } else {
        assert(times * bytes.len() == 0) by (nonlinear_arith)
            requires
                times == 0,
        ;
    }
}

/// Behind the first three files, the dataset has the small files in their order. Each is
/// named by its number in three digits, and repeats a line that names the number.
pub proof fn lemma_small_files_are_numbered(index: int)
    requires
        0 <= index < SMALL_FILE_COUNT,
    ensures
        specimens().len() == 3 + SMALL_FILE_COUNT,
        specimens()[3 + index] == (Specimen::Text {
            path: "small/file-"@ + crate::text::padded_text(index as nat, 3) + ".txt"@,
            line: "small benchmark file "@ + crate::text::decimal_text(index as nat) + "\n"@,
            repeats: 64,
        }),
{
}

} // verus!
