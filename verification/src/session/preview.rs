//! What a sync would do, without doing it.

use crate::path::SyncPath;
use crate::plan::Operation;
use crate::session::Mode;
use crate::text::decimal;
use vstd::prelude::*;

verus! {

/// The kind of a change.
#[derive(Debug, Clone, Copy, PartialEq, Eq, Structural)]
pub enum ChangeKind {
    Create,
    UpdateData,
    UpdateMetadata,
    Delete,
    Skip,
}

/// The kind of change that an operation makes.
pub open spec fn kind_of(operation: Operation) -> ChangeKind {
    match operation {
        Operation::Create { .. } => ChangeKind::Create,
        Operation::UpdateData { .. } => ChangeKind::UpdateData,
        Operation::UpdateMetadata { .. } => ChangeKind::UpdateMetadata,
        Operation::Delete { .. } => ChangeKind::Delete,
        Operation::Skip { .. } => ChangeKind::Skip,
    }
}

impl From<&Operation> for ChangeKind {
    fn from(value: &Operation) -> (kind: Self) {
        match value {
            Operation::Create { .. } => ChangeKind::Create,
            Operation::UpdateData { .. } => ChangeKind::UpdateData,
            Operation::UpdateMetadata { .. } => ChangeKind::UpdateMetadata,
            Operation::Delete { .. } => ChangeKind::Delete,
            Operation::Skip { .. } => ChangeKind::Skip,
        }
    }
}

impl vstd::std_specs::convert::FromSpecImpl<&Operation> for ChangeKind {
    open spec fn obeys_from_spec() -> bool {
        true
    }

    open spec fn from_spec(value: &Operation) -> Self {
        kind_of(*value)
    }
}

/// A kind of change in words.
pub open spec fn kind_name(kind: ChangeKind) -> Seq<char> {
    match kind {
        ChangeKind::Create => "create"@,
        ChangeKind::UpdateData => "update-data"@,
        ChangeKind::UpdateMetadata => "update-metadata"@,
        ChangeKind::Delete => "delete"@,
        ChangeKind::Skip => "skip"@,
    }
}

impl ChangeKind {
    /// The kind in words.
    pub fn to_string(&self) -> (text: String)
        ensures
            text@ == kind_name(*self),
    {
        match self {
            ChangeKind::Create => "create".to_string(),
            ChangeKind::UpdateData => "update-data".to_string(),
            ChangeKind::UpdateMetadata => "update-metadata".to_string(),
            ChangeKind::Delete => "delete".to_string(),
            ChangeKind::Skip => "skip".to_string(),
        }
    }
}

/// A change and the path that it is made to.
#[derive(Debug, Clone, PartialEq, Eq)]
pub struct Change {
    pub kind: ChangeKind,
    pub path: SyncPath,
}

/// What a sync would do.
#[derive(Debug, Clone, PartialEq, Eq)]
pub struct Preview {
    pub mode: Mode,
    pub operations: Vec<Change>,
}

/// How many changes there are of each kind.
#[derive(Debug, Clone, Copy, PartialEq, Eq, Structural)]
pub struct Summary {
    pub create: usize,
    pub update_data: usize,
    pub update_metadata: usize,
    pub delete: usize,
    pub skip: usize,
}

impl Default for Summary {
    fn default() -> (summary: Self)
        ensures
            summary == (Summary {
                create: 0,
                update_data: 0,
                update_metadata: 0,
                delete: 0,
                skip: 0,
            }),
    {
        Summary { create: 0, update_data: 0, update_metadata: 0, delete: 0, skip: 0 }
    }
}

/// How many of the changes are of the given kind.
pub open spec fn count_of(changes: Seq<Change>, kind: ChangeKind) -> int
    decreases changes.len(),
{
    if changes.len() == 0 {
        0
    } else {
        count_of(changes.drop_last(), kind) + if changes.last().kind == kind {
            1int
        } else {
            0
        }
    }
}

/// Whether `summary` counts the changes.
pub open spec fn sums_up(summary: Summary, changes: Seq<Change>) -> bool {
    &&& summary.create == count_of(changes, ChangeKind::Create)
    &&& summary.update_data == count_of(changes, ChangeKind::UpdateData)
    &&& summary.update_metadata == count_of(changes, ChangeKind::UpdateMetadata)
    &&& summary.delete == count_of(changes, ChangeKind::Delete)
    &&& summary.skip == count_of(changes, ChangeKind::Skip)
}

impl Preview {
    /// How many changes there are of each kind.
    pub fn summary(&self) -> (summary: Summary)
        ensures
            sums_up(summary, self.operations@),
            summary.create + summary.update_data + summary.update_metadata + summary.delete
                + summary.skip == self.operations@.len(),
    {
        let mut summary = Summary::default();
        let mut index: usize = 0;
        assert(self.operations@.take(0) =~= Seq::<Change>::empty());
        while index < self.operations.len()
            invariant
                index <= self.operations@.len(),
                sums_up(summary, self.operations@.take(index as int)),
                summary.create + summary.update_data + summary.update_metadata + summary.delete
                    + summary.skip == index,
            decreases self.operations.len() - index,
        {
            assert(self.operations@.take(index + 1).drop_last() =~= self.operations@.take(
                index as int,
            ));
            match self.operations[index].kind {
                ChangeKind::Create => {
                    summary.create = summary.create + 1;
                },
                ChangeKind::UpdateData => {
                    summary.update_data = summary.update_data + 1;
                },
                ChangeKind::UpdateMetadata => {
                    summary.update_metadata = summary.update_metadata + 1;
                },
                ChangeKind::Delete => {
                    summary.delete = summary.delete + 1;
                },
                ChangeKind::Skip => {
                    summary.skip = summary.skip + 1;
                },
            }
            index = index + 1;
        }
        assert(self.operations@.take(index as int) =~= self.operations@);
        summary
    }
}

impl Summary {
    /// How many files are updated in one way or the other.
    pub fn update_total(&self) -> (total: usize)
        requires
            self.update_data + self.update_metadata <= usize::MAX,
        ensures
            total == self.update_data + self.update_metadata,
    {
        self.update_data + self.update_metadata
    }

    /// The lines that show the counts, one for each kind.
    pub fn lines(&self) -> (lines: Vec<String>)
        ensures
            lines@.len() == 5,
            lines@[0]@ == summary_text("create"@, self.create),
            lines@[1]@ == summary_text("update-data"@, self.update_data),
            lines@[2]@ == summary_text("update-metadata"@, self.update_metadata),
            lines@[3]@ == summary_text("delete"@, self.delete),
            lines@[4]@ == summary_text("skip"@, self.skip),
    {
        let mut lines: Vec<String> = Vec::new();
        lines.push(summary_line(ChangeKind::Create, self.create));
        lines.push(summary_line(ChangeKind::UpdateData, self.update_data));
        lines.push(summary_line(ChangeKind::UpdateMetadata, self.update_metadata));
        lines.push(summary_line(ChangeKind::Delete, self.delete));
        lines.push(summary_line(ChangeKind::Skip, self.skip));
        lines
    }
}

/// The line that shows how many changes there are of one kind.
pub open spec fn summary_text(kind: Seq<char>, count: usize) -> Seq<char> {
    "summary\t"@ + kind + "="@ + crate::text::decimal_text(count as nat)
}

fn summary_line(kind: ChangeKind, count: usize) -> (line: String)
    ensures
        line@ == summary_text(kind_name(kind), count),
{
    let mut line = "summary\t".to_string();
    line.append(kind.to_string().as_str());
    line.append("=");
    line.append(decimal(count as u64).as_str());
    line
}

proof fn lemma_count_is_of_a_filter(changes: Seq<Change>, kind: ChangeKind)
    ensures
        count_of(changes, kind) == changes.filter(|change: Change| change.kind == kind).len(),
    decreases changes.len(),
{
    reveal(Seq::filter);
    if changes.len() > 0 {
        lemma_count_is_of_a_filter(changes.drop_last(), kind);
    }
}

/// A summary has, for each kind, the number of changes of that kind.
pub proof fn lemma_summaries_count_each_kind(summary: Summary, changes: Seq<Change>)
    requires
        sums_up(summary, changes),
    ensures
        summary.create == changes.filter(|change: Change| change.kind == ChangeKind::Create).len(),
        summary.update_data == changes.filter(
            |change: Change| change.kind == ChangeKind::UpdateData,
        ).len(),
        summary.update_metadata == changes.filter(
            |change: Change| change.kind == ChangeKind::UpdateMetadata,
        ).len(),
        summary.delete == changes.filter(|change: Change| change.kind == ChangeKind::Delete).len(),
        summary.skip == changes.filter(|change: Change| change.kind == ChangeKind::Skip).len(),
{
    lemma_count_is_of_a_filter(changes, ChangeKind::Create);
    lemma_count_is_of_a_filter(changes, ChangeKind::UpdateData);
    lemma_count_is_of_a_filter(changes, ChangeKind::UpdateMetadata);
    lemma_count_is_of_a_filter(changes, ChangeKind::Delete);
    lemma_count_is_of_a_filter(changes, ChangeKind::Skip);
}

/// A change is of the kind of its operation, and both have the same name.
pub proof fn lemma_kinds_are_named_as_operations(operation: Operation)
    ensures
        kind_name(kind_of(operation)) == crate::plan::label_of(operation),
        kind_of(operation) == ChangeKind::Create <==> operation is Create,
        kind_of(operation) == ChangeKind::UpdateData <==> operation is UpdateData,
        kind_of(operation) == ChangeKind::UpdateMetadata <==> operation is UpdateMetadata,
        kind_of(operation) == ChangeKind::Delete <==> operation is Delete,
        kind_of(operation) == ChangeKind::Skip <==> operation is Skip,
{
}

} // verus!
