//! The plan that brings a destination in line with a source.
//!
//! The planner merges two manifests by path. It compares metadata only. Whether
//! files of equal length hold equal contents is left to whoever carries the plan
//! out.

use crate::error::PlanError;
use crate::manifest::{Manifest, ManifestEntry, ManifestRoot};
use crate::path::Relation;
use vstd::prelude::*;

verus! {

/// What a plan may hold.
#[derive(Debug, Clone, Copy, PartialEq, Eq, Structural)]
pub struct PlanOptions {
    /// Whether paths that only the destination has are planned as deletes.
    pub delete_extraneous: bool,
}

impl Default for PlanOptions {
    fn default() -> (options: Self)
        ensures
            !options.delete_extraneous,
    {
        PlanOptions { delete_extraneous: false }
    }
}

/// One step of a plan. The indices are positions in the two manifests.
#[derive(Debug, Clone, Copy, PartialEq, Eq, Structural)]
pub enum Operation {
    /// The destination has no such path yet.
    Create { source_index: usize },
    /// The contents have to change.
    UpdateData { source_index: usize, destination_index: usize },
    /// The contents can stay, the metadata cannot.
    UpdateMetadata { source_index: usize, destination_index: usize },
    /// The source has no such path.
    Delete { destination_index: usize },
    /// Nothing tells the two entries apart.
    Skip { source_index: usize, destination_index: usize },
}

/// The name under which an operation is reported.
pub open spec fn label_of(operation: Operation) -> Seq<char> {
    match operation {
        Operation::Create { .. } => "create"@,
        Operation::UpdateData { .. } => "update-data"@,
        Operation::UpdateMetadata { .. } => "update-metadata"@,
        Operation::Delete { .. } => "delete"@,
        Operation::Skip { .. } => "skip"@,
    }
}

/// The operation for two entries that belong together: a different kind or
/// length means new contents, equal metadata means nothing to do.
pub open spec fn classified(
    source: crate::manifest::Listing,
    destination: crate::manifest::Listing,
    source_index: usize,
    destination_index: usize,
) -> Operation {
    if source.kind != destination.kind || source.metadata.len != destination.metadata.len {
        Operation::UpdateData { source_index, destination_index }
    } else if source.metadata == destination.metadata {
        Operation::Skip { source_index, destination_index }
    } else {
        Operation::UpdateMetadata { source_index, destination_index }
    }
}

/// The plan for the entries from `i` and from `j` on. The entry whose path comes
/// first is taken first, and two entries under one path are taken together.
pub open spec fn merge_plan(
    source: Seq<crate::manifest::Listing>,
    destination: Seq<crate::manifest::Listing>,
    i: int,
    j: int,
    delete_extraneous: bool,
) -> Seq<Operation>
    decreases source.len() - i + destination.len() - j,
{
    if i < 0 || j < 0 || i > source.len() || j > destination.len() || (i == source.len() && j
        == destination.len()) {
        Seq::empty()
    } else if j >= destination.len() || (i < source.len() && crate::path::path_before(
        source[i].path,
        destination[j].path,
    )) {
        seq![Operation::Create { source_index: i as usize }] + merge_plan(
            source,
            destination,
            i + 1,
            j,
            delete_extraneous,
        )
    } else if i >= source.len() || crate::path::path_before(destination[j].path, source[i].path) {
        let rest = merge_plan(source, destination, i, j + 1, delete_extraneous);
        if delete_extraneous {
            seq![Operation::Delete { destination_index: j as usize }] + rest
        } else {
            rest
        }
    } else {
        seq![classified(source[i], destination[j], i as usize, j as usize)] + merge_plan(
            source,
            destination,
            i + 1,
            j + 1,
            delete_extraneous,
        )
    }
}

/// What a manifest says.
pub open spec fn content(manifest: Manifest) -> (ManifestRoot, Seq<crate::manifest::Listing>) {
    (manifest.root, crate::manifest::listings(manifest.entries@))
}

/// The plan for two manifests.
///
/// Without a destination everything is created. Two files are planned as one
/// item, whatever their names. A file and a directory cannot be compared.
pub open spec fn planned(
    source: (ManifestRoot, Seq<crate::manifest::Listing>),
    destination: Option<(ManifestRoot, Seq<crate::manifest::Listing>)>,
    options: PlanOptions,
) -> Result<Seq<Operation>, PlanError> {
    match destination {
        None => Ok(
            Seq::new(source.1.len(), |i: int| Operation::Create { source_index: i as usize }),
        ),
        Some(destination) => if source.0 != destination.0 {
            Err(
                PlanError::RootKindMismatch {
                    source_root: source.0,
                    destination_root: destination.0,
                },
            )
        } else if source.0 == ManifestRoot::File {
            Ok(seq![classified(source.1[0], destination.1[0], 0, 0)])
        } else {
            Ok(merge_plan(source.1, destination.1, 0, 0, options.delete_extraneous))
        },
    }
}

/// Whether a plan can be made: a file root that is compared with another lists
/// its file.
pub open spec fn plannable(source: Manifest, destination: Option<&Manifest>) -> bool {
    match destination {
        None => true,
        Some(destination) => source.root == ManifestRoot::File && destination.root
            == ManifestRoot::File ==> source.entries@.len() > 0 && destination.entries@.len() > 0,
    }
}

/// What two manifests are planned to.
pub open spec fn plan_of(
    source: Manifest,
    destination: Option<&Manifest>,
    options: PlanOptions,
) -> Result<Seq<Operation>, PlanError> {
    planned(
        content(source),
        match destination {
            Some(destination) => Some(content(*destination)),
            None => None,
        },
        options,
    )
}

impl Operation {
    /// The name under which the operation is reported.
    pub fn label(&self) -> (label: &'static str)
        ensures
            label@ == label_of(*self),
    {
        match self {
            Operation::Create { .. } => "create",
            Operation::UpdateData { .. } => "update-data",
            Operation::UpdateMetadata { .. } => "update-metadata",
            Operation::Delete { .. } => "delete",
            Operation::Skip { .. } => "skip",
        }
    }

    /// The operation in words.
    pub fn to_string(&self) -> (text: String)
        ensures
            text@ == label_of(*self),
    {
        self.label().to_string()
    }

    /// The operation for two entries that belong together.
    pub fn classify_matched_entries(
        source: &ManifestEntry,
        destination: &ManifestEntry,
        source_index: usize,
        destination_index: usize,
    ) -> (operation: Self)
        ensures
            operation == classified(source@, destination@, source_index, destination_index),
            source_of(operation) == Some(source_index),
            destination_of(operation) == Some(destination_index),
            operation is UpdateData <==> source.kind != destination.kind || source.metadata.len
                != destination.metadata.len,
            operation is Skip <==> source.kind == destination.kind && source.metadata.len
                == destination.metadata.len && source.metadata.modified_unix_secs
                == destination.metadata.modified_unix_secs,
    {
        if source.kind != destination.kind || source.metadata.len != destination.metadata.len {
            return Operation::UpdateData { source_index, destination_index };
        }
        if source.metadata == destination.metadata {
            Operation::Skip { source_index, destination_index }
        } else {
            Operation::UpdateMetadata { source_index, destination_index }
        }
    }
}

proof fn lemma_creates(source: Seq<crate::manifest::Listing>, i: int, delete_extraneous: bool)
    requires
        0 <= i <= source.len(),
    ensures
        merge_plan(source, Seq::empty(), i, 0, delete_extraneous) == Seq::new(
            (source.len() - i) as nat,
            |k: int| Operation::Create { source_index: (i + k) as usize },
        ),
    decreases source.len() - i,
{
    let plan = merge_plan(source, Seq::empty(), i, 0, delete_extraneous);
    let expected = Seq::new(
        (source.len() - i) as nat,
        |k: int| Operation::Create { source_index: (i + k) as usize },
    );
    if i < source.len() {
        lemma_creates(source, i + 1, delete_extraneous);
        assert(plan =~= expected);
    } else {
        assert(plan =~= expected);
    }
}

/// Whether the entries that an operation is about exist.
pub open spec fn within(operation: Operation, source_len: nat, destination_len: nat) -> bool {
    match operation {
        Operation::Create { source_index } => source_index < source_len,
        Operation::Delete { destination_index } => destination_index < destination_len,
        Operation::UpdateData { source_index, destination_index } | Operation::UpdateMetadata {
            source_index,
            destination_index,
        } | Operation::Skip { source_index, destination_index } => source_index < source_len
            && destination_index < destination_len,
    }
}

/// How many entries a destination has.
pub open spec fn entry_count(destination: Option<&Manifest>) -> nat {
    match destination {
        Some(destination) => destination.entries@.len(),
        None => 0,
    }
}

/// A plan that is read one operation at a time.
pub struct PlanCursor<'a> {
    source: &'a Manifest,
    destination: Option<&'a Manifest>,
    delete_extraneous: bool,
    /// The one operation of a comparison of two files, until it is read.
    single: Option<Operation>,
    source_index: usize,
    destination_index: usize,
}

impl<'a> PlanCursor<'a> {
    spec fn destination_listings(&self) -> Seq<crate::manifest::Listing> {
        match self.destination {
            Some(destination) => crate::manifest::listings(destination.entries@),
            None => Seq::empty(),
        }
    }

    /// The operations that are still to be read.
    pub closed spec fn remaining(&self) -> Seq<Operation> {
        match self.single {
            Some(operation) => seq![operation],
            None => merge_plan(
                crate::manifest::listings(self.source.entries@),
                self.destination_listings(),
                self.source_index as int,
                self.destination_index as int,
                self.delete_extraneous,
            ),
        }
    }

    pub closed spec fn wf(&self) -> bool {
        &&& self.source_index <= self.source.entries@.len()
        &&& self.destination_index <= self.destination_listings().len()
        &&& self.single matches Some(operation) ==> self.source_index
            == self.source.entries@.len() && self.destination_index
            == self.destination_listings().len() && within(
            operation,
            self.source.entries@.len(),
            entry_count(self.destination),
        )
    }

    /// The manifests that the plan is for.
    pub closed spec fn manifests(&self) -> (Manifest, Option<&'a Manifest>) {
        (*self.source, self.destination)
    }

    /// The plan for two manifests.
    pub fn new(
        source: &'a Manifest,
        destination: Option<&'a Manifest>,
        options: PlanOptions,
    ) -> (cursor: Result<Self, PlanError>)
        requires
            plannable(*source, destination),
        ensures
            match plan_of(*source, destination, options) {
                Ok(operations) => cursor matches Ok(found) && found.wf() && found.remaining()
                    == operations && found.manifests() == (*source, destination),
                Err(error) => cursor == Err::<Self, PlanError>(error),
            },
    {
        let mut single: Option<Operation> = None;
        let mut source_index: usize = 0;
        let mut destination_index: usize = 0;
        if let Some(other) = destination {
            match (source.root, other.root) {
                (ManifestRoot::File, ManifestRoot::Directory) | (
                    ManifestRoot::Directory,
                    ManifestRoot::File,
                ) => {
                    return Err(
                        PlanError::RootKindMismatch {
                            source_root: source.root,
                            destination_root: other.root,
                        },
                    );
                },
                (ManifestRoot::File, ManifestRoot::File) => {
                    single = Some(
                        Operation::classify_matched_entries(
                            &source.entries[0],
                            &other.entries[0],
                            0,
                            0,
                        ),
                    );
                    source_index = source.entries.len();
                    destination_index = other.entries.len();
                },
                (ManifestRoot::Directory, ManifestRoot::Directory) => {},
            }
        }
        let cursor = PlanCursor {
            source,
            destination,
            delete_extraneous: options.delete_extraneous,
            single,
            source_index,
            destination_index,
        };
        proof {
            if destination is None {
                let entries = crate::manifest::listings(source.entries@);
                lemma_creates(entries, 0, options.delete_extraneous);
                assert(cursor.remaining() =~= Seq::new(
                    entries.len(),
                    |i: int| Operation::Create { source_index: i as usize },
                ));
            }
        }
        Ok(cursor)
    }

    /// The next operation, if there is one.
    pub fn next(&mut self) -> (operation: Option<Operation>)
        requires
            old(self).wf(),
        ensures
            final(self).wf(),
            final(self).manifests() == old(self).manifests(),
            match operation {
                Some(found) => {
                    &&& old(self).remaining() == seq![found] + final(self).remaining()
                    &&& within(
                        found,
                        old(self).manifests().0.entries@.len(),
                        entry_count(old(self).manifests().1),
                    )
                },
                None => {
                    &&& old(self).remaining() == Seq::<Operation>::empty()
                    &&& final(self).remaining() == Seq::<Operation>::empty()
                },
            },
    {
        if let Some(operation) = self.single {
            self.single = None;
            assert(old(self).remaining() =~= seq![operation] + self.remaining());
            return Some(operation);
        }
        let source = self.source;
        let source_len: usize = source.entries.len();
        let destination_len: usize = match self.destination {
            Some(destination) => destination.entries.len(),
            None => 0,
        };
        while self.source_index < source_len || self.destination_index < destination_len
            invariant
                self.wf(),
                self.single is None,
                self.manifests() == old(self).manifests(),
                source == self.source,
                source_len == source.entries@.len(),
                destination_len == self.destination_listings().len(),
                old(self).remaining() == self.remaining(),
            decreases source_len - self.source_index + destination_len - self.destination_index,
        {
            let ghost before = self.remaining();
            let source_index: usize = self.source_index;
            let destination_index: usize = self.destination_index;
            let relation = if destination_index == destination_len {
                Relation::Before
            } else if source_index == source_len {
                Relation::After
            } else {
                match self.destination {
                    Some(destination) => {
                        let relation = source.entries[source_index].path.relate(
                            &destination.entries[destination_index].path,
                        );
                        assert(crate::manifest::listings(source.entries@)[source_index as int]
                            == source.entries@[source_index as int]@);
                        assert(self.destination_listings()[destination_index as int]
                            == destination.entries@[destination_index as int]@);
                        proof {
                            crate::path::lemma_path_before_total(
                                source.entries@[source_index as int].path@,
                                destination.entries@[destination_index as int].path@,
                            );
                        }
                        relation
                    },
                    None => Relation::Before,
                }
            };
            match relation {
                Relation::Before => {
                    self.source_index = source_index + 1;
                    return Some(Operation::Create { source_index });
                },
                Relation::After => {
                    self.destination_index = destination_index + 1;
                    if self.delete_extraneous {
                        return Some(Operation::Delete { destination_index });
                    }
                },
                Relation::Same => {
                    if let Some(destination) = self.destination {
                        let operation = Operation::classify_matched_entries(
                            &source.entries[source_index],
                            &destination.entries[destination_index],
                            source_index,
                            destination_index,
                        );
                        self.source_index = source_index + 1;
                        self.destination_index = destination_index + 1;
                        return Some(operation);
                    }
                },
            }
        }
        None
    }
}

/// The plan for two manifests, as a list.
pub fn plan_operations(
    source: &Manifest,
    destination: Option<&Manifest>,
    options: PlanOptions,
) -> (operations: Result<Vec<Operation>, PlanError>)
    requires
        plannable(*source, destination),
    ensures
        match plan_of(*source, destination, options) {
            Ok(expected) => operations matches Ok(found) && found@ == expected,
            Err(error) => operations == Err::<Vec<Operation>, PlanError>(error),
        },
{
    let mut cursor = match PlanCursor::new(source, destination, options) {
        Ok(cursor) => cursor,
        Err(error) => {
            return Err(error);
        },
    };
    let ghost expected = cursor.remaining();
    let mut operations: Vec<Operation> = Vec::new();
    assert(expected =~= operations@ + cursor.remaining());
    loop
        invariant
            cursor.wf(),
            expected == operations@ + cursor.remaining(),
        ensures
            expected == operations@,
        decreases cursor.remaining().len(),
    {
        let ghost before = operations@;
        match cursor.next() {
            Some(operation) => {
                operations.push(operation);
                assert(expected =~= operations@ + cursor.remaining());
            },
            None => {
                assert(expected =~= operations@);
                break;
            },
        }
    }
    Ok(operations)
}

/// Whether `reply` is something that `handler` may answer `operation` with.
pub open spec fn answers<F: FnMut(Operation) -> Result<(), PlanError>>(
    handler: F,
    operation: Operation,
    reply: Result<(), PlanError>,
) -> bool {
    call_ensures(handler, (operation,), reply)
}

/// Whether `handler` may answer `operation` with success.
pub open spec fn accepts<F: FnMut(Operation) -> Result<(), PlanError>>(
    handler: F,
    operation: Operation,
) -> bool {
    exists|reply: Result<(), PlanError>| #[trigger]
        answers(handler, operation, reply) && reply is Ok
}

/// Whether `handler` may accept the first `k` operations and answer the next
/// with `reply`.
pub open spec fn stops<F: FnMut(Operation) -> Result<(), PlanError>>(
    handler: F,
    operations: Seq<Operation>,
    k: int,
    reply: Result<(), PlanError>,
) -> bool {
    &&& 0 <= k < operations.len()
    &&& answers(handler, operations[k], reply)
    &&& forall|m: int| 0 <= m < k ==> accepts(handler, #[trigger] operations[m])
}

/// Whether `outcome` is what becomes of handing the operations of `plan` to
/// `handler` one by one, up to the first that it does not accept.
pub open spec fn carries_out<F: FnMut(Operation) -> Result<(), PlanError>>(
    plan: Result<Seq<Operation>, PlanError>,
    handler: F,
    outcome: Result<(), PlanError>,
) -> bool {
    match plan {
        Err(error) => outcome == Err::<(), PlanError>(error),
        Ok(operations) => if outcome is Ok {
            forall|k: int| 0 <= k < operations.len() ==> accepts(handler, #[trigger] operations[k])
        } else {
            exists|k: int| #[trigger] stops(handler, operations, k, outcome)
        },
    }
}

/// Hands each operation of the plan for two manifests to `on_operation`, as soon
/// as it is known. The first error stops the plan and is returned.
///
/// The contract says what `on_operation` answered to each operation. That it was
/// asked once for each of them, in their order, is left unsaid: a contract cannot
/// speak of what a callback remembers.
pub fn for_each_operation<F: FnMut(Operation) -> Result<(), PlanError>>(
    source: &Manifest,
    destination: Option<&Manifest>,
    options: PlanOptions,
    on_operation: F,
) -> (outcome: Result<(), PlanError>)
    requires
        plannable(*source, destination),
        forall|operation: Operation| #[trigger] call_requires(on_operation, (operation,)),
    ensures
        carries_out(plan_of(*source, destination, options), on_operation, outcome),
{
    let mut handler = on_operation;
    let mut cursor = match PlanCursor::new(source, destination, options) {
        Ok(cursor) => cursor,
        Err(error) => {
            return Err(error);
        },
    };
    let ghost operations = cursor.remaining();
    let ghost mut done: int = 0;
    assert(operations.skip(0) =~= operations);
    loop
        invariant
            cursor.wf(),
            handler == on_operation,
            0 <= done <= operations.len(),
            cursor.remaining() == operations.skip(done),
            plan_of(*source, destination, options) == Ok::<Seq<Operation>, PlanError>(operations),
            forall|operation: Operation| #[trigger] call_requires(on_operation, (operation,)),
            forall|k: int| 0 <= k < done ==> accepts(on_operation, #[trigger] operations[k]),
        ensures
            done == operations.len(),
        decreases cursor.remaining().len(),
    {
        let ghost before = cursor.remaining();
        match cursor.next() {
            Some(operation) => {
                proof {
                    assert(before == seq![operation] + cursor.remaining());
                    assert(operations[done] == before[0]);
                    assert(cursor.remaining() =~= before.skip(1));
                    assert(cursor.remaining() =~= operations.skip(done + 1));
                }
                let reply: Result<(), PlanError> = handler(operation);
                assert(answers(on_operation, operations[done], reply));
                if reply.is_err() {
                    let ghost plan = plan_of(*source, destination, options);
                    assert(stops(on_operation, plan->Ok_0, done, reply));
                    return reply;
                }
                assert(accepts(on_operation, operations[done]));
                proof {
                    done = done + 1;
                }
            },
            None => {
                assert(operations.skip(done).len() == 0);
                break;
            },
        }
    }
    Ok(())
}

/// The source entry that an operation is about.
pub open spec fn source_of(operation: Operation) -> Option<usize> {
    match operation {
        Operation::Create { source_index } => Some(source_index),
        Operation::UpdateData { source_index, .. } => Some(source_index),
        Operation::UpdateMetadata { source_index, .. } => Some(source_index),
        Operation::Delete { .. } => None,
        Operation::Skip { source_index, .. } => Some(source_index),
    }
}

/// The destination entry that an operation is about.
pub open spec fn destination_of(operation: Operation) -> Option<usize> {
    match operation {
        Operation::Create { .. } => None,
        Operation::UpdateData { destination_index, .. } => Some(destination_index),
        Operation::UpdateMetadata { destination_index, .. } => Some(destination_index),
        Operation::Delete { destination_index } => Some(destination_index),
        Operation::Skip { destination_index, .. } => Some(destination_index),
    }
}

/// The source entries that the operations are about, in the order of the plan.
pub open spec fn sources_of(operations: Seq<Operation>) -> Seq<int>
    decreases operations.len(),
{
    if operations.len() == 0 {
        Seq::empty()
    } else {
        let rest = sources_of(operations.drop_first());
        match source_of(operations[0]) {
            Some(source_index) => seq![source_index as int] + rest,
            None => rest,
        }
    }
}

/// The destination entries that the operations are about, in the order of the
/// plan.
pub open spec fn destinations_of(operations: Seq<Operation>) -> Seq<int>
    decreases operations.len(),
{
    if operations.len() == 0 {
        Seq::empty()
    } else {
        let rest = destinations_of(operations.drop_first());
        match destination_of(operations[0]) {
            Some(destination_index) => seq![destination_index as int] + rest,
            None => rest,
        }
    }
}

/// The numbers from `from` up to `upto`.
pub open spec fn counting(from: int, upto: int) -> Seq<int> {
    Seq::new((upto - from) as nat, |k: int| from + k)
}

proof fn lemma_merge_counts(
    source: Seq<crate::manifest::Listing>,
    destination: Seq<crate::manifest::Listing>,
    i: int,
    j: int,
    delete_extraneous: bool,
)
    requires
        0 <= i <= source.len() <= usize::MAX,
        0 <= j <= destination.len() <= usize::MAX,
    ensures
        ({
            let plan = merge_plan(source, destination, i, j, delete_extraneous);
            &&& sources_of(plan) == counting(i, source.len() as int)
            &&& delete_extraneous ==> destinations_of(plan) == counting(
                j,
                destination.len() as int,
            )
        }),
    decreases source.len() - i + destination.len() - j,
{
    let plan = merge_plan(source, destination, i, j, delete_extraneous);
    let (m, n) = (source.len() as int, destination.len() as int);
    if i == m && j == n {
        assert(counting(i, m) =~= Seq::<int>::empty());
        assert(counting(j, n) =~= Seq::<int>::empty());
    } else if j == n || (i < m && crate::path::path_before(source[i].path, destination[j].path)) {
        lemma_merge_counts(source, destination, i + 1, j, delete_extraneous);
        assert(plan.drop_first() =~= merge_plan(
            source,
            destination,
            i + 1,
            j,
            delete_extraneous,
        ));
        assert(sources_of(plan) =~= counting(i, m));
    } else if i == m || crate::path::path_before(destination[j].path, source[i].path) {
        lemma_merge_counts(source, destination, i, j + 1, delete_extraneous);
        if delete_extraneous {
            assert(plan.drop_first() =~= merge_plan(
                source,
                destination,
                i,
                j + 1,
                delete_extraneous,
            ));
            assert(destinations_of(plan) =~= counting(j, n));
        }
    } else {
        lemma_merge_counts(source, destination, i + 1, j + 1, delete_extraneous);
        assert(plan.drop_first() =~= merge_plan(
            source,
            destination,
            i + 1,
            j + 1,
            delete_extraneous,
        ));
        assert(sources_of(plan) =~= counting(i, m));
        if delete_extraneous {
            assert(destinations_of(plan) =~= counting(j, n));
        }
    }
}

/// A plan for two directories is about every source entry exactly once, in the
/// order of the manifest, and with deletes about every destination entry too.
pub proof fn lemma_plan_covers_every_entry_once(
    source: Seq<crate::manifest::Listing>,
    destination: Seq<crate::manifest::Listing>,
    options: PlanOptions,
)
    requires
        source.len() <= usize::MAX,
        destination.len() <= usize::MAX,
    ensures
        ({
            let plan = planned(
                (ManifestRoot::Directory, source),
                Some((ManifestRoot::Directory, destination)),
                options,
            );
            &&& plan matches Ok(operations)
            &&& sources_of(operations) == counting(0, source.len() as int)
            &&& options.delete_extraneous ==> destinations_of(operations) == counting(
                0,
                destination.len() as int,
            )
        }),
{
    lemma_merge_counts(source, destination, 0, 0, options.delete_extraneous);
}

/// What an operation of a plan for two directories may be.
pub open spec fn justified(
    source: Seq<crate::manifest::Listing>,
    destination: Seq<crate::manifest::Listing>,
    operation: Operation,
    delete_extraneous: bool,
) -> bool {
    match operation {
        Operation::Create { source_index } => source_index < source.len() && !lists(
            destination,
            source[source_index as int].path,
        ),
        Operation::Delete { destination_index } => delete_extraneous && destination_index
            < destination.len() && !lists(source, destination[destination_index as int].path),
        Operation::UpdateData { source_index, destination_index } | Operation::UpdateMetadata {
            source_index,
            destination_index,
        } | Operation::Skip { source_index, destination_index } => {
            &&& source_index < source.len()
            &&& destination_index < destination.len()
            &&& source[source_index as int].path == destination[destination_index as int].path
            &&& operation == classified(
                source[source_index as int],
                destination[destination_index as int],
                source_index,
                destination_index,
            )
        },
    }
}

/// Whether some entry is listed under `path`.
pub open spec fn lists(
    entries: Seq<crate::manifest::Listing>,
    path: Seq<crate::path::Name>,
) -> bool {
    exists|i: int| 0 <= i < entries.len() && (#[trigger] entries[i]).path == path
}

/// Whether every path comes before the next.
pub open spec fn increasing(entries: Seq<crate::manifest::Listing>) -> bool {
    forall|i: int, j: int|
        0 <= i < j < entries.len() ==> crate::path::path_before(
            (#[trigger] entries[i]).path,
            (#[trigger] entries[j]).path,
        )
}

/// Whether the entries in front of `i` come before everything from `j` on.
spec fn passed(
    source: Seq<crate::manifest::Listing>,
    destination: Seq<crate::manifest::Listing>,
    i: int,
    j: int,
) -> bool {
    forall|a: int, b: int|
        0 <= a < i && j <= b < destination.len() ==> crate::path::path_before(
            (#[trigger] source[a]).path,
            (#[trigger] destination[b]).path,
        )
}

/// Whether the operations go through both manifests from front to back.
pub open spec fn goes_forward(operations: Seq<Operation>) -> bool {
    forall|k: int, m: int|
        #![trigger operations[k], operations[m]]
        0 <= k < m < operations.len() ==> {
            &&& source_of(operations[k]) matches Some(first) ==> (source_of(
                operations[m],
            ) matches Some(second) ==> first < second)
            &&& destination_of(operations[k]) matches Some(first) ==> (destination_of(
                operations[m],
            ) matches Some(second) ==> first < second)
        }
}

proof fn lemma_merge_goes_forward(
    source: Seq<crate::manifest::Listing>,
    destination: Seq<crate::manifest::Listing>,
    i: int,
    j: int,
    delete_extraneous: bool,
)
    requires
        0 <= i <= source.len() <= usize::MAX,
        0 <= j <= destination.len() <= usize::MAX,
    ensures
        ({
            let plan = merge_plan(source, destination, i, j, delete_extraneous);
            &&& goes_forward(plan)
            &&& forall|k: int|
                #![trigger plan[k]]
                0 <= k < plan.len() ==> {
                    &&& source_of(plan[k]) matches Some(index) ==> i <= index
                    &&& destination_of(plan[k]) matches Some(index) ==> j <= index
                }
        }),
    decreases source.len() - i + destination.len() - j,
{
    let plan = merge_plan(source, destination, i, j, delete_extraneous);
    if i == source.len() && j == destination.len() {
    } else {
        let creates = j >= destination.len() || (i < source.len() && crate::path::path_before(
            source[i].path,
            destination[j].path,
        ));
        let passes = !creates && (i >= source.len() || crate::path::path_before(
            destination[j].path,
            source[i].path,
        ));
        let next_i = if passes {
            i
        } else {
            i + 1
        };
        let next_j = if creates {
            j
        } else {
            j + 1
        };
        let rest = merge_plan(source, destination, next_i, next_j, delete_extraneous);
        lemma_merge_goes_forward(source, destination, next_i, next_j, delete_extraneous);
        if passes && !delete_extraneous {
            assert(plan == rest);
        } else {
            assert(plan.len() == rest.len() + 1);
            assert forall|k: int| 0 < k < plan.len() implies #[trigger] plan[k] == rest[k - 1] by {
            }
        }
    }
}

/// A plan for two directories goes through both manifests from front to back.
pub proof fn lemma_plan_goes_forward(
    source: Seq<crate::manifest::Listing>,
    destination: Seq<crate::manifest::Listing>,
    options: PlanOptions,
)
    requires
        source.len() <= usize::MAX,
        destination.len() <= usize::MAX,
    ensures
        planned(
            (ManifestRoot::Directory, source),
            Some((ManifestRoot::Directory, destination)),
            options,
        ) matches Ok(operations) && goes_forward(operations),
{
    lemma_merge_goes_forward(source, destination, 0, 0, options.delete_extraneous);
}

proof fn lemma_not_listed(
    entries: Seq<crate::manifest::Listing>,
    path: Seq<crate::path::Name>,
    j: int,
)
    requires
        increasing(entries),
        0 <= j <= entries.len(),
        forall|b: int|
            0 <= b < j ==> crate::path::path_before((#[trigger] entries[b]).path, path),
        j < entries.len() ==> crate::path::path_before(path, entries[j].path),
    ensures
        !lists(entries, path),
        forall|b: int|
            j <= b < entries.len() ==> crate::path::path_before(
                path,
                (#[trigger] entries[b]).path,
            ),
{
    assert forall|b: int| j <= b < entries.len() implies crate::path::path_before(
        path,
        (#[trigger] entries[b]).path,
    ) by {
        if j < b {
            crate::path::lemma_path_before_transitive(path, entries[j].path, entries[b].path);
        }
    }
    if lists(entries, path) {
        let i = choose|i: int| 0 <= i < entries.len() && (#[trigger] entries[i]).path == path;
        crate::path::lemma_path_before_irreflexive(path);
    }
}

proof fn lemma_merge_justified(
    source: Seq<crate::manifest::Listing>,
    destination: Seq<crate::manifest::Listing>,
    i: int,
    j: int,
    delete_extraneous: bool,
)
    requires
        0 <= i <= source.len() <= usize::MAX,
        0 <= j <= destination.len() <= usize::MAX,
        increasing(source),
        increasing(destination),
        passed(source, destination, i, j),
        passed(destination, source, j, i),
    ensures
        forall|k: int|
            0 <= k < merge_plan(source, destination, i, j, delete_extraneous).len() ==> justified(
                source,
                destination,
                #[trigger] merge_plan(source, destination, i, j, delete_extraneous)[k],
                delete_extraneous,
            ),
    decreases source.len() - i + destination.len() - j,
{
    let plan = merge_plan(source, destination, i, j, delete_extraneous);
    let (m, n) = (source.len() as int, destination.len() as int);
    if i == m && j == n {
    } else if j == n || (i < m && crate::path::path_before(source[i].path, destination[j].path)) {
        let rest = merge_plan(source, destination, i + 1, j, delete_extraneous);
        lemma_not_listed(destination, source[i].path, j);
        assert(passed(destination, source, j, i + 1));
        lemma_merge_justified(source, destination, i + 1, j, delete_extraneous);
        assert forall|k: int| 0 <= k < plan.len() implies justified(
            source,
            destination,
            #[trigger] plan[k],
            delete_extraneous,
        ) by {
            if k > 0 {
                assert(plan[k] == rest[k - 1]);
            }
        }
    } else if i == m || crate::path::path_before(destination[j].path, source[i].path) {
        let rest = merge_plan(source, destination, i, j + 1, delete_extraneous);
        lemma_not_listed(source, destination[j].path, i);
        lemma_merge_justified(source, destination, i, j + 1, delete_extraneous);
        assert forall|k: int| 0 <= k < plan.len() implies justified(
            source,
            destination,
            #[trigger] plan[k],
            delete_extraneous,
        ) by {
            if delete_extraneous && k > 0 {
                assert(plan[k] == rest[k - 1]);
            }
        }
    } else {
        let rest = merge_plan(source, destination, i + 1, j + 1, delete_extraneous);
        crate::path::lemma_path_before_total(source[i].path, destination[j].path);
        lemma_merge_justified(source, destination, i + 1, j + 1, delete_extraneous);
        assert forall|k: int| 0 <= k < plan.len() implies justified(
            source,
            destination,
            #[trigger] plan[k],
            delete_extraneous,
        ) by {
            if k > 0 {
                assert(plan[k] == rest[k - 1]);
            }
        }
    }
}

/// In a plan for two directories in path order, a path is created only if the
/// destination lacks it, deleted only if the source lacks it and deletes are
/// asked for, and compared only with itself.
pub proof fn lemma_plan_is_justified(
    source: Seq<crate::manifest::Listing>,
    destination: Seq<crate::manifest::Listing>,
    options: PlanOptions,
)
    requires
        source.len() <= usize::MAX,
        destination.len() <= usize::MAX,
        increasing(source),
        increasing(destination),
    ensures
        ({
            let plan = planned(
                (ManifestRoot::Directory, source),
                Some((ManifestRoot::Directory, destination)),
                options,
            );
            &&& plan matches Ok(operations)
            &&& forall|k: int|
                0 <= k < operations.len() ==> justified(
                    source,
                    destination,
                    #[trigger] operations[k],
                    options.delete_extraneous,
                )
        }),
{
    lemma_merge_justified(source, destination, 0, 0, options.delete_extraneous);
}

/// The paths that a list of entries has.
pub open spec fn paths_of(entries: Seq<crate::manifest::Listing>) -> Set<Seq<crate::path::Name>> {
    Set::new(|path: Seq<crate::path::Name>| lists(entries, path))
}

/// The paths that are there after the operations have been carried out on a
/// destination with the paths `present`.
pub open spec fn paths_after(
    source: Seq<crate::manifest::Listing>,
    destination: Seq<crate::manifest::Listing>,
    operations: Seq<Operation>,
    present: Set<Seq<crate::path::Name>>,
) -> Set<Seq<crate::path::Name>>
    decreases operations.len(),
{
    if operations.len() == 0 {
        present
    } else {
        let before = paths_after(source, destination, operations.drop_last(), present);
        match operations.last() {
            Operation::Create { source_index } => before.insert(source[source_index as int].path),
            Operation::Delete { destination_index } => before.remove(
                destination[destination_index as int].path,
            ),
            _ => before,
        }
    }
}

/// Whether some operation creates `path`.
spec fn creates(
    source: Seq<crate::manifest::Listing>,
    operations: Seq<Operation>,
    path: Seq<crate::path::Name>,
) -> bool {
    exists|k: int|
        0 <= k < operations.len() && (#[trigger] operations[k] matches Operation::Create {
            source_index,
        } && source[source_index as int].path == path)
}

/// Whether some operation deletes `path`.
spec fn deletes(
    destination: Seq<crate::manifest::Listing>,
    operations: Seq<Operation>,
    path: Seq<crate::path::Name>,
) -> bool {
    exists|k: int|
        0 <= k < operations.len() && (#[trigger] operations[k] matches Operation::Delete {
            destination_index,
        } && destination[destination_index as int].path == path)
}

/// The operations that are no deletes, in their order.
pub open spec fn without_deletes(operations: Seq<Operation>) -> Seq<Operation>
    decreases operations.len(),
{
    if operations.len() == 0 {
        Seq::empty()
    } else {
        let rest = without_deletes(operations.drop_first());
        if operations[0] is Delete {
            rest
        } else {
            seq![operations[0]] + rest
        }
    }
}

/// Operations among which there is no delete stay as they are.
proof fn lemma_nothing_left_out(operations: Seq<Operation>)
    requires
        forall|k: int| 0 <= k < operations.len() ==> !((#[trigger] operations[k]) is Delete),
    ensures
        without_deletes(operations) == operations,
    decreases operations.len(),
{
    if operations.len() > 0 {
        let rest = operations.drop_first();
        assert forall|k: int| 0 <= k < rest.len() implies !((#[trigger] rest[k]) is Delete) by {
            assert(rest[k] == operations[k + 1]);
        }
        lemma_nothing_left_out(rest);
        assert(operations =~= seq![operations[0]] + rest);
    } else {
        assert(operations =~= Seq::<Operation>::empty());
    }
}

proof fn lemma_merge_without_deletes(
    source: Seq<crate::manifest::Listing>,
    destination: Seq<crate::manifest::Listing>,
    i: int,
    j: int,
)
    requires
        0 <= i <= source.len(),
        0 <= j <= destination.len(),
    ensures
        without_deletes(merge_plan(source, destination, i, j, true)) == merge_plan(
            source,
            destination,
            i,
            j,
            false,
        ),
    decreases source.len() - i + destination.len() - j,
{
    let plan = merge_plan(source, destination, i, j, true);
    if i == source.len() && j == destination.len() {
    } else {
        let creates = j >= destination.len() || (i < source.len() && crate::path::path_before(
            source[i].path,
            destination[j].path,
        ));
        let passes = !creates && (i >= source.len() || crate::path::path_before(
            destination[j].path,
            source[i].path,
        ));
        let next_i = if passes {
            i
        } else {
            i + 1
        };
        let next_j = if creates {
            j
        } else {
            j + 1
        };
        lemma_merge_without_deletes(source, destination, next_i, next_j);
        assert(plan.drop_first() =~= merge_plan(source, destination, next_i, next_j, true));
    }
}

/// Asking for deletes only adds deletes: the plan without them is the plan with them,
/// every delete left out. What cannot be planned one way cannot be planned the other.
pub proof fn lemma_deletes_are_only_added(
    source: (ManifestRoot, Seq<crate::manifest::Listing>),
    destination: Option<(ManifestRoot, Seq<crate::manifest::Listing>)>,
)
    ensures
        planned(source, destination, PlanOptions { delete_extraneous: false }) == match planned(
            source,
            destination,
            PlanOptions { delete_extraneous: true },
        ) {
            Ok(operations) => Ok(without_deletes(operations)),
            Err(error) => Err(error),
        },
{
    match planned(source, destination, PlanOptions { delete_extraneous: true }) {
        Ok(operations) => {
            if destination is Some && source.0 == ManifestRoot::Directory {
                let (_, entries) = destination->Some_0;
                lemma_merge_without_deletes(source.1, entries, 0, 0);
            } else {
                lemma_nothing_left_out(operations);
            }
        },
        Err(_) => {},
    }
}

/// A destination entry is deleted exactly once if deletes are asked for and the source
/// does not list its path, and else not at all.
pub proof fn lemma_deletes_are_exact(
    source: Seq<crate::manifest::Listing>,
    destination: Seq<crate::manifest::Listing>,
    options: PlanOptions,
    j: usize,
)
    requires
        source.len() <= usize::MAX,
        destination.len() <= usize::MAX,
        increasing(source),
        increasing(destination),
        j < destination.len(),
    ensures
        planned(
            (ManifestRoot::Directory, source),
            Some((ManifestRoot::Directory, destination)),
            options,
        ) matches Ok(operations) && operations.to_multiset().count(
            Operation::Delete { destination_index: j },
        ) == if options.delete_extraneous && !lists(source, destination[j as int].path) {
            1nat
        } else {
            0
        },
{
    let operations = planned(
        (ManifestRoot::Directory, source),
        Some((ManifestRoot::Directory, destination)),
        options,
    )->Ok_0;
    let delete = Operation::Delete { destination_index: j };
    let path = destination[j as int].path;
    lemma_plan_is_justified(source, destination, options);
    lemma_plan_goes_forward(source, destination, options);
    operations.to_multiset_ensures();
    assert(operations.contains(delete) <==> operations.to_multiset().count(delete) > 0);
    if options.delete_extraneous && !lists(source, path) {
        lemma_plan_covers_every_entry_once(source, destination, options);
        assert(counting(0, destination.len() as int)[j as int] == j);
        lemma_destination_has_operation(operations, j as int);
        let k = choose|k: int|
            0 <= k < operations.len() && (destination_of(#[trigger] operations[k]) matches Some(
                found,
            ) && found == j);
        assert(justified(source, destination, operations[k], true));
        if !(operations[k] is Delete) {
            let i = source_of(operations[k])->0 as int;
            assert(source[i].path == path);
        }
        assert(operations[k] == delete);
        assert forall|a: int, b: int|
            0 <= a < operations.len() && 0 <= b < operations.len() && a != b implies operations[a]
            != operations[b] by {
            if a < b {
                assert(source_of(operations[a]) is Some || destination_of(operations[a]) is Some);
            } else {
                assert(source_of(operations[b]) is Some || destination_of(operations[b]) is Some);
            }
        }
        assert(operations.no_duplicates());
        operations.lemma_multiset_has_no_duplicates();
        assert(operations.to_multiset().contains(delete));
    } else if operations.contains(delete) {
        let k = choose|k: int| 0 <= k < operations.len() && operations[k] == delete;
        assert(justified(source, destination, operations[k], options.delete_extraneous));
    }
}

/// When no path is both created and deleted, the order of the plan is of no
/// account.
proof fn lemma_paths_after(
    source: Seq<crate::manifest::Listing>,
    destination: Seq<crate::manifest::Listing>,
    operations: Seq<Operation>,
    present: Set<Seq<crate::path::Name>>,
    path: Seq<crate::path::Name>,
)
    requires
        !(creates(source, operations, path) && deletes(destination, operations, path)),
    ensures
        paths_after(source, destination, operations, present).contains(path) <==> creates(
            source,
            operations,
            path,
        ) || (present.contains(path) && !deletes(destination, operations, path)),
    decreases operations.len(),
{
    if operations.len() > 0 {
        let rest = operations.drop_last();
        let last = operations.last();
        let end = operations.len() - 1;
        assert(operations[end] == last);
        if creates(source, rest, path) {
            let k = choose|k: int|
                0 <= k < rest.len() && (#[trigger] rest[k] matches Operation::Create {
                    source_index,
                } && source[source_index as int].path == path);
            assert(operations[k] == rest[k]);
        }
        if deletes(destination, rest, path) {
            let k = choose|k: int|
                0 <= k < rest.len() && (#[trigger] rest[k] matches Operation::Delete {
                    destination_index,
                } && destination[destination_index as int].path == path);
            assert(operations[k] == rest[k]);
        }
        if creates(source, operations, path) {
            let k = choose|k: int|
                0 <= k < operations.len() && (#[trigger] operations[k] matches Operation::Create {
                    source_index,
                } && source[source_index as int].path == path);
            if k < end {
                assert(rest[k] == operations[k]);
            }
        }
        if deletes(destination, operations, path) {
            let k = choose|k: int|
                0 <= k < operations.len() && (#[trigger] operations[k] matches Operation::Delete {
                    destination_index,
                } && destination[destination_index as int].path == path);
            if k < end {
                assert(rest[k] == operations[k]);
            }
        }
        lemma_paths_after(source, destination, rest, present, path);
    }
}

/// An index that the operations count is the source of one of them.
pub(crate) proof fn lemma_source_has_operation(operations: Seq<Operation>, index: int)
    requires
        sources_of(operations).contains(index),
    ensures
        exists|k: int|
            0 <= k < operations.len() && (source_of(#[trigger] operations[k]) matches Some(found)
                && found == index),
    decreases operations.len(),
{
    let all = sources_of(operations);
    let rest = sources_of(operations.drop_first());
    let at = choose|at: int| 0 <= at < all.len() && all[at] == index;
    match source_of(operations[0]) {
        Some(found) => {
            if found != index {
                assert(rest[at - 1] == index);
            }
        },
        None => {},
    }
    if !(source_of(operations[0]) matches Some(found) && found == index) {
        assert(rest.contains(index));
        lemma_source_has_operation(operations.drop_first(), index);
        let k = choose|k: int|
            0 <= k < operations.drop_first().len() && (source_of(
                #[trigger] operations.drop_first()[k],
            ) matches Some(found) && found == index);
        assert(operations[k + 1] == operations.drop_first()[k]);
    }
}

/// An index that the operations count is the destination of one of them.
pub(crate) proof fn lemma_destination_has_operation(operations: Seq<Operation>, index: int)
    requires
        destinations_of(operations).contains(index),
    ensures
        exists|k: int|
            0 <= k < operations.len() && (destination_of(#[trigger] operations[k]) matches Some(
                found,
            ) && found == index),
    decreases operations.len(),
{
    let all = destinations_of(operations);
    let rest = destinations_of(operations.drop_first());
    let at = choose|at: int| 0 <= at < all.len() && all[at] == index;
    match destination_of(operations[0]) {
        Some(found) => {
            if found != index {
                assert(rest[at - 1] == index);
            }
        },
        None => {},
    }
    if !(destination_of(operations[0]) matches Some(found) && found == index) {
        assert(rest.contains(index));
        lemma_destination_has_operation(operations.drop_first(), index);
        let k = choose|k: int|
            0 <= k < operations.drop_first().len() && (destination_of(
                #[trigger] operations.drop_first()[k],
            ) matches Some(found) && found == index);
        assert(operations[k + 1] == operations.drop_first()[k]);
    }
}

/// Carrying out a plan leaves the destination with exactly the paths of the
/// source. Without deletes it also keeps the paths that only it has.
pub proof fn lemma_plan_reaches_the_source(
    source: Seq<crate::manifest::Listing>,
    destination: Seq<crate::manifest::Listing>,
    options: PlanOptions,
)
    requires
        source.len() <= usize::MAX,
        destination.len() <= usize::MAX,
        increasing(source),
        increasing(destination),
    ensures
        ({
            let plan = planned(
                (ManifestRoot::Directory, source),
                Some((ManifestRoot::Directory, destination)),
                options,
            );
            &&& plan matches Ok(operations)
            &&& paths_after(source, destination, operations, paths_of(destination))
                == if options.delete_extraneous {
                paths_of(source)
            } else {
                paths_of(source).union(paths_of(destination))
            }
        }),
{
    let operations = merge_plan(source, destination, 0, 0, options.delete_extraneous);
    let present = paths_of(destination);
    let after = paths_after(source, destination, operations, present);
    let expected = if options.delete_extraneous {
        paths_of(source)
    } else {
        paths_of(source).union(paths_of(destination))
    };
    lemma_merge_justified(source, destination, 0, 0, options.delete_extraneous);
    lemma_merge_counts(source, destination, 0, 0, options.delete_extraneous);
    assert forall|path: Seq<crate::path::Name>| #[trigger] after.contains(path)
        <==> expected.contains(path) by {
        if creates(source, operations, path) {
            let k = choose|k: int|
                0 <= k < operations.len() && (#[trigger] operations[k] matches Operation::Create {
                    source_index,
                } && source[source_index as int].path == path);
            assert(justified(source, destination, operations[k], options.delete_extraneous));
            assert(lists(source, path));
        }
        if deletes(destination, operations, path) {
            let k = choose|k: int|
                0 <= k < operations.len() && (#[trigger] operations[k] matches Operation::Delete {
                    destination_index,
                } && destination[destination_index as int].path == path);
            assert(justified(source, destination, operations[k], options.delete_extraneous));
            assert(!lists(source, path));
        }
        lemma_paths_after(source, destination, operations, present, path);
        if lists(source, path) {
            let i = choose|i: int|
                0 <= i < source.len() && (#[trigger] source[i]).path == path;
            assert(counting(0, source.len() as int)[i] == i);
            lemma_source_has_operation(operations, i);
            let k = choose|k: int|
                0 <= k < operations.len() && (source_of(#[trigger] operations[k]) matches Some(
                    found,
                ) && found == i);
            assert(justified(source, destination, operations[k], options.delete_extraneous));
            match operations[k] {
                Operation::Create { .. } => {
                    assert(creates(source, operations, path));
                },
                _ => {
                    assert(lists(destination, path));
                },
            }
        }
        if lists(destination, path) && options.delete_extraneous {
            let j = choose|j: int|
                0 <= j < destination.len() && (#[trigger] destination[j]).path == path;
            assert(counting(0, destination.len() as int)[j] == j);
            lemma_destination_has_operation(operations, j);
            let k = choose|k: int|
                0 <= k < operations.len() && (destination_of(#[trigger] operations[k]) matches Some(
                    found,
                ) && found == j);
            assert(justified(source, destination, operations[k], options.delete_extraneous));
            match operations[k] {
                Operation::Delete { .. } => {
                    assert(deletes(destination, operations, path));
                },
                _ => {
                    assert(lists(source, path));
                },
            }
        }
    }
    assert(after =~= expected);
}

proof fn lemma_identical_from(
    entries: Seq<crate::manifest::Listing>,
    i: int,
    delete_extraneous: bool,
)
    requires
        0 <= i <= entries.len(),
    ensures
        merge_plan(entries, entries, i, i, delete_extraneous) == Seq::new(
            (entries.len() - i) as nat,
            |k: int|
                Operation::Skip {
                    source_index: (i + k) as usize,
                    destination_index: (i + k) as usize,
                },
        ),
    decreases entries.len() - i,
{
    let plan = merge_plan(entries, entries, i, i, delete_extraneous);
    let expected = Seq::new(
        (entries.len() - i) as nat,
        |k: int|
            Operation::Skip {
                source_index: (i + k) as usize,
                destination_index: (i + k) as usize,
            },
    );
    if i < entries.len() {
        crate::path::lemma_path_before_irreflexive(entries[i].path);
        lemma_identical_from(entries, i + 1, delete_extraneous);
    }
    assert(plan =~= expected);
}

/// Directories that list the same files are planned as skips alone.
pub proof fn lemma_identical_directories_are_skipped(
    entries: Seq<crate::manifest::Listing>,
    options: PlanOptions,
)
    ensures
        planned(
            (ManifestRoot::Directory, entries),
            Some((ManifestRoot::Directory, entries)),
            options,
        ) == Ok::<Seq<Operation>, PlanError>(
            Seq::new(
                entries.len(),
                |k: int|
                    Operation::Skip {
                        source_index: k as usize,
                        destination_index: k as usize,
                    },
            ),
        ),
{
    lemma_identical_from(entries, 0, options.delete_extraneous);
    assert(merge_plan(entries, entries, 0, 0, options.delete_extraneous) =~= Seq::new(
        entries.len(),
        |k: int|
            Operation::Skip { source_index: k as usize, destination_index: k as usize },
    ));
}

/// The path that an operation of a plan for two directories is about.
pub open spec fn subject(
    source: Seq<crate::manifest::Listing>,
    destination: Seq<crate::manifest::Listing>,
    operation: Operation,
) -> Seq<crate::path::Name> {
    match operation {
        Operation::Create { source_index } => source[source_index as int].path,
        Operation::UpdateData { source_index, .. } => source[source_index as int].path,
        Operation::UpdateMetadata { source_index, .. } => source[source_index as int].path,
        Operation::Skip { source_index, .. } => source[source_index as int].path,
        Operation::Delete { destination_index } => destination[destination_index as int].path,
    }
}

/// Whether an operation on two entries says what tells them apart: a different kind or
/// length needs new contents, a different time alone needs new metadata, and only if
/// nothing differs there is nothing to do.
pub open spec fn tells_apart(
    source: Seq<crate::manifest::Listing>,
    destination: Seq<crate::manifest::Listing>,
    operation: Operation,
) -> bool {
    match operation {
        Operation::UpdateData { source_index, destination_index } => {
            let (left, right) = (source[source_index as int], destination[destination_index as int]);
            &&& source_index < source.len()
            &&& destination_index < destination.len()
            &&& left.kind != right.kind || left.metadata.len != right.metadata.len
        },
        Operation::UpdateMetadata { source_index, destination_index } => {
            let (left, right) = (source[source_index as int], destination[destination_index as int]);
            &&& source_index < source.len()
            &&& destination_index < destination.len()
            &&& left.kind == right.kind
            &&& left.metadata.len == right.metadata.len
            &&& left.metadata.modified_unix_secs != right.metadata.modified_unix_secs
        },
        Operation::Skip { source_index, destination_index } => {
            let (left, right) = (source[source_index as int], destination[destination_index as int]);
            &&& source_index < source.len()
            &&& destination_index < destination.len()
            &&& left.kind == right.kind
            &&& left.metadata.len == right.metadata.len
            &&& left.metadata.modified_unix_secs == right.metadata.modified_unix_secs
        },
        Operation::Create { .. } | Operation::Delete { .. } => true,
    }
}

proof fn lemma_merge_tells_apart(
    source: Seq<crate::manifest::Listing>,
    destination: Seq<crate::manifest::Listing>,
    i: int,
    j: int,
    delete_extraneous: bool,
)
    requires
        0 <= i <= source.len() <= usize::MAX,
        0 <= j <= destination.len() <= usize::MAX,
    ensures
        ({
            let plan = merge_plan(source, destination, i, j, delete_extraneous);
            forall|k: int|
                0 <= k < plan.len() ==> tells_apart(source, destination, #[trigger] plan[k])
        }),
    decreases source.len() - i + destination.len() - j,
{
    let plan = merge_plan(source, destination, i, j, delete_extraneous);
    if i == source.len() && j == destination.len() {
    } else {
        let creates = j >= destination.len() || (i < source.len() && crate::path::path_before(
            source[i].path,
            destination[j].path,
        ));
        let passes = !creates && (i >= source.len() || crate::path::path_before(
            destination[j].path,
            source[i].path,
        ));
        let next_i = if passes {
            i
        } else {
            i + 1
        };
        let next_j = if creates {
            j
        } else {
            j + 1
        };
        let rest = merge_plan(source, destination, next_i, next_j, delete_extraneous);
        lemma_merge_tells_apart(source, destination, next_i, next_j, delete_extraneous);
        if passes && !delete_extraneous {
            assert(plan == rest);
        } else {
            assert forall|k: int| 0 <= k < plan.len() implies tells_apart(
                source,
                destination,
                #[trigger] plan[k],
            ) by {
                if k > 0 {
                    assert(plan[k] == rest[k - 1]);
                }
            }
        }
    }
}

/// In every plan, for directories and for files, an operation on two entries is new
/// contents exactly if their kinds or lengths differ, a skip exactly if kind, length and
/// modification time are all equal, and new metadata otherwise.
pub proof fn lemma_matched_entries_are_told_apart(
    source: (ManifestRoot, Seq<crate::manifest::Listing>),
    destination: (ManifestRoot, Seq<crate::manifest::Listing>),
    options: PlanOptions,
)
    requires
        source.1.len() <= usize::MAX,
        destination.1.len() <= usize::MAX,
        source.0 == ManifestRoot::File ==> source.1.len() > 0,
        destination.0 == ManifestRoot::File ==> destination.1.len() > 0,
    ensures
        planned(source, Some(destination), options) matches Ok(operations) ==> forall|k: int|
            0 <= k < operations.len() ==> tells_apart(
                source.1,
                destination.1,
                #[trigger] operations[k],
            ),
{
    lemma_merge_tells_apart(source.1, destination.1, 0, 0, options.delete_extraneous);
}

/// Two files are one operation on both, whatever their names. Roots of two kinds are
/// refused, with both kinds, and nothing else is.
pub proof fn lemma_files_are_one_item(
    source: (ManifestRoot, Seq<crate::manifest::Listing>),
    destination: (ManifestRoot, Seq<crate::manifest::Listing>),
    options: PlanOptions,
)
    ensures
        planned(source, Some(destination), options) is Err <==> source.0 != destination.0,
        planned(source, Some(destination), options) matches Err(error) ==> error == (
        PlanError::RootKindMismatch { source_root: source.0, destination_root: destination.0 }),
        source.0 == ManifestRoot::File && destination.0 == ManifestRoot::File ==> {
            &&& planned(source, Some(destination), options) matches Ok(operations)
            &&& operations.len() == 1
            &&& match operations[0] {
                Operation::UpdateData { source_index, destination_index }
                | Operation::UpdateMetadata { source_index, destination_index }
                | Operation::Skip { source_index, destination_index } => source_index == 0
                    && destination_index == 0,
                _ => false,
            }
        },
{
}

/// Without a destination, every entry is created, in the order of the manifest.
pub proof fn lemma_everything_is_created(
    source: (ManifestRoot, Seq<crate::manifest::Listing>),
    options: PlanOptions,
)
    requires
        source.1.len() <= usize::MAX,
    ensures
        planned(source, None, options) matches Ok(operations) && operations.len() == source.1.len()
            && forall|k: int|
            0 <= k < operations.len() ==> (#[trigger] operations[k] matches Operation::Create {
                source_index,
            } && source_index == k),
{
}

proof fn lemma_merge_in_path_order(
    source: Seq<crate::manifest::Listing>,
    destination: Seq<crate::manifest::Listing>,
    i: int,
    j: int,
    delete_extraneous: bool,
)
    requires
        0 <= i <= source.len() <= usize::MAX,
        0 <= j <= destination.len() <= usize::MAX,
        increasing(source),
        increasing(destination),
    ensures
        ({
            let plan = merge_plan(source, destination, i, j, delete_extraneous);
            &&& forall|k: int, m: int|
                #![trigger plan[k], plan[m]]
                0 <= k < m < plan.len() ==> crate::path::path_before(
                    subject(source, destination, plan[k]),
                    subject(source, destination, plan[m]),
                )
            &&& forall|k: int, path: Seq<crate::path::Name>|
                #![trigger plan[k], comes_first(source, destination, i, j, path)]
                0 <= k < plan.len() && comes_first(source, destination, i, j, path)
                    ==> crate::path::path_before(path, subject(source, destination, plan[k]))
        }),
    decreases source.len() - i + destination.len() - j,
{
    let plan = merge_plan(source, destination, i, j, delete_extraneous);
    if i == source.len() && j == destination.len() {
    } else {
        let creates = j >= destination.len() || (i < source.len() && crate::path::path_before(
            source[i].path,
            destination[j].path,
        ));
        let passes = !creates && (i >= source.len() || crate::path::path_before(
            destination[j].path,
            source[i].path,
        ));
        let next_i = if passes {
            i
        } else {
            i + 1
        };
        let next_j = if creates {
            j
        } else {
            j + 1
        };
        let taken = if passes {
            destination[j].path
        } else {
            source[i].path
        };
        let rest = merge_plan(source, destination, next_i, next_j, delete_extraneous);
        lemma_merge_in_path_order(source, destination, next_i, next_j, delete_extraneous);
        if !creates && !passes {
            crate::path::lemma_path_before_total(source[i].path, destination[j].path);
        }
        assert(comes_first(source, destination, next_i, next_j, taken)) by {
            assert forall|a: int| next_i <= a < source.len() implies crate::path::path_before(
                taken,
                (#[trigger] source[a]).path,
            ) by {
                if passes && a > i {
                    crate::path::lemma_path_before_transitive(
                        taken,
                        source[i].path,
                        source[a].path,
                    );
                }
            }
            assert forall|b: int| next_j <= b < destination.len() implies crate::path::path_before(
                taken,
                (#[trigger] destination[b]).path,
            ) by {
                if creates && b > j {
                    crate::path::lemma_path_before_transitive(
                        taken,
                        destination[j].path,
                        destination[b].path,
                    );
                }
            }
        }
        assert forall|path: Seq<crate::path::Name>| #[trigger]
            comes_first(source, destination, i, j, path) implies crate::path::path_before(
            path,
            taken,
        ) && comes_first(source, destination, next_i, next_j, path) by {}
        if passes && !delete_extraneous {
            assert(plan == rest);
        } else {
            assert(subject(source, destination, plan[0]) == taken);
            assert forall|k: int| 0 < k < plan.len() implies #[trigger] plan[k] == rest[k - 1] by {
            }
        }
    }
}

/// Whether `path` comes before everything that is still to be merged.
spec fn comes_first(
    source: Seq<crate::manifest::Listing>,
    destination: Seq<crate::manifest::Listing>,
    i: int,
    j: int,
    path: Seq<crate::path::Name>,
) -> bool {
    &&& forall|a: int|
        i <= a < source.len() ==> crate::path::path_before(path, (#[trigger] source[a]).path)
    &&& forall|b: int|
        j <= b < destination.len() ==> crate::path::path_before(
            path,
            (#[trigger] destination[b]).path,
        )
}

/// A plan for two directories stands in the order of the paths, creates, updates and
/// deletes together.
pub proof fn lemma_plan_is_in_path_order(
    source: Seq<crate::manifest::Listing>,
    destination: Seq<crate::manifest::Listing>,
    options: PlanOptions,
)
    requires
        source.len() <= usize::MAX,
        destination.len() <= usize::MAX,
        increasing(source),
        increasing(destination),
    ensures
        planned(
            (ManifestRoot::Directory, source),
            Some((ManifestRoot::Directory, destination)),
            options,
        ) matches Ok(operations) && forall|k: int, m: int|
            #![trigger operations[k], operations[m]]
            0 <= k < m < operations.len() ==> crate::path::path_before(
                subject(source, destination, operations[k]),
                subject(source, destination, operations[m]),
            ),
{
    lemma_merge_in_path_order(source, destination, 0, 0, options.delete_extraneous);
}

/// A plan that cannot be made is handed to nobody, and its error is returned. If a plan was
/// carried out, every operation was accepted. If not, what was returned is the answer to one
/// of the operations, is no success, and all operations in front of that one were accepted.
/// So nothing is carried out behind an operation that is never accepted.
pub proof fn lemma_refusals_end_the_plan<F: FnMut(Operation) -> Result<(), PlanError>>(
    plan: Result<Seq<Operation>, PlanError>,
    handler: F,
    outcome: Result<(), PlanError>,
    refused: int,
)
    requires
        carries_out(plan, handler, outcome),
    ensures
        plan matches Err(error) ==> outcome == Err::<(), PlanError>(error),
        plan matches Ok(operations) ==> {
            &&& outcome is Ok ==> forall|k: int|
                0 <= k < operations.len() ==> accepts(handler, #[trigger] operations[k])
            &&& outcome is Err ==> exists|k: int|
                #![trigger operations[k]]
                0 <= k < operations.len() && call_ensures(handler, (operations[k],), outcome)
                    && forall|m: int|
                    0 <= m < k ==> accepts(handler, #[trigger] operations[m])
            &&& 0 <= refused < operations.len() && !accepts(handler, operations[refused])
                ==> outcome is Err && exists|k: int|
                #![trigger operations[k]]
                0 <= k <= refused && call_ensures(handler, (operations[k],), outcome)
        },
{
    if let Ok(operations) = plan {
        if outcome is Err {
            let k = choose|k: int| #[trigger] stops(handler, operations, k, outcome);
            assert(answers(handler, operations[k], outcome));
            if 0 <= refused < operations.len() && !accepts(handler, operations[refused]) {
                if refused < k {
                    assert(accepts(handler, operations[refused]));
                }
            }
        }
    }
}

} // verus!
