//! What a sync leaves behind.
//!
//! Files are taken here as contents under paths. A sync whose commands are carried
//! out, and whose comparisons are answered truthfully, leaves the destination with
//! what the source holds. Everything in this module is proof: nothing of it runs.

use crate::manifest::ManifestRoot;
use crate::plan::Operation;
use crate::session::local::{Deed, LocalSync, Order};
use crate::session::{Chunker, Options, Strategy};
use vstd::prelude::*;

verus! {

/// The chunks of a file, cut to the usual sizes.
pub open spec fn usual_chunks(data: Seq<u8>) -> Seq<(u64, u64, usize)> {
    crate::chunker::fastcdc::fastcdc_cuts(
        data,
        crate::chunker::fastcdc::DEFAULT_MIN_SIZE,
        crate::chunker::fastcdc::DEFAULT_AVG_SIZE,
        crate::chunker::fastcdc::DEFAULT_MAX_SIZE,
    )
}

/// What a delta makes of the old contents of a file: the decisions about the chunks of
/// the source, applied to the old contents.
pub open spec fn delta_outcome(source: Seq<u8>, old_contents: Seq<u8>) -> Result<
    Seq<u8>,
    (u64, usize),
> {
    crate::strategy::cdc::rebuilt(
        crate::strategy::cdc::emissions(
            crate::strategy::cdc::spans_in(old_contents, usual_chunks(old_contents)),
            source,
            usual_chunks(source),
        ),
        old_contents,
    )
}

/// The files after a change. A delta that cannot be applied leaves the file that it was
/// for as it was.
pub open spec fn changed(
    files: Map<Seq<crate::path::Name>, Seq<u8>>,
    deed: Deed,
) -> Map<Seq<crate::path::Name>, Seq<u8>> {
    match deed {
        Deed::ReplaceFile { source, destination } => files.insert(destination, files[source]),
        Deed::FastCdcDelta { source, destination } => match delta_outcome(
            files[source],
            files[destination],
        ) {
            Ok(rebuilt) => files.insert(destination, rebuilt),
            Err(_) => files,
        },
        Deed::RemoveFile { path, .. } => files.remove(path),
        Deed::SyncMetadata { .. } | Deed::Nothing => files,
    }
}

/// The files after a command.
pub open spec fn files_after_one(
    files: Map<Seq<crate::path::Name>, Seq<u8>>,
    order: Order,
) -> Map<Seq<crate::path::Name>, Seq<u8>> {
    match order {
        Order::Perform(deed) => changed(files, deed),
        _ => files,
    }
}

/// The files after a run of commands.
pub open spec fn files_after(
    files: Map<Seq<crate::path::Name>, Seq<u8>>,
    orders: Seq<Order>,
) -> Map<Seq<crate::path::Name>, Seq<u8>>
    decreases orders.len(),
{
    if orders.len() == 0 {
        files
    } else {
        files_after(files_after_one(files, orders[0]), orders.drop_first())
    }
}

/// What a path holds, if there is a file.
pub open spec fn file_at(
    files: Map<Seq<crate::path::Name>, Seq<u8>>,
    path: Seq<crate::path::Name>,
) -> Option<Seq<u8>> {
    if files.contains_key(path) {
        Some(files[path])
    } else {
        None
    }
}

/// Whether `same` is the truth about the files that decide about an operation.
pub open spec fn truthful(
    sync: LocalSync<'_>,
    files: Map<Seq<crate::path::Name>, Seq<u8>>,
    operation: Operation,
    same: bool,
) -> bool {
    sync.compared(operation) matches Ok(Some((source, destination))) ==> same == (files[source]
        == files[destination])
}

/// Whether the chunks of two files cover them end to end, and no chunk of the one has
/// the hash and the length of a chunk of the other with other bytes.
pub open spec fn chunks_tell_apart(source: Seq<u8>, old_contents: Seq<u8>) -> bool {
    let max_size = crate::chunker::fastcdc::DEFAULT_MAX_SIZE as int;
    &&& crate::chunker::fastcdc::tiles(usual_chunks(source), source.len() as int, max_size)
    &&& crate::chunker::fastcdc::tiles(
        usual_chunks(old_contents),
        old_contents.len() as int,
        max_size,
    )
    &&& crate::strategy::cdc::collision_free(
        old_contents,
        usual_chunks(old_contents),
        source,
        usual_chunks(source),
    )
}

/// Whether the chunks of the two files tell them apart, where an operation writes a
/// delta.
pub open spec fn rebuildable(
    sync: LocalSync<'_>,
    files: Map<Seq<crate::path::Name>, Seq<u8>>,
    operation: Operation,
    options: Options,
    same: bool,
) -> bool {
    sync.deed(crate::session::local::refined(operation, same), options) matches Ok(
        Deed::FastCdcDelta { source, destination },
    ) ==> chunks_tell_apart(files[source], files[destination])
}

/// The source file of an operation, if it has one, and the path that it is about.
spec fn ends_of(sync: LocalSync<'_>, operation: Operation) -> (
    Option<Seq<crate::path::Name>>,
    Seq<crate::path::Name>,
) {
    match operation {
        Operation::Create { source_index } => {
            let pair = sync.create_pair(source_index as int)->Ok_0;
            (Some(pair.0), pair.1)
        },
        Operation::UpdateData { source_index, destination_index } | Operation::UpdateMetadata {
            source_index,
            destination_index,
        } | Operation::Skip { source_index, destination_index } => {
            let pair = sync.matched_pair(source_index as int, destination_index as int)->Ok_0;
            (Some(pair.0), pair.1)
        },
        Operation::Delete { destination_index } => (
            None,
            sync.deleted_path(destination_index as int)->Ok_0,
        ),
    }
}

/// What an operation leaves at the path that it is about.
spec fn left_by(
    sync: LocalSync<'_>,
    files: Map<Seq<crate::path::Name>, Seq<u8>>,
    operation: Operation,
) -> Option<Seq<u8>> {
    match ends_of(sync, operation).0 {
        Some(source) => Some(files[source]),
        None => None,
    }
}

/// Whether the files that an operation needs are there.
spec fn provided(
    sync: LocalSync<'_>,
    files: Map<Seq<crate::path::Name>, Seq<u8>>,
    operation: Operation,
) -> bool {
    let (source, target) = ends_of(sync, operation);
    &&& source matches Some(path) ==> files.contains_key(path)
    &&& !(operation is Create || operation is Delete) ==> files.contains_key(target)
}

proof fn lemma_files_after_append(
    files: Map<Seq<crate::path::Name>, Seq<u8>>,
    left: Seq<Order>,
    right: Seq<Order>,
)
    ensures
        files_after(files, left + right) == files_after(files_after(files, left), right),
    decreases left.len(),
{
    if left.len() == 0 {
        assert(left + right =~= right);
    } else {
        assert((left + right).drop_first() =~= left.drop_first() + right);
        lemma_files_after_append(files_after_one(files, left[0]), left.drop_first(), right);
    }
}

proof fn lemma_files_after_single(
    files: Map<Seq<crate::path::Name>, Seq<u8>>,
    orders: Seq<Order>,
)
    requires
        orders.len() == 1,
    ensures
        files_after(files, orders) == files_after_one(files, orders[0]),
{
    assert(orders.drop_first() =~= Seq::<Order>::empty());
    assert(files_after(files_after_one(files, orders[0]), orders.drop_first())
        == files_after_one(files, orders[0]));
}

/// One operation leaves what it should at its path, and every other path alone.
proof fn lemma_one_operation(
    sync: LocalSync<'_>,
    files: Map<Seq<crate::path::Name>, Seq<u8>>,
    operation: Operation,
    options: Options,
    same: bool,
)
    requires
        sync.trouble_free(operation, options, same),
        truthful(sync, files, operation, same),
        rebuildable(sync, files, operation, options, same),
        provided(sync, files, operation),
    ensures
        ({
            let after = changed(
                files,
                sync.deed(crate::session::local::refined(operation, same), options)->Ok_0,
            );
            let target = ends_of(sync, operation).1;
            &&& file_at(after, target) == left_by(sync, files, operation)
            &&& forall|path: Seq<crate::path::Name>|
                path != target ==> #[trigger] file_at(after, path) == file_at(files, path)
        }),
{
    let deed = sync.deed(crate::session::local::refined(operation, same), options)->Ok_0;
    if let Deed::FastCdcDelta { source, destination } = deed {
        crate::strategy::cdc::lemma_emissions_rebuild_the_source(
            files[destination],
            usual_chunks(files[destination]),
            files[source],
            usual_chunks(files[source]),
            crate::chunker::fastcdc::DEFAULT_MAX_SIZE as int,
        );
    }
}

/// The commands for the first operation change the files as that operation does,
/// and the commands for the others follow.
proof fn lemma_course_starts_with(
    sync: LocalSync<'_>,
    files: Map<Seq<crate::path::Name>, Seq<u8>>,
    operations: Seq<Operation>,
    options: Options,
    same: spec_fn(Operation) -> bool,
)
    requires
        operations.len() > 0,
        sync.trouble_free(operations[0], options, same(operations[0])),
    ensures
        files_after(files, sync.course(operations, options, same)) == files_after(
            changed(
                files,
                sync.deed(
                    crate::session::local::refined(operations[0], same(operations[0])),
                    options,
                )->Ok_0,
            ),
            sync.course(operations.drop_first(), options, same),
        ),
{
    let operation = operations[0];
    let last = crate::session::local::refined(operation, same(operation));
    let deed = sync.deed(last, options)->Ok_0;
    let (first, performing, reporting) = sync.steps_of(operations, options, same(operation));
    let compared = match first {
        crate::session::local::Progress::Step {
            stage: crate::session::local::Stage::Comparing { .. },
            ..
        } => crate::session::local::orders_in(first),
        _ => Seq::empty(),
    };
    let performed = crate::session::local::orders_in(performing);
    let reported = crate::session::local::orders_in(reporting);
    let later = sync.course(operations.drop_first(), options, same);
    assert(performed =~= seq![Order::Perform(deed)]);
    assert(reported =~= seq![
        Order::Report { operation: last, path: sync.reported_path(last)->Ok_0 },
    ]);
    assert(sync.course(operations, options, same) == compared + performed + reported + later);
    lemma_files_after_append(files, compared + performed + reported, later);
    lemma_files_after_append(files, compared + performed, reported);
    lemma_files_after_append(files, compared, performed);
    if compared.len() == 1 {
        assert(compared[0] is Compare);
        lemma_files_after_single(files, compared);
    }
    assert(files_after(files, compared) == files);
    lemma_files_after_single(files, performed);
    lemma_files_after_single(changed(files, deed), reported);
}

/// Operations about different paths, none of which another one reads, leave what
/// each of them should at its path, and every other path alone.
proof fn lemma_operations(
    sync: LocalSync<'_>,
    files: Map<Seq<crate::path::Name>, Seq<u8>>,
    operations: Seq<Operation>,
    options: Options,
    same: spec_fn(Operation) -> bool,
)
    requires
        forall|k: int|
            #![trigger operations[k]]
            0 <= k < operations.len() ==> sync.trouble_free(
                operations[k],
                options,
                same(operations[k]),
            ) && truthful(sync, files, operations[k], same(operations[k])) && rebuildable(
                sync,
                files,
                operations[k],
                options,
                same(operations[k]),
            ) && provided(sync, files, operations[k]),
        forall|k: int, m: int|
            #![trigger operations[k], operations[m]]
            0 <= k < operations.len() && 0 <= m < operations.len() ==> ends_of(
                sync,
                operations[k],
            ).0 != Some(ends_of(sync, operations[m]).1) && (k != m ==> ends_of(
                sync,
                operations[k],
            ).1 != ends_of(sync, operations[m]).1),
    ensures
        ({
            let after = files_after(files, sync.course(operations, options, same));
            &&& forall|k: int|
                0 <= k < operations.len() ==> file_at(
                    after,
                    ends_of(sync, #[trigger] operations[k]).1,
                ) == left_by(sync, files, operations[k])
            &&& forall|path: Seq<crate::path::Name>|
                (forall|k: int|
                    0 <= k < operations.len() ==> ends_of(sync, #[trigger] operations[k]).1 != path)
                    ==> #[trigger] file_at(after, path) == file_at(files, path)
        }),
    decreases operations.len(),
{
    let after = files_after(files, sync.course(operations, options, same));
    if operations.len() == 0 {
        let course = sync.course(operations, options, same);
        assert(course =~= seq![Order::Done]);
        lemma_files_after_single(files, course);
    } else {
        let operation = operations[0];
        let target = ends_of(sync, operation).1;
        let rest = operations.drop_first();
        let next = changed(
            files,
            sync.deed(
                crate::session::local::refined(operation, same(operation)),
                options,
            )->Ok_0,
        );
        lemma_course_starts_with(sync, files, operations, options, same);
        lemma_one_operation(sync, files, operation, options, same(operation));
        assert forall|k: int| #![trigger rest[k]] 0 <= k < rest.len() implies sync.trouble_free(
            rest[k],
            options,
            same(rest[k]),
        ) && truthful(sync, next, rest[k], same(rest[k])) && rebuildable(
            sync,
            next,
            rest[k],
            options,
            same(rest[k]),
        ) && provided(sync, next, rest[k]) by {
            assert(rest[k] == operations[k + 1]);
            let (source, other) = ends_of(sync, operations[k + 1]);
            assert(other != target);
            assert(file_at(next, other) == file_at(files, other));
            if let Some(path) = source {
                assert(path != target);
                assert(file_at(next, path) == file_at(files, path));
            }
        }
        assert forall|k: int, m: int|
            #![trigger rest[k], rest[m]]
            0 <= k < rest.len() && 0 <= m < rest.len() implies ends_of(sync, rest[k]).0 != Some(
            ends_of(sync, rest[m]).1,
        ) && (k != m ==> ends_of(sync, rest[k]).1 != ends_of(sync, rest[m]).1) by {
            assert(rest[k] == operations[k + 1]);
            assert(rest[m] == operations[m + 1]);
        }
        lemma_operations(sync, next, rest, options, same);
        assert forall|k: int| 0 <= k < operations.len() implies file_at(
            after,
            ends_of(sync, #[trigger] operations[k]).1,
        ) == left_by(sync, files, operations[k]) by {
            if k == 0 {
                assert forall|m: int| 0 <= m < rest.len() implies ends_of(
                    sync,
                    #[trigger] rest[m],
                ).1 != target by {
                    assert(rest[m] == operations[m + 1]);
                }
                assert(file_at(after, target) == file_at(next, target));
            } else {
                assert(rest[k - 1] == operations[k]);
                if let Some(path) = ends_of(sync, operations[k]).0 {
                    assert(path != target);
                    assert(file_at(next, path) == file_at(files, path));
                }
            }
        }
        assert forall|path: Seq<crate::path::Name>|
            (forall|k: int|
                0 <= k < operations.len() ==> ends_of(sync, #[trigger] operations[k]).1
                    != path) implies #[trigger] file_at(after, path) == file_at(files, path) by {
            assert(operations[0] == operation);
            assert forall|m: int| 0 <= m < rest.len() implies ends_of(sync, #[trigger] rest[m]).1
                != path by {
                assert(rest[m] == operations[m + 1]);
            }
            assert(file_at(after, path) == file_at(next, path));
        }
    }
}

/// Whether a path, joined to another, only adds to it.
pub open spec fn plain(path: Seq<crate::path::Name>) -> bool {
    !crate::path::is_absolute_path(path) && !(path.len() > 0 && path[0]
        == crate::path::Name::CurDir)
}

/// What the source lists.
pub open spec fn source_list(sync: LocalSync<'_>) -> Seq<crate::manifest::Listing> {
    crate::manifest::listings(sync.source_manifest.entries@)
}

/// What the destination lists.
pub open spec fn destination_list(sync: LocalSync<'_>) -> Seq<crate::manifest::Listing> {
    match sync.destination_manifest {
        Some(manifest) => crate::manifest::listings(manifest.entries@),
        None => Seq::empty(),
    }
}

/// Where the source keeps what it lists under `path`.
pub open spec fn in_source(sync: LocalSync<'_>, path: Seq<crate::path::Name>) -> Seq<
    crate::path::Name,
> {
    crate::path::joined(sync.source@, path)
}

/// Where the destination keeps what is listed under `path`.
pub open spec fn in_destination(sync: LocalSync<'_>, path: Seq<crate::path::Name>) -> Seq<
    crate::path::Name,
> {
    crate::path::joined(sync.destination@, path)
}

/// Whether two directories have been scanned: what they list is in path order, lies
/// inside them and is there, and no file of the source lies where the destination
/// keeps one.
pub open spec fn scanned_directories(
    sync: LocalSync<'_>,
    files: Map<Seq<crate::path::Name>, Seq<u8>>,
) -> bool {
    let source = source_list(sync);
    let destination = destination_list(sync);
    &&& sync.source_manifest.root == ManifestRoot::Directory
    &&& sync.destination_manifest matches Some(manifest) ==> manifest.root
        == ManifestRoot::Directory
    &&& crate::plan::increasing(source)
    &&& crate::plan::increasing(destination)
    &&& forall|i: int|
        0 <= i < source.len() ==> plain((#[trigger] source[i]).path) && files.contains_key(
            in_source(sync, source[i].path),
        )
    &&& forall|j: int|
        0 <= j < destination.len() ==> plain((#[trigger] destination[j]).path)
            && files.contains_key(in_destination(sync, destination[j].path))
    &&& forall|i: int, path: Seq<crate::path::Name>|
        #![trigger source[i], in_destination(sync, path)]
        0 <= i < source.len() && (crate::plan::lists(source, path) || crate::plan::lists(
            destination,
            path,
        )) ==> in_source(sync, source[i].path) != in_destination(sync, path)
}

/// Whether new contents can be written at all.
pub open spec fn writable(options: Options) -> bool {
    !(options.strategy == Strategy::Cdc && options.chunker == Chunker::SeqCdc)
}

proof fn lemma_joined_apart(
    base: Seq<crate::path::Name>,
    left: Seq<crate::path::Name>,
    right: Seq<crate::path::Name>,
)
    requires
        plain(left),
        plain(right),
        left != right,
    ensures
        crate::path::joined(base, left) != crate::path::joined(base, right),
{
    if base + left == base + right {
        assert((base + left).skip(base.len() as int) =~= left);
        assert((base + right).skip(base.len() as int) =~= right);
    }
}

/// Whether one of the operations is about source entry `i`.
spec fn takes_source(operations: Seq<Operation>, i: int) -> bool {
    exists|k: int|
        0 <= k < operations.len() && (crate::plan::source_of(
            #[trigger] operations[k],
        ) matches Some(found) && found == i)
}

/// Whether one of the operations is about destination entry `j`.
spec fn takes_destination(operations: Seq<Operation>, j: int) -> bool {
    exists|k: int|
        0 <= k < operations.len() && (crate::plan::destination_of(
            #[trigger] operations[k],
        ) matches Some(found) && found == j)
}

/// Whether the operations are about every source entry, with deletes about every
/// destination entry too, about each of them once, and with reason.
spec fn orderly(
    operations: Seq<Operation>,
    source: Seq<crate::manifest::Listing>,
    destination: Seq<crate::manifest::Listing>,
    delete_extraneous: bool,
) -> bool {
    &&& crate::plan::goes_forward(operations)
    &&& forall|k: int|
        0 <= k < operations.len() ==> crate::plan::justified(
            source,
            destination,
            #[trigger] operations[k],
            delete_extraneous,
        )
    &&& forall|i: int| 0 <= i < source.len() ==> #[trigger] takes_source(operations, i)
    &&& delete_extraneous ==> forall|j: int|
        0 <= j < destination.len() ==> #[trigger] takes_destination(operations, j)
}

proof fn lemma_plan_is_orderly(
    sync: LocalSync<'_>,
    files: Map<Seq<crate::path::Name>, Seq<u8>>,
    options: Options,
)
    requires
        scanned_directories(sync, files),
    ensures
        crate::plan::plan_of(
            *sync.source_manifest,
            sync.destination_manifest,
            options.plan,
        ) matches Ok(operations) && orderly(
            operations,
            source_list(sync),
            destination_list(sync),
            options.plan.delete_extraneous,
        ),
{
    let source = source_list(sync);
    let destination = destination_list(sync);
    let operations = crate::plan::plan_of(
        *sync.source_manifest,
        sync.destination_manifest,
        options.plan,
    )->Ok_0;
    assert(source.len() == sync.source_manifest.entries.len());
    if let Some(manifest) = sync.destination_manifest {
        assert(destination.len() == manifest.entries.len());
        assert(crate::plan::content(*manifest) == (ManifestRoot::Directory, destination));
        assert(crate::plan::content(*sync.source_manifest) == (ManifestRoot::Directory, source));
        crate::plan::lemma_plan_goes_forward(source, destination, options.plan);
        crate::plan::lemma_plan_is_justified(source, destination, options.plan);
        crate::plan::lemma_plan_covers_every_entry_once(source, destination, options.plan);
        assert forall|i: int| 0 <= i < source.len() implies #[trigger] takes_source(
            operations,
            i,
        ) by {
            assert(crate::plan::counting(0, source.len() as int)[i] == i);
            crate::plan::lemma_source_has_operation(operations, i);
        }
        if options.plan.delete_extraneous {
            assert forall|j: int| 0 <= j < destination.len() implies #[trigger] takes_destination(
                operations,
                j,
            ) by {
                assert(crate::plan::counting(0, destination.len() as int)[j] == j);
                crate::plan::lemma_destination_has_operation(operations, j);
            }
        }
    } else {
        assert forall|i: int| 0 <= i < source.len() implies #[trigger] takes_source(
            operations,
            i,
        ) by {
            assert(crate::plan::source_of(operations[i]) == Some(i as usize));
        }
        assert forall|k: int| 0 <= k < operations.len() implies crate::plan::justified(
            source,
            destination,
            #[trigger] operations[k],
            options.plan.delete_extraneous,
        ) by {
            assert(operations[k] == (Operation::Create { source_index: k as usize }));
        }
        assert(crate::plan::goes_forward(operations));
    }
}

/// The path, as it is listed, that an operation is about.
spec fn subject_of(sync: LocalSync<'_>, operation: Operation) -> Seq<crate::path::Name> {
    match operation {
        Operation::Delete { destination_index } => destination_list(
            sync,
        )[destination_index as int].path,
        Operation::Create { source_index } => source_list(sync)[source_index as int].path,
        Operation::UpdateData { source_index, .. } | Operation::UpdateMetadata {
            source_index,
            ..
        } | Operation::Skip { source_index, .. } => source_list(sync)[source_index as int].path,
    }
}

/// What one operation of a plan for two directories reads and writes.
proof fn lemma_directory_operation(
    sync: LocalSync<'_>,
    files: Map<Seq<crate::path::Name>, Seq<u8>>,
    operation: Operation,
    options: Options,
    same: bool,
)
    requires
        scanned_directories(sync, files),
        writable(options),
        crate::plan::justified(
            source_list(sync),
            destination_list(sync),
            operation,
            options.plan.delete_extraneous,
        ),
    ensures
        sync.trouble_free(operation, options, same),
        provided(sync, files, operation),
        ends_of(sync, operation).1 == in_destination(sync, subject_of(sync, operation)),
        ends_of(sync, operation).0 == if operation is Delete {
            None
        } else {
            Some(in_source(sync, subject_of(sync, operation)))
        },
        plain(subject_of(sync, operation)),
        !(operation is Delete) ==> (crate::plan::source_of(operation) matches Some(index)
            && index < source_list(sync).len() && source_list(sync)[index as int].path
            == subject_of(sync, operation)),
        crate::plan::lists(source_list(sync), subject_of(sync, operation)) || crate::plan::lists(
            destination_list(sync),
            subject_of(sync, operation),
        ),
{
    let source = source_list(sync);
    let destination = destination_list(sync);
    match operation {
        Operation::Create { source_index } => {
            assert(source[source_index as int].path
                == sync.source_manifest.entries@[source_index as int].path@);
        },
        Operation::Delete { destination_index } => {
            assert(sync.destination_manifest is Some);
            assert(destination[destination_index as int].path
                == sync.destination_manifest->0.entries@[destination_index as int].path@);
        },
        Operation::UpdateData { source_index, destination_index } | Operation::UpdateMetadata {
            source_index,
            destination_index,
        } | Operation::Skip { source_index, destination_index } => {
            assert(sync.destination_manifest is Some);
            assert(source[source_index as int].path
                == sync.source_manifest.entries@[source_index as int].path@);
            assert(destination[destination_index as int].path
                == sync.destination_manifest->0.entries@[destination_index as int].path@);
        },
    }
}

/// Two operations of a plan are about different paths.
proof fn lemma_subjects_differ(
    sync: LocalSync<'_>,
    files: Map<Seq<crate::path::Name>, Seq<u8>>,
    operations: Seq<Operation>,
    delete_extraneous: bool,
    k: int,
    m: int,
)
    requires
        scanned_directories(sync, files),
        orderly(operations, source_list(sync), destination_list(sync), delete_extraneous),
        0 <= k < m < operations.len(),
    ensures
        subject_of(sync, operations[k]) != subject_of(sync, operations[m]),
{
    let source = source_list(sync);
    let destination = destination_list(sync);
    let (first, second) = (operations[k], operations[m]);
    assert(crate::plan::justified(source, destination, first, delete_extraneous));
    assert(crate::plan::justified(source, destination, second, delete_extraneous));
    if first is Delete && second is Delete {
        let (i, j) = (
            crate::plan::destination_of(first)->0 as int,
            crate::plan::destination_of(second)->0 as int,
        );
        assert(i < j);
        assert(crate::path::path_before(destination[i].path, destination[j].path));
        crate::path::lemma_path_before_irreflexive(destination[i].path);
    } else if !(first is Delete) && !(second is Delete) {
        let (i, j) = (
            crate::plan::source_of(first)->0 as int,
            crate::plan::source_of(second)->0 as int,
        );
        assert(i < j);
        assert(crate::path::path_before(source[i].path, source[j].path));
        crate::path::lemma_path_before_irreflexive(source[i].path);
    } else if first is Delete {
        let j = crate::plan::source_of(second)->0 as int;
        assert(source[j].path == subject_of(sync, second));
    } else {
        let i = crate::plan::source_of(first)->0 as int;
        assert(source[i].path == subject_of(sync, first));
    }
}

/// A sync of two directories leaves every file of the source in the destination, as
/// it is in the source, and the source as it was. A file that only the destination
/// lists is gone if deletes are asked for, and else it is as it was. So is every
/// other file.
///
/// A file that is written as a delta comes out as the source where the chunks of the
/// two files tell them apart.
pub proof fn lemma_directories_are_synced(
    sync: LocalSync<'_>,
    files: Map<Seq<crate::path::Name>, Seq<u8>>,
    options: Options,
    same: spec_fn(Operation) -> bool,
)
    requires
        scanned_directories(sync, files),
        writable(options),
        crate::plan::plan_of(
            *sync.source_manifest,
            sync.destination_manifest,
            options.plan,
        ) matches Ok(operations) && forall|k: int|
            0 <= k < operations.len() ==> truthful(
                sync,
                files,
                #[trigger] operations[k],
                same(operations[k]),
            ) && rebuildable(sync, files, operations[k], options, same(operations[k])),
    ensures
        ({
            let source = source_list(sync);
            let destination = destination_list(sync);
            let operations = crate::plan::plan_of(
                *sync.source_manifest,
                sync.destination_manifest,
                options.plan,
            )->Ok_0;
            let after = files_after(files, sync.course(operations, options, same));
            &&& forall|i: int|
                #![trigger source[i]]
                0 <= i < source.len() ==> file_at(after, in_destination(sync, source[i].path))
                    == file_at(files, in_source(sync, source[i].path)) && file_at(
                    after,
                    in_source(sync, source[i].path),
                ) == file_at(files, in_source(sync, source[i].path))
            &&& forall|j: int|
                #![trigger destination[j]]
                0 <= j < destination.len() && !crate::plan::lists(source, destination[j].path)
                    ==> file_at(after, in_destination(sync, destination[j].path))
                    == if options.plan.delete_extraneous {
                    None
                } else {
                    file_at(files, in_destination(sync, destination[j].path))
                }
            &&& forall|path: Seq<crate::path::Name>|
                (forall|listed: Seq<crate::path::Name>|
                    crate::plan::lists(source, listed) || crate::plan::lists(destination, listed)
                        ==> #[trigger] in_destination(sync, listed) != path) ==> #[trigger] file_at(
                    after,
                    path,
                ) == file_at(files, path)
        }),
{
    let source = source_list(sync);
    let destination = destination_list(sync);
    let delete_extraneous = options.plan.delete_extraneous;
    let operations = crate::plan::plan_of(
        *sync.source_manifest,
        sync.destination_manifest,
        options.plan,
    )->Ok_0;
    let after = files_after(files, sync.course(operations, options, same));
    lemma_plan_is_orderly(sync, files, options);
    assert forall|k: int| #![trigger operations[k]] 0 <= k < operations.len() implies {
        &&& sync.trouble_free(operations[k], options, same(operations[k]))
        &&& truthful(sync, files, operations[k], same(operations[k]))
        &&& rebuildable(sync, files, operations[k], options, same(operations[k]))
        &&& provided(sync, files, operations[k])
    } by {
        lemma_directory_operation(sync, files, operations[k], options, same(operations[k]));
    }
    assert forall|k: int, m: int|
        #![trigger operations[k], operations[m]]
        0 <= k < operations.len() && 0 <= m < operations.len() implies ends_of(
        sync,
        operations[k],
    ).0 != Some(ends_of(sync, operations[m]).1) && (k != m ==> ends_of(sync, operations[k]).1
        != ends_of(sync, operations[m]).1) by {
        lemma_directory_operation(sync, files, operations[k], options, same(operations[k]));
        lemma_directory_operation(sync, files, operations[m], options, same(operations[m]));
        let (left, right) = (
            subject_of(sync, operations[k]),
            subject_of(sync, operations[m]),
        );
        if !(operations[k] is Delete) {
            let i = crate::plan::source_of(operations[k])->0 as int;
            assert(source[i].path == left);
            assert(in_source(sync, source[i].path) != in_destination(sync, right));
        }
        if k < m {
            lemma_subjects_differ(sync, files, operations, delete_extraneous, k, m);
            lemma_joined_apart(sync.destination@, left, right);
        } else if m < k {
            lemma_subjects_differ(sync, files, operations, delete_extraneous, m, k);
            lemma_joined_apart(sync.destination@, left, right);
        }
    }
    lemma_operations(sync, files, operations, options, same);
    assert forall|path: Seq<crate::path::Name>|
        (forall|listed: Seq<crate::path::Name>|
            crate::plan::lists(source, listed) || crate::plan::lists(destination, listed)
                ==> #[trigger] in_destination(sync, listed) != path) implies #[trigger] file_at(
        after,
        path,
    ) == file_at(files, path) by {
        assert forall|k: int| 0 <= k < operations.len() implies ends_of(
            sync,
            #[trigger] operations[k],
        ).1 != path by {
            lemma_directory_operation(sync, files, operations[k], options, same(operations[k]));
        }
    }
    assert forall|i: int| #![trigger source[i]] 0 <= i < source.len() implies file_at(
        after,
        in_destination(sync, source[i].path),
    ) == file_at(files, in_source(sync, source[i].path)) && file_at(
        after,
        in_source(sync, source[i].path),
    ) == file_at(files, in_source(sync, source[i].path)) by {
        assert(takes_source(operations, i));
        let k = choose|k: int|
            0 <= k < operations.len() && (crate::plan::source_of(
                #[trigger] operations[k],
            ) matches Some(found) && found == i);
        lemma_directory_operation(sync, files, operations[k], options, same(operations[k]));
        assert(subject_of(sync, operations[k]) == source[i].path);
        assert(left_by(sync, files, operations[k]) == Some(
            files[in_source(sync, source[i].path)],
        ));
        let kept = in_source(sync, source[i].path);
        assert forall|m: int| 0 <= m < operations.len() implies ends_of(
            sync,
            #[trigger] operations[m],
        ).1 != kept by {
            lemma_directory_operation(sync, files, operations[m], options, same(operations[m]));
            assert(kept != in_destination(sync, subject_of(sync, operations[m])));
        }
        assert(file_at(after, kept) == file_at(files, kept));
    }
    assert forall|j: int|
        #![trigger destination[j]]
        0 <= j < destination.len() && !crate::plan::lists(
        source,
        destination[j].path,
    ) implies file_at(
        after,
        in_destination(sync, destination[j].path),
    ) == if delete_extraneous {
        None
    } else {
        file_at(files, in_destination(sync, destination[j].path))
    } by {
        let path = destination[j].path;
        if delete_extraneous {
            assert(takes_destination(operations, j));
            let k = choose|k: int|
                0 <= k < operations.len() && (crate::plan::destination_of(
                    #[trigger] operations[k],
                ) matches Some(found) && found == j);
            lemma_directory_operation(sync, files, operations[k], options, same(operations[k]));
            assert(crate::plan::justified(
                source,
                destination,
                operations[k],
                delete_extraneous,
            ));
            if !(operations[k] is Delete) {
                let i = crate::plan::source_of(operations[k])->0 as int;
                assert(source[i].path == path);
            }
            assert(left_by(sync, files, operations[k]) is None);
        } else {
            assert forall|m: int| 0 <= m < operations.len() implies ends_of(
                sync,
                #[trigger] operations[m],
            ).1 != in_destination(sync, path) by {
                lemma_directory_operation(
                    sync,
                    files,
                    operations[m],
                    options,
                    same(operations[m]),
                );
                assert(crate::plan::justified(
                    source,
                    destination,
                    operations[m],
                    delete_extraneous,
                ));
                let i = crate::plan::source_of(operations[m])->0 as int;
                assert(source[i].path == subject_of(sync, operations[m]));
                lemma_joined_apart(sync.destination@, subject_of(sync, operations[m]), path);
            }
            assert(file_at(after, in_destination(sync, path)) == file_at(
                files,
                in_destination(sync, path),
            ));
        }
    }
}

/// Whether a file has been scanned, and the file at the place where it lands, if
/// there is one. The place is another than the file's own.
pub open spec fn scanned_files(
    sync: LocalSync<'_>,
    files: Map<Seq<crate::path::Name>, Seq<u8>>,
    target: Seq<crate::path::Name>,
) -> bool {
    &&& sync.source_manifest.root == ManifestRoot::File
    &&& sync.source_manifest.entries@.len() == 1
    &&& sync.destination_manifest matches Some(manifest) ==> manifest.root == ManifestRoot::File
        && manifest.entries@.len() == 1 && files.contains_key(target)
    &&& crate::session::local::file_target(
        sync.source@,
        sync.destination@,
        sync.destination_is_dir,
    ) == Ok::<Seq<crate::path::Name>, crate::session::Trouble>(target)
    &&& files.contains_key(sync.source@)
    &&& target != sync.source@
}

/// A sync of a single file leaves it at the place where it lands, as it is in the
/// source, and every other file as it was.
///
/// A file that is written as a delta comes out as the source where the chunks of the
/// two files tell them apart.
pub proof fn lemma_file_is_synced(
    sync: LocalSync<'_>,
    files: Map<Seq<crate::path::Name>, Seq<u8>>,
    target: Seq<crate::path::Name>,
    options: Options,
    same: spec_fn(Operation) -> bool,
)
    requires
        scanned_files(sync, files, target),
        writable(options),
        crate::plan::plan_of(
            *sync.source_manifest,
            sync.destination_manifest,
            options.plan,
        ) matches Ok(operations) && forall|k: int|
            0 <= k < operations.len() ==> truthful(
                sync,
                files,
                #[trigger] operations[k],
                same(operations[k]),
            ) && rebuildable(sync, files, operations[k], options, same(operations[k])),
    ensures
        ({
            let operations = crate::plan::plan_of(
                *sync.source_manifest,
                sync.destination_manifest,
                options.plan,
            )->Ok_0;
            let after = files_after(files, sync.course(operations, options, same));
            &&& file_at(after, target) == file_at(files, sync.source@)
            &&& forall|path: Seq<crate::path::Name>|
                path != target ==> #[trigger] file_at(after, path) == file_at(files, path)
        }),
{
    let operations = crate::plan::plan_of(
        *sync.source_manifest,
        sync.destination_manifest,
        options.plan,
    )->Ok_0;
    assert(operations.len() == 1);
    let operation = operations[0];
    assert(ends_of(sync, operation) == (Some(sync.source@), target));
    lemma_operations(sync, files, operations, options, same);
    let after = files_after(files, sync.course(operations, options, same));
    assert(file_at(after, ends_of(sync, operations[0]).1) == left_by(sync, files, operations[0]));
}

/// What is recorded of the files after a change. Whatever is written in place of a file
/// takes the metadata of its source with it.
pub open spec fn metadata_changed(
    metadata: Map<Seq<crate::path::Name>, crate::manifest::EntryMetadata>,
    files: Map<Seq<crate::path::Name>, Seq<u8>>,
    deed: Deed,
) -> Map<Seq<crate::path::Name>, crate::manifest::EntryMetadata> {
    match deed {
        Deed::ReplaceFile { source, destination } => metadata.insert(destination, metadata[source]),
        Deed::FastCdcDelta { source, destination } => match delta_outcome(
            files[source],
            files[destination],
        ) {
            Ok(_) => metadata.insert(destination, metadata[source]),
            Err(_) => metadata,
        },
        Deed::SyncMetadata { source, destination } => metadata.insert(
            destination,
            metadata[source],
        ),
        Deed::RemoveFile { path, .. } => metadata.remove(path),
        Deed::Nothing => metadata,
    }
}

/// What is recorded of the files after a command.
pub open spec fn metadata_after_one(
    metadata: Map<Seq<crate::path::Name>, crate::manifest::EntryMetadata>,
    files: Map<Seq<crate::path::Name>, Seq<u8>>,
    order: Order,
) -> Map<Seq<crate::path::Name>, crate::manifest::EntryMetadata> {
    match order {
        Order::Perform(deed) => metadata_changed(metadata, files, deed),
        _ => metadata,
    }
}

/// What is recorded of the files after a run of commands.
pub open spec fn metadata_after(
    metadata: Map<Seq<crate::path::Name>, crate::manifest::EntryMetadata>,
    files: Map<Seq<crate::path::Name>, Seq<u8>>,
    orders: Seq<Order>,
) -> Map<Seq<crate::path::Name>, crate::manifest::EntryMetadata>
    decreases orders.len(),
{
    if orders.len() == 0 {
        metadata
    } else {
        metadata_after(
            metadata_after_one(metadata, files, orders[0]),
            files_after_one(files, orders[0]),
            orders.drop_first(),
        )
    }
}

/// What is recorded of a path, if there is a file.
pub open spec fn metadata_at(
    metadata: Map<Seq<crate::path::Name>, crate::manifest::EntryMetadata>,
    path: Seq<crate::path::Name>,
) -> Option<crate::manifest::EntryMetadata> {
    if metadata.contains_key(path) {
        Some(metadata[path])
    } else {
        None
    }
}

/// Whether what is recorded of the files that an operation is about is there, and is the
/// same on both sides if the operation is to do nothing.
spec fn documented(
    sync: LocalSync<'_>,
    metadata: Map<Seq<crate::path::Name>, crate::manifest::EntryMetadata>,
    operation: Operation,
) -> bool {
    let (source, target) = ends_of(sync, operation);
    &&& source matches Some(path) ==> metadata.contains_key(path)
    &&& !(operation is Create || operation is Delete) ==> metadata.contains_key(target)
    &&& operation is Skip ==> (source matches Some(path) && metadata[path] == metadata[target])
}

/// The metadata that an operation leaves at the path that it is about.
spec fn documented_by(
    sync: LocalSync<'_>,
    metadata: Map<Seq<crate::path::Name>, crate::manifest::EntryMetadata>,
    operation: Operation,
) -> Option<crate::manifest::EntryMetadata> {
    match ends_of(sync, operation).0 {
        Some(source) => Some(metadata[source]),
        None => None,
    }
}

proof fn lemma_metadata_after_append(
    metadata: Map<Seq<crate::path::Name>, crate::manifest::EntryMetadata>,
    files: Map<Seq<crate::path::Name>, Seq<u8>>,
    left: Seq<Order>,
    right: Seq<Order>,
)
    ensures
        metadata_after(metadata, files, left + right) == metadata_after(
            metadata_after(metadata, files, left),
            files_after(files, left),
            right,
        ),
    decreases left.len(),
{
    if left.len() == 0 {
        assert(left + right =~= right);
    } else {
        assert((left + right).drop_first() =~= left.drop_first() + right);
        lemma_metadata_after_append(
            metadata_after_one(metadata, files, left[0]),
            files_after_one(files, left[0]),
            left.drop_first(),
            right,
        );
    }
}

proof fn lemma_metadata_after_single(
    metadata: Map<Seq<crate::path::Name>, crate::manifest::EntryMetadata>,
    files: Map<Seq<crate::path::Name>, Seq<u8>>,
    orders: Seq<Order>,
)
    requires
        orders.len() == 1,
    ensures
        metadata_after(metadata, files, orders) == metadata_after_one(metadata, files, orders[0]),
{
    assert(orders.drop_first() =~= Seq::<Order>::empty());
    assert(metadata_after(
        metadata_after_one(metadata, files, orders[0]),
        files_after_one(files, orders[0]),
        orders.drop_first(),
    ) == metadata_after_one(metadata, files, orders[0]));
}

/// The commands for the first operation: a comparison where contents decide, the change,
/// and the report.
proof fn lemma_course_unfolds(
    sync: LocalSync<'_>,
    operations: Seq<Operation>,
    options: Options,
    same: spec_fn(Operation) -> bool,
) -> (compared: Seq<Order>)
    requires
        operations.len() > 0,
        sync.trouble_free(operations[0], options, same(operations[0])),
    ensures
        compared.len() <= 1,
        compared.len() == 1 ==> (compared[0] matches Order::Compare { source, destination }
            && sync.compared(operations[0]) == Ok::<
            Option<(Seq<crate::path::Name>, Seq<crate::path::Name>)>,
            crate::session::Trouble,
        >(Some((source, destination)))),
        ({
            let last = crate::session::local::refined(operations[0], same(operations[0]));
            sync.course(operations, options, same) == compared + seq![
                Order::Perform(sync.deed(last, options)->Ok_0),
            ] + seq![
                Order::Report { operation: last, path: sync.reported_path(last)->Ok_0 },
            ] + sync.course(operations.drop_first(), options, same)
        }),
{
    let operation = operations[0];
    let last = crate::session::local::refined(operation, same(operation));
    let deed = sync.deed(last, options)->Ok_0;
    let (first, performing, reporting) = sync.steps_of(operations, options, same(operation));
    let compared = match first {
        crate::session::local::Progress::Step {
            stage: crate::session::local::Stage::Comparing { .. },
            ..
        } => crate::session::local::orders_in(first),
        _ => Seq::empty(),
    };
    assert(crate::session::local::orders_in(performing) =~= seq![Order::Perform(deed)]);
    assert(crate::session::local::orders_in(reporting) =~= seq![
        Order::Report { operation: last, path: sync.reported_path(last)->Ok_0 },
    ]);
    compared
}

proof fn lemma_metadata_course_starts_with(
    sync: LocalSync<'_>,
    metadata: Map<Seq<crate::path::Name>, crate::manifest::EntryMetadata>,
    files: Map<Seq<crate::path::Name>, Seq<u8>>,
    operations: Seq<Operation>,
    options: Options,
    same: spec_fn(Operation) -> bool,
)
    requires
        operations.len() > 0,
        sync.trouble_free(operations[0], options, same(operations[0])),
    ensures
        ({
            let deed = sync.deed(
                crate::session::local::refined(operations[0], same(operations[0])),
                options,
            )->Ok_0;
            metadata_after(metadata, files, sync.course(operations, options, same))
                == metadata_after(
                metadata_changed(metadata, files, deed),
                changed(files, deed),
                sync.course(operations.drop_first(), options, same),
            )
        }),
{
    let last = crate::session::local::refined(operations[0], same(operations[0]));
    let deed = sync.deed(last, options)->Ok_0;
    let compared = lemma_course_unfolds(sync, operations, options, same);
    let performed = seq![Order::Perform(deed)];
    let reported = seq![Order::Report { operation: last, path: sync.reported_path(last)->Ok_0 }];
    let later = sync.course(operations.drop_first(), options, same);
    lemma_metadata_after_append(metadata, files, compared + performed + reported, later);
    lemma_metadata_after_append(metadata, files, compared + performed, reported);
    lemma_metadata_after_append(metadata, files, compared, performed);
    lemma_files_after_append(files, compared + performed, reported);
    lemma_files_after_append(files, compared, performed);
    if compared.len() == 1 {
        lemma_files_after_single(files, compared);
        lemma_metadata_after_single(metadata, files, compared);
    }
    assert(files_after(files, compared) == files);
    assert(metadata_after(metadata, files, compared) == metadata);
    lemma_files_after_single(files, performed);
    lemma_metadata_after_single(metadata, files, performed);
    lemma_files_after_single(changed(files, deed), reported);
    lemma_metadata_after_single(
        metadata_changed(metadata, files, deed),
        changed(files, deed),
        reported,
    );
}

/// One operation leaves the metadata that it should at its path, and that of every other
/// path alone.
proof fn lemma_one_operation_metadata(
    sync: LocalSync<'_>,
    metadata: Map<Seq<crate::path::Name>, crate::manifest::EntryMetadata>,
    files: Map<Seq<crate::path::Name>, Seq<u8>>,
    operation: Operation,
    options: Options,
    same: bool,
)
    requires
        sync.trouble_free(operation, options, same),
        rebuildable(sync, files, operation, options, same),
        documented(sync, metadata, operation),
    ensures
        ({
            let after = metadata_changed(
                metadata,
                files,
                sync.deed(crate::session::local::refined(operation, same), options)->Ok_0,
            );
            let target = ends_of(sync, operation).1;
            &&& metadata_at(after, target) == documented_by(sync, metadata, operation)
            &&& forall|path: Seq<crate::path::Name>|
                path != target ==> #[trigger] metadata_at(after, path) == metadata_at(
                    metadata,
                    path,
                )
        }),
{
    let deed = sync.deed(crate::session::local::refined(operation, same), options)->Ok_0;
    if let Deed::FastCdcDelta { source, destination } = deed {
        crate::strategy::cdc::lemma_emissions_rebuild_the_source(
            files[destination],
            usual_chunks(files[destination]),
            files[source],
            usual_chunks(files[source]),
            crate::chunker::fastcdc::DEFAULT_MAX_SIZE as int,
        );
    }
}

/// Whether nothing stands in the way of an operation, and what it needs is there.
spec fn prepared(
    sync: LocalSync<'_>,
    metadata: Map<Seq<crate::path::Name>, crate::manifest::EntryMetadata>,
    files: Map<Seq<crate::path::Name>, Seq<u8>>,
    operation: Operation,
    options: Options,
    same: bool,
) -> bool {
    &&& sync.trouble_free(operation, options, same)
    &&& truthful(sync, files, operation, same)
    &&& rebuildable(sync, files, operation, options, same)
    &&& provided(sync, files, operation)
    &&& documented(sync, metadata, operation)
}

/// Whether no operation reads what another writes, and no two write one path.
spec fn independent(sync: LocalSync<'_>, operations: Seq<Operation>) -> bool {
    forall|k: int, m: int|
        #![trigger operations[k], operations[m]]
        0 <= k < operations.len() && 0 <= m < operations.len() ==> ends_of(
            sync,
            operations[k],
        ).0 != Some(ends_of(sync, operations[m]).1) && (k != m ==> ends_of(sync, operations[k]).1
            != ends_of(sync, operations[m]).1)
}

proof fn lemma_operations_metadata(
    sync: LocalSync<'_>,
    metadata: Map<Seq<crate::path::Name>, crate::manifest::EntryMetadata>,
    files: Map<Seq<crate::path::Name>, Seq<u8>>,
    operations: Seq<Operation>,
    options: Options,
    same: spec_fn(Operation) -> bool,
)
    requires
        forall|k: int|
            0 <= k < operations.len() ==> prepared(
                sync,
                metadata,
                files,
                #[trigger] operations[k],
                options,
                same(operations[k]),
            ),
        independent(sync, operations),
    ensures
        ({
            let after = metadata_after(metadata, files, sync.course(operations, options, same));
            &&& forall|k: int|
                0 <= k < operations.len() ==> metadata_at(
                    after,
                    ends_of(sync, #[trigger] operations[k]).1,
                ) == documented_by(sync, metadata, operations[k])
            &&& forall|path: Seq<crate::path::Name>|
                (forall|k: int|
                    0 <= k < operations.len() ==> ends_of(sync, #[trigger] operations[k]).1 != path)
                    ==> #[trigger] metadata_at(after, path) == metadata_at(metadata, path)
        }),
    decreases operations.len(),
{
    let after = metadata_after(metadata, files, sync.course(operations, options, same));
    if operations.len() == 0 {
        let course = sync.course(operations, options, same);
        assert(course =~= seq![Order::Done]);
        lemma_metadata_after_single(metadata, files, course);
    } else {
        let operation = operations[0];
        let target = ends_of(sync, operation).1;
        let rest = operations.drop_first();
        let deed = sync.deed(
            crate::session::local::refined(operation, same(operation)),
            options,
        )->Ok_0;
        let next = changed(files, deed);
        let next_metadata = metadata_changed(metadata, files, deed);
        assert(prepared(sync, metadata, files, operations[0], options, same(operations[0])));
        lemma_metadata_course_starts_with(sync, metadata, files, operations, options, same);
        lemma_one_operation(sync, files, operation, options, same(operation));
        lemma_one_operation_metadata(sync, metadata, files, operation, options, same(operation));
        assert forall|k: int| 0 <= k < rest.len() implies prepared(
            sync,
            next_metadata,
            next,
            #[trigger] rest[k],
            options,
            same(rest[k]),
        ) by {
            assert(rest[k] == operations[k + 1]);
            assert(prepared(
                sync,
                metadata,
                files,
                operations[k + 1],
                options,
                same(operations[k + 1]),
            ));
            let (source, other) = ends_of(sync, operations[k + 1]);
            assert(other != target);
            assert(file_at(next, other) == file_at(files, other));
            assert(metadata_at(next_metadata, other) == metadata_at(metadata, other));
            if let Some(path) = source {
                assert(path != target);
                assert(file_at(next, path) == file_at(files, path));
                assert(metadata_at(next_metadata, path) == metadata_at(metadata, path));
            }
        }
        assert(independent(sync, rest)) by {
            assert forall|k: int, m: int|
                #![trigger rest[k], rest[m]]
                0 <= k < rest.len() && 0 <= m < rest.len() implies ends_of(sync, rest[k]).0 != Some(
                ends_of(sync, rest[m]).1,
            ) && (k != m ==> ends_of(sync, rest[k]).1 != ends_of(sync, rest[m]).1) by {
                assert(rest[k] == operations[k + 1]);
                assert(rest[m] == operations[m + 1]);
            }
        }
        lemma_operations_metadata(sync, next_metadata, next, rest, options, same);
        assert forall|k: int| 0 <= k < operations.len() implies metadata_at(
            after,
            ends_of(sync, #[trigger] operations[k]).1,
        ) == documented_by(sync, metadata, operations[k]) by {
            if k == 0 {
                assert forall|m: int| 0 <= m < rest.len() implies ends_of(
                    sync,
                    #[trigger] rest[m],
                ).1 != target by {
                    assert(rest[m] == operations[m + 1]);
                }
                assert(metadata_at(after, target) == metadata_at(next_metadata, target));
            } else {
                assert(rest[k - 1] == operations[k]);
                assert(prepared(
                    sync,
                    metadata,
                    files,
                    operations[k],
                    options,
                    same(operations[k]),
                ));
                if let Some(path) = ends_of(sync, operations[k]).0 {
                    assert(path != target);
                    assert(metadata_at(next_metadata, path) == metadata_at(metadata, path));
                }
            }
        }
        assert forall|path: Seq<crate::path::Name>|
            (forall|k: int|
                0 <= k < operations.len() ==> ends_of(sync, #[trigger] operations[k]).1
                    != path) implies #[trigger] metadata_at(after, path) == metadata_at(
            metadata,
            path,
        ) by {
            assert(operations[0] == operation);
            assert forall|m: int| 0 <= m < rest.len() implies ends_of(sync, #[trigger] rest[m]).1
                != path by {
                assert(rest[m] == operations[m + 1]);
            }
            assert(metadata_at(after, path) == metadata_at(next_metadata, path));
        }
    }
}

/// Whether `metadata` is what the manifests list of two directories.
pub open spec fn recorded_directories(
    sync: LocalSync<'_>,
    metadata: Map<Seq<crate::path::Name>, crate::manifest::EntryMetadata>,
) -> bool {
    let source = source_list(sync);
    let destination = destination_list(sync);
    &&& forall|i: int|
        0 <= i < source.len() ==> metadata.contains_key(
            in_source(sync, (#[trigger] source[i]).path),
        ) && metadata[in_source(sync, source[i].path)] == source[i].metadata
    &&& forall|j: int|
        0 <= j < destination.len() ==> metadata.contains_key(
            in_destination(sync, (#[trigger] destination[j]).path),
        ) && metadata[in_destination(sync, destination[j].path)] == destination[j].metadata
}

proof fn lemma_directory_operations(
    sync: LocalSync<'_>,
    metadata: Map<Seq<crate::path::Name>, crate::manifest::EntryMetadata>,
    files: Map<Seq<crate::path::Name>, Seq<u8>>,
    options: Options,
    same: spec_fn(Operation) -> bool,
    operations: Seq<Operation>,
)
    requires
        scanned_directories(sync, files),
        recorded_directories(sync, metadata),
        writable(options),
        crate::plan::plan_of(
            *sync.source_manifest,
            sync.destination_manifest,
            options.plan,
        ) == Ok::<Seq<Operation>, crate::error::PlanError>(operations),
        forall|k: int|
            0 <= k < operations.len() ==> truthful(
                sync,
                files,
                #[trigger] operations[k],
                same(operations[k]),
            ) && rebuildable(sync, files, operations[k], options, same(operations[k])),
    ensures
        orderly(
            operations,
            source_list(sync),
            destination_list(sync),
            options.plan.delete_extraneous,
        ),
        forall|k: int|
            0 <= k < operations.len() ==> prepared(
                sync,
                metadata,
                files,
                #[trigger] operations[k],
                options,
                same(operations[k]),
            ),
        independent(sync, operations),
{
    let source = source_list(sync);
    let destination = destination_list(sync);
    let delete_extraneous = options.plan.delete_extraneous;
    lemma_plan_is_orderly(sync, files, options);
    assert forall|k: int| 0 <= k < operations.len() implies prepared(
        sync,
        metadata,
        files,
        #[trigger] operations[k],
        options,
        same(operations[k]),
    ) by {
        let operation = operations[k];
        assert(crate::plan::justified(source, destination, operation, delete_extraneous));
        lemma_directory_operation(sync, files, operation, options, same(operation));
        if !(operation is Delete) {
            let i = crate::plan::source_of(operation)->0 as int;
            assert(source[i].path == subject_of(sync, operation));
        }
        if !(operation is Create || operation is Delete) {
            let j = crate::plan::destination_of(operation)->0 as int;
            assert(destination[j].path == subject_of(sync, operation));
            let i = crate::plan::source_of(operation)->0 as int;
            if operation is Skip {
                assert(source[i].metadata == destination[j].metadata);
            }
        }
    }
    assert forall|k: int, m: int|
        #![trigger operations[k], operations[m]]
        0 <= k < operations.len() && 0 <= m < operations.len() implies ends_of(
        sync,
        operations[k],
    ).0 != Some(ends_of(sync, operations[m]).1) && (k != m ==> ends_of(sync, operations[k]).1
        != ends_of(sync, operations[m]).1) by {
        lemma_directory_operation(sync, files, operations[k], options, same(operations[k]));
        lemma_directory_operation(sync, files, operations[m], options, same(operations[m]));
        let (left, right) = (
            subject_of(sync, operations[k]),
            subject_of(sync, operations[m]),
        );
        if !(operations[k] is Delete) {
            let i = crate::plan::source_of(operations[k])->0 as int;
            assert(source[i].path == left);
            assert(in_source(sync, source[i].path) != in_destination(sync, right));
        }
        if k < m {
            lemma_subjects_differ(sync, files, operations, delete_extraneous, k, m);
            lemma_joined_apart(sync.destination@, left, right);
        } else if m < k {
            lemma_subjects_differ(sync, files, operations, delete_extraneous, m, k);
            lemma_joined_apart(sync.destination@, left, right);
        }
    }
}

/// A sync of two directories leaves every file of the source in the destination with the
/// metadata that it has in the source, and the metadata of the source as it was. What
/// only the destination lists loses its metadata with its file if deletes are asked for,
/// and else keeps it. So does every other file.
pub proof fn lemma_directories_keep_metadata(
    sync: LocalSync<'_>,
    metadata: Map<Seq<crate::path::Name>, crate::manifest::EntryMetadata>,
    files: Map<Seq<crate::path::Name>, Seq<u8>>,
    options: Options,
    same: spec_fn(Operation) -> bool,
)
    requires
        scanned_directories(sync, files),
        recorded_directories(sync, metadata),
        writable(options),
        crate::plan::plan_of(
            *sync.source_manifest,
            sync.destination_manifest,
            options.plan,
        ) matches Ok(operations) && forall|k: int|
            0 <= k < operations.len() ==> truthful(
                sync,
                files,
                #[trigger] operations[k],
                same(operations[k]),
            ) && rebuildable(sync, files, operations[k], options, same(operations[k])),
    ensures
        ({
            let source = source_list(sync);
            let destination = destination_list(sync);
            let operations = crate::plan::plan_of(
                *sync.source_manifest,
                sync.destination_manifest,
                options.plan,
            )->Ok_0;
            let after = metadata_after(metadata, files, sync.course(operations, options, same));
            &&& forall|i: int|
                #![trigger source[i]]
                0 <= i < source.len() ==> metadata_at(after, in_destination(sync, source[i].path))
                    == Some(source[i].metadata) && metadata_at(
                    after,
                    in_source(sync, source[i].path),
                ) == Some(source[i].metadata)
            &&& forall|j: int|
                #![trigger destination[j]]
                0 <= j < destination.len() && !crate::plan::lists(source, destination[j].path)
                    ==> metadata_at(after, in_destination(sync, destination[j].path))
                    == if options.plan.delete_extraneous {
                    None
                } else {
                    Some(destination[j].metadata)
                }
            &&& forall|path: Seq<crate::path::Name>|
                (forall|listed: Seq<crate::path::Name>|
                    crate::plan::lists(source, listed) || crate::plan::lists(destination, listed)
                        ==> #[trigger] in_destination(sync, listed) != path)
                    ==> #[trigger] metadata_at(after, path) == metadata_at(metadata, path)
        }),
{
    let source = source_list(sync);
    let destination = destination_list(sync);
    let delete_extraneous = options.plan.delete_extraneous;
    let operations = crate::plan::plan_of(
        *sync.source_manifest,
        sync.destination_manifest,
        options.plan,
    )->Ok_0;
    let after = metadata_after(metadata, files, sync.course(operations, options, same));
    lemma_directory_operations(sync, metadata, files, options, same, operations);
    lemma_operations_metadata(sync, metadata, files, operations, options, same);
    assert forall|path: Seq<crate::path::Name>|
        (forall|listed: Seq<crate::path::Name>|
            crate::plan::lists(source, listed) || crate::plan::lists(destination, listed)
                ==> #[trigger] in_destination(sync, listed) != path) implies #[trigger] metadata_at(
        after,
        path,
    ) == metadata_at(metadata, path) by {
        assert forall|k: int| 0 <= k < operations.len() implies ends_of(
            sync,
            #[trigger] operations[k],
        ).1 != path by {
            lemma_directory_operation(sync, files, operations[k], options, same(operations[k]));
        }
    }
    assert forall|i: int| #![trigger source[i]] 0 <= i < source.len() implies metadata_at(
        after,
        in_destination(sync, source[i].path),
    ) == Some(source[i].metadata) && metadata_at(after, in_source(sync, source[i].path)) == Some(
        source[i].metadata,
    ) by {
        assert(takes_source(operations, i));
        let k = choose|k: int|
            0 <= k < operations.len() && (crate::plan::source_of(
                #[trigger] operations[k],
            ) matches Some(found) && found == i);
        lemma_directory_operation(sync, files, operations[k], options, same(operations[k]));
        assert(subject_of(sync, operations[k]) == source[i].path);
        assert(documented_by(sync, metadata, operations[k]) == Some(
            metadata[in_source(sync, source[i].path)],
        ));
        let kept = in_source(sync, source[i].path);
        assert forall|m: int| 0 <= m < operations.len() implies ends_of(
            sync,
            #[trigger] operations[m],
        ).1 != kept by {
            lemma_directory_operation(sync, files, operations[m], options, same(operations[m]));
            assert(kept != in_destination(sync, subject_of(sync, operations[m])));
        }
        assert(metadata_at(after, kept) == metadata_at(metadata, kept));
    }
    assert forall|j: int|
        #![trigger destination[j]]
        0 <= j < destination.len() && !crate::plan::lists(
        source,
        destination[j].path,
    ) implies metadata_at(
        after,
        in_destination(sync, destination[j].path),
    ) == if delete_extraneous {
        None
    } else {
        Some(destination[j].metadata)
    } by {
        let path = destination[j].path;
        if delete_extraneous {
            assert(takes_destination(operations, j));
            let k = choose|k: int|
                0 <= k < operations.len() && (crate::plan::destination_of(
                    #[trigger] operations[k],
                ) matches Some(found) && found == j);
            lemma_directory_operation(sync, files, operations[k], options, same(operations[k]));
            assert(crate::plan::justified(
                source,
                destination,
                operations[k],
                delete_extraneous,
            ));
            if !(operations[k] is Delete) {
                let i = crate::plan::source_of(operations[k])->0 as int;
                assert(source[i].path == path);
            }
            assert(documented_by(sync, metadata, operations[k]) is None);
        } else {
            assert forall|m: int| 0 <= m < operations.len() implies ends_of(
                sync,
                #[trigger] operations[m],
            ).1 != in_destination(sync, path) by {
                lemma_directory_operation(
                    sync,
                    files,
                    operations[m],
                    options,
                    same(operations[m]),
                );
                assert(crate::plan::justified(
                    source,
                    destination,
                    operations[m],
                    delete_extraneous,
                ));
                let i = crate::plan::source_of(operations[m])->0 as int;
                assert(source[i].path == subject_of(sync, operations[m]));
                lemma_joined_apart(sync.destination@, subject_of(sync, operations[m]), path);
            }
            assert(metadata_at(after, in_destination(sync, path)) == metadata_at(
                metadata,
                in_destination(sync, path),
            ));
        }
    }
}

/// Whether `metadata` is what the manifests list of a file and of the place where it
/// lands.
pub open spec fn recorded_files(
    sync: LocalSync<'_>,
    metadata: Map<Seq<crate::path::Name>, crate::manifest::EntryMetadata>,
    target: Seq<crate::path::Name>,
) -> bool {
    &&& metadata.contains_key(sync.source@)
    &&& metadata[sync.source@] == sync.source_manifest.entries@[0].metadata
    &&& sync.destination_manifest matches Some(manifest) ==> metadata.contains_key(target)
        && metadata[target] == manifest.entries@[0].metadata
}

proof fn lemma_file_operation(
    sync: LocalSync<'_>,
    metadata: Map<Seq<crate::path::Name>, crate::manifest::EntryMetadata>,
    files: Map<Seq<crate::path::Name>, Seq<u8>>,
    target: Seq<crate::path::Name>,
    options: Options,
    same: spec_fn(Operation) -> bool,
    operations: Seq<Operation>,
)
    requires
        scanned_files(sync, files, target),
        recorded_files(sync, metadata, target),
        writable(options),
        crate::plan::plan_of(
            *sync.source_manifest,
            sync.destination_manifest,
            options.plan,
        ) == Ok::<Seq<Operation>, crate::error::PlanError>(operations),
        forall|k: int|
            0 <= k < operations.len() ==> truthful(
                sync,
                files,
                #[trigger] operations[k],
                same(operations[k]),
            ) && rebuildable(sync, files, operations[k], options, same(operations[k])),
    ensures
        operations.len() == 1,
        ends_of(sync, operations[0]) == (Some(sync.source@), target),
        !(operations[0] is Delete),
        prepared(sync, metadata, files, operations[0], options, same(operations[0])),
        independent(sync, operations),
{
    assert(operations.len() == 1);
    let operation = operations[0];
    assert(ends_of(sync, operation) == (Some(sync.source@), target));
    let source = crate::manifest::listings(sync.source_manifest.entries@);
    assert(source[0] == sync.source_manifest.entries@[0]@);
    if let Some(manifest) = sync.destination_manifest {
        let destination = crate::manifest::listings(manifest.entries@);
        assert(destination[0] == manifest.entries@[0]@);
    }
}

/// A sync of a single file leaves it where it lands with the metadata that it has in the
/// source, and the metadata of every other file, the source among them, as it was.
pub proof fn lemma_file_keeps_metadata(
    sync: LocalSync<'_>,
    metadata: Map<Seq<crate::path::Name>, crate::manifest::EntryMetadata>,
    files: Map<Seq<crate::path::Name>, Seq<u8>>,
    target: Seq<crate::path::Name>,
    options: Options,
    same: spec_fn(Operation) -> bool,
)
    requires
        scanned_files(sync, files, target),
        recorded_files(sync, metadata, target),
        writable(options),
        crate::plan::plan_of(
            *sync.source_manifest,
            sync.destination_manifest,
            options.plan,
        ) matches Ok(operations) && forall|k: int|
            0 <= k < operations.len() ==> truthful(
                sync,
                files,
                #[trigger] operations[k],
                same(operations[k]),
            ) && rebuildable(sync, files, operations[k], options, same(operations[k])),
    ensures
        ({
            let operations = crate::plan::plan_of(
                *sync.source_manifest,
                sync.destination_manifest,
                options.plan,
            )->Ok_0;
            let after = metadata_after(metadata, files, sync.course(operations, options, same));
            &&& metadata_at(after, target) == Some(sync.source_manifest.entries@[0].metadata)
            &&& metadata_at(after, sync.source@) == Some(
                sync.source_manifest.entries@[0].metadata,
            )
            &&& forall|path: Seq<crate::path::Name>|
                path != target ==> #[trigger] metadata_at(after, path) == metadata_at(
                    metadata,
                    path,
                )
        }),
{
    let operations = crate::plan::plan_of(
        *sync.source_manifest,
        sync.destination_manifest,
        options.plan,
    )->Ok_0;
    lemma_file_operation(sync, metadata, files, target, options, same, operations);
    lemma_operations_metadata(sync, metadata, files, operations, options, same);
    let after = metadata_after(metadata, files, sync.course(operations, options, same));
    assert(metadata_at(after, ends_of(sync, operations[0]).1) == documented_by(
        sync,
        metadata,
        operations[0],
    ));
    assert(metadata_at(after, sync.source@) == metadata_at(metadata, sync.source@));
}

/// Whether command `n` of a course belongs to operation `k`: a comparison with its change
/// behind it, the change with its report behind it, or the report.
spec fn belongs(
    sync: LocalSync<'_>,
    operations: Seq<Operation>,
    options: Options,
    same: spec_fn(Operation) -> bool,
    course: Seq<Order>,
    n: int,
    k: int,
) -> bool {
    let last = crate::session::local::refined(operations[k], same(operations[k]));
    let change = Order::Perform(sync.deed(last, options)->Ok_0);
    let report = Order::Report { operation: last, path: sync.reported_path(last)->Ok_0 };
    &&& 0 <= k < operations.len()
    &&& {
        ||| course[n] == change && n + 1 < course.len() && course[n + 1] == report
        ||| course[n] == report && n > 0 && course[n - 1] == change
        ||| (course[n] matches Order::Compare { source, destination } && sync.compared(
            operations[k],
        ) == Ok::<
            Option<(Seq<crate::path::Name>, Seq<crate::path::Name>)>,
            crate::session::Trouble,
        >(Some((source, destination))) && n + 1 < course.len() && course[n + 1] == change)
    }
}

proof fn lemma_commands_belong(
    sync: LocalSync<'_>,
    operations: Seq<Operation>,
    options: Options,
    same: spec_fn(Operation) -> bool,
    n: int,
) -> (k: int)
    requires
        forall|k: int|
            0 <= k < operations.len() ==> sync.trouble_free(
                #[trigger] operations[k],
                options,
                same(operations[k]),
            ),
        0 <= n < sync.course(operations, options, same).len(),
    ensures
        ({
            let course = sync.course(operations, options, same);
            course[n] == Order::Done && n == course.len() - 1 || belongs(
                sync,
                operations,
                options,
                same,
                course,
                n,
                k,
            )
        }),
    decreases operations.len(),
{
    let course = sync.course(operations, options, same);
    if operations.len() == 0 {
        assert(course =~= seq![Order::Done]);
        0
    } else {
        assert(sync.trouble_free(operations[0], options, same(operations[0])));
        let compared = lemma_course_unfolds(sync, operations, options, same);
        let rest = operations.drop_first();
        let later = sync.course(rest, options, same);
        let front = compared.len() + 2;
        assert(forall|m: int| front <= m < course.len() ==> #[trigger] course[m] == later[m - front]);
        assert forall|k: int| 0 <= k < rest.len() implies sync.trouble_free(
            #[trigger] rest[k],
            options,
            same(rest[k]),
        ) by {
            assert(rest[k] == operations[k + 1]);
        }
        if n < front {
            assert(belongs(sync, operations, options, same, course, n, 0));
            0
        } else {
            let k = lemma_commands_belong(sync, rest, options, same, n - front);
            assert(course[n] == later[n - front]);
            if belongs(sync, rest, options, same, later, n - front, k) {
                assert(rest[k] == operations[k + 1]);
                if n + 1 < course.len() {
                    assert(course[n + 1] == later[n + 1 - front]);
                }
                if n > front {
                    assert(course[n - 1] == later[n - 1 - front]);
                }
                assert(belongs(sync, operations, options, same, course, n, k + 1));
            }
            k + 1
        }
    }
}

/// Whether `path` is listed by both directories.
pub open spec fn listed_by_both(sync: LocalSync<'_>, path: Seq<crate::path::Name>) -> bool {
    crate::plan::lists(source_list(sync), path) && crate::plan::lists(destination_list(sync), path)
}

/// Every command of a sync of two directories stays in its place. What is read is a file
/// of the source, and what is written or compared with it is the file under the same path
/// in the destination. Only a path that the source lacks is removed, only if deletes are
/// asked for, and empty directories go up to the destination itself. A delta is written
/// exactly if that is the strategy and there is a file to start from. A change is followed
/// by its report, under the path that it was made at.
pub proof fn lemma_directory_commands_stay_in_place(
    sync: LocalSync<'_>,
    files: Map<Seq<crate::path::Name>, Seq<u8>>,
    options: Options,
    same: spec_fn(Operation) -> bool,
    n: int,
)
    requires
        scanned_directories(sync, files),
        writable(options),
        crate::plan::plan_of(
            *sync.source_manifest,
            sync.destination_manifest,
            options.plan,
        ) matches Ok(operations) && 0 <= n < sync.course(operations, options, same).len(),
    ensures
        ({
            let source = source_list(sync);
            let destination = destination_list(sync);
            let operations = crate::plan::plan_of(
                *sync.source_manifest,
                sync.destination_manifest,
                options.plan,
            )->Ok_0;
            let course = sync.course(operations, options, same);
            match course[n] {
                Order::Done => n == course.len() - 1,
                Order::Compare { source: left, destination: right } => {
                    &&& n + 1 < course.len() && course[n + 1] is Perform
                    &&& exists|path: Seq<crate::path::Name>| #[trigger]
                        listed_by_both(sync, path) && left == in_source(sync, path) && right
                            == in_destination(sync, path)
                },
                Order::Report { operation, path } => {
                    &&& n > 0 && course[n - 1] is Perform
                    &&& path == crate::plan::subject(source, destination, operation)
                },
                Order::Perform(deed) => {
                    &&& n + 1 < course.len()
                    &&& course[n + 1] matches Order::Report { operation, path }
                    &&& match deed {
                        Deed::ReplaceFile { source: left, destination: right } => {
                            &&& crate::plan::lists(source, path)
                            &&& left == in_source(sync, path)
                            &&& right == in_destination(sync, path)
                            &&& options.strategy == Strategy::Cdc ==> !crate::plan::lists(
                                destination,
                                path,
                            )
                        },
                        Deed::FastCdcDelta { source: left, destination: right } => {
                            &&& listed_by_both(sync, path)
                            &&& left == in_source(sync, path)
                            &&& right == in_destination(sync, path)
                            &&& options.strategy == Strategy::Cdc
                        },
                        Deed::SyncMetadata { source: left, destination: right } => {
                            &&& listed_by_both(sync, path)
                            &&& left == in_source(sync, path)
                            &&& right == in_destination(sync, path)
                        },
                        Deed::RemoveFile { path: removed, prune_up_to } => {
                            &&& options.plan.delete_extraneous
                            &&& crate::plan::lists(destination, path)
                            &&& !crate::plan::lists(source, path)
                            &&& removed == in_destination(sync, path)
                            &&& prune_up_to == Some(sync.destination@)
                        },
                        Deed::Nothing => listed_by_both(sync, path),
                    }
                },
            }
        }),
{
    let source = source_list(sync);
    let destination = destination_list(sync);
    let operations = crate::plan::plan_of(
        *sync.source_manifest,
        sync.destination_manifest,
        options.plan,
    )->Ok_0;
    let delete_extraneous = options.plan.delete_extraneous;
    let course = sync.course(operations, options, same);
    lemma_plan_is_orderly(sync, files, options);
    assert forall|k: int| 0 <= k < operations.len() implies sync.trouble_free(
        #[trigger] operations[k],
        options,
        same(operations[k]),
    ) by {
        assert(crate::plan::justified(source, destination, operations[k], delete_extraneous));
        lemma_directory_operation(sync, files, operations[k], options, same(operations[k]));
    }
    let k = lemma_commands_belong(sync, operations, options, same, n);
    if belongs(sync, operations, options, same, course, n, k) {
        let operation = operations[k];
        let path = subject_of(sync, operation);
        assert(crate::plan::justified(source, destination, operation, delete_extraneous));
        lemma_directory_operation(sync, files, operation, options, same(operation));
        if let Some(i) = crate::plan::source_of(operation) {
            assert(source[i as int].path == path);
            assert(source[i as int].path == sync.source_manifest.entries@[i as int].path@);
            assert(crate::plan::lists(source, path));
        }
        if let Some(j) = crate::plan::destination_of(operation) {
            assert(destination[j as int].path == path);
            assert(destination[j as int].path
                == sync.destination_manifest->0.entries@[j as int].path@);
            assert(crate::plan::lists(destination, path));
        }
        if let Order::Compare { .. } = course[n] {
            assert(listed_by_both(sync, path));
        }
    }
}

/// Every command of a sync of a single file is about that file and the place where it
/// lands: the file is only read, and nothing is removed. A delta is written only if that
/// is the strategy. A change is followed by its report, under the place.
pub proof fn lemma_file_commands_stay_in_place(
    sync: LocalSync<'_>,
    files: Map<Seq<crate::path::Name>, Seq<u8>>,
    target: Seq<crate::path::Name>,
    options: Options,
    same: spec_fn(Operation) -> bool,
    n: int,
)
    requires
        scanned_files(sync, files, target),
        writable(options),
        crate::plan::plan_of(
            *sync.source_manifest,
            sync.destination_manifest,
            options.plan,
        ) matches Ok(operations) && 0 <= n < sync.course(operations, options, same).len(),
    ensures
        ({
            let operations = crate::plan::plan_of(
                *sync.source_manifest,
                sync.destination_manifest,
                options.plan,
            )->Ok_0;
            let course = sync.course(operations, options, same);
            match course[n] {
                Order::Done => n == course.len() - 1,
                Order::Compare { source, destination } => source == sync.source@ && destination
                    == target && n + 1 < course.len() && course[n + 1] is Perform,
                Order::Report { path, .. } => path == target && n > 0 && course[n - 1] is Perform,
                Order::Perform(deed) => {
                    &&& n + 1 < course.len() && course[n + 1] is Report
                    &&& match deed {
                        Deed::ReplaceFile { source, destination } => {
                            &&& source == sync.source@
                            &&& destination == target
                            &&& options.strategy == Strategy::Cdc ==> sync.destination_manifest
                                is None
                        },
                        Deed::FastCdcDelta { source, destination } => {
                            &&& source == sync.source@
                            &&& destination == target
                            &&& options.strategy == Strategy::Cdc
                        },
                        Deed::SyncMetadata { source, destination } => source == sync.source@
                            && destination == target,
                        Deed::RemoveFile { .. } => false,
                        Deed::Nothing => sync.destination_manifest is Some,
                    }
                },
            }
        }),
{
    let operations = crate::plan::plan_of(
        *sync.source_manifest,
        sync.destination_manifest,
        options.plan,
    )->Ok_0;
    let course = sync.course(operations, options, same);
    assert(operations.len() == 1);
    assert(ends_of(sync, operations[0]) == (Some(sync.source@), target));
    assert forall|k: int| 0 <= k < operations.len() implies sync.trouble_free(
        #[trigger] operations[k],
        options,
        same(operations[k]),
    ) by {
        assert(operations[k] == operations[0]);
    }
    let k = lemma_commands_belong(sync, operations, options, same, n);
    if belongs(sync, operations, options, same, course, n, k) {
        assert(operations[k] == operations[0]);
    }
}

} // verus!
