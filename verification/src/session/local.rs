//! Syncs on one machine.
//!
//! The module decides and never touches a file. [`Execution`] goes through a plan
//! one command at a time: compare two files, make a change, report what was done.
//! Whoever holds the files carries each command out and says how it went.

use crate::digest::bytes_equal;
use crate::error::SessionError;
use crate::manifest::{Manifest, ManifestRoot};
use crate::path::{PathComponent, SyncPath};
use crate::plan::{Operation, PlanCursor};
use crate::session::{Chunker, Options, Strategy};
use vstd::prelude::*;
use vstd::slice::slice_subrange;

verus! {

/// A sync between two roots that have been scanned.
pub struct LocalSync<'a> {
    /// The source root.
    pub source: &'a SyncPath,
    /// The destination root.
    pub destination: &'a SyncPath,
    /// Whether the destination root is an existing directory.
    pub destination_is_dir: bool,
    /// What the source holds.
    pub source_manifest: &'a Manifest,
    /// What the destination holds, if there is one.
    pub destination_manifest: Option<&'a Manifest>,
}

/// Where a file lands: under its own name in an existing directory, and at the
/// destination itself otherwise.
pub open spec fn file_target(
    source: Seq<crate::path::Name>,
    destination: Seq<crate::path::Name>,
    destination_is_dir: bool,
) -> Result<Seq<crate::path::Name>, crate::session::Trouble> {
    if !destination_is_dir {
        Ok(destination)
    } else {
        match crate::path::leaf_of(source) {
            Some(name) => Ok(
                crate::path::joined(destination, seq![crate::path::Name::Normal(name)]),
            ),
            None => Err(crate::session::Trouble::MissingSourceName { path: source }),
        }
    }
}

/// Where a file lands.
pub fn resolve_file_target(
    source: &SyncPath,
    destination: &SyncPath,
    destination_is_dir: bool,
) -> (target: Result<SyncPath, SessionError>)
    ensures
        match file_target(source@, destination@, destination_is_dir) {
            Ok(expected) => target matches Ok(found) && found@ == expected,
            Err(trouble) => target matches Err(error) && error@ == trouble,
        },
{
    if destination_is_dir {
        let name = match source.file_name() {
            Some(name) => name,
            None => {
                return Err(SessionError::MissingSourceName { path: source.clone() });
            },
        };
        let leaf = SyncPath::new(vec![PathComponent::Normal(name)]);
        assert(leaf@ =~= seq![crate::path::Name::Normal(name@)]);
        return Ok(destination.join(&leaf));
    }
    Ok(destination.clone())
}

/// The path that is scanned as the destination: a directory is compared with the
/// destination root, a file with the place where it will land.
pub fn destination_scan_path(
    source_root: ManifestRoot,
    source: &SyncPath,
    destination: &SyncPath,
    destination_is_dir: bool,
) -> (path: Result<SyncPath, SessionError>)
    ensures
        match source_root {
            ManifestRoot::Directory => path matches Ok(found) && found@ == destination@,
            ManifestRoot::File => match file_target(source@, destination@, destination_is_dir) {
                Ok(expected) => path matches Ok(found) && found@ == expected,
                Err(trouble) => path matches Err(error) && error@ == trouble,
            },
        },
{
    match source_root {
        ManifestRoot::Directory => Ok(destination.clone()),
        ManifestRoot::File => resolve_file_target(source, destination, destination_is_dir),
    }
}

/// The path of an entry, as it is listed.
pub open spec fn listed_at(manifest: Manifest, index: int) -> Seq<crate::path::Name> {
    manifest.entries@[index].path@
}

impl<'a> LocalSync<'a> {
    /// The source file and the place where it lands, when a file is synced.
    pub open spec fn file_pair(&self) -> Result<
        (Seq<crate::path::Name>, Seq<crate::path::Name>),
        crate::session::Trouble,
    > {
        match file_target(self.source@, self.destination@, self.destination_is_dir) {
            Ok(target) => Ok((self.source@, target)),
            Err(trouble) => Err(trouble),
        }
    }

    /// The two paths of a file that is created.
    pub open spec fn create_pair(&self, source_index: int) -> Result<
        (Seq<crate::path::Name>, Seq<crate::path::Name>),
        crate::session::Trouble,
    > {
        match self.source_manifest.root {
            ManifestRoot::Directory => {
                let relative = listed_at(*self.source_manifest, source_index);
                Ok(
                    (
                        crate::path::joined(self.source@, relative),
                        crate::path::joined(self.destination@, relative),
                    ),
                )
            },
            ManifestRoot::File => self.file_pair(),
        }
    }

    /// The two paths of entries that belong together.
    pub open spec fn matched_pair(&self, source_index: int, destination_index: int) -> Result<
        (Seq<crate::path::Name>, Seq<crate::path::Name>),
        crate::session::Trouble,
    > {
        match self.destination_manifest {
            None => Err(crate::session::Trouble::MissingDestinationManifest),
            Some(other) => match self.source_manifest.root {
                ManifestRoot::Directory => Ok(
                    (
                        crate::path::joined(
                            self.source@,
                            listed_at(*self.source_manifest, source_index),
                        ),
                        crate::path::joined(
                            self.destination@,
                            listed_at(*other, destination_index),
                        ),
                    ),
                ),
                ManifestRoot::File => self.file_pair(),
            },
        }
    }

    /// The path of an entry that is deleted.
    pub open spec fn deleted_path(&self, destination_index: int) -> Result<
        Seq<crate::path::Name>,
        crate::session::Trouble,
    > {
        match self.destination_manifest {
            None => Err(crate::session::Trouble::MissingDestinationManifest),
            Some(other) => match other.root {
                ManifestRoot::Directory => Ok(
                    crate::path::joined(self.destination@, listed_at(*other, destination_index)),
                ),
                ManifestRoot::File => file_target(
                    self.source@,
                    self.destination@,
                    self.destination_is_dir,
                ),
            },
        }
    }

    /// Whether the entries that an operation is about exist. What concerns the
    /// destination may lack its manifest.
    pub open spec fn knows(&self, operation: Operation) -> bool {
        crate::plan::within(
            operation,
            self.source_manifest.entries@.len(),
            crate::plan::entry_count(self.destination_manifest),
        ) || (self.destination_manifest is None && match operation {
            Operation::Delete { .. } => true,
            Operation::Create { source_index } => source_index
                < self.source_manifest.entries@.len(),
            Operation::UpdateData { source_index, .. } | Operation::UpdateMetadata {
                source_index,
                ..
            } | Operation::Skip { source_index, .. } => source_index
                < self.source_manifest.entries@.len(),
        })
    }

    /// The two paths of a file that is created.
    pub fn create_operation_paths(&self, source_index: usize) -> (paths: Result<
        (SyncPath, SyncPath),
        SessionError,
    >)
        requires
            source_index < self.source_manifest.entries@.len(),
        ensures
            match self.create_pair(source_index as int) {
                Ok(expected) => paths matches Ok((from, to)) && (from@, to@) == expected,
                Err(trouble) => paths matches Err(error) && error@ == trouble,
            },
    {
        match self.source_manifest.root {
            ManifestRoot::Directory => {
                let relative = &self.source_manifest.entries[source_index].path;
                Ok((self.source.join(relative), self.destination.join(relative)))
            },
            ManifestRoot::File => match resolve_file_target(
                self.source,
                self.destination,
                self.destination_is_dir,
            ) {
                Ok(target) => Ok((self.source.clone(), target)),
                Err(error) => Err(error),
            },
        }
    }

    /// The two paths of entries that belong together.
    pub fn matched_operation_paths(
        &self,
        source_index: usize,
        destination_index: usize,
    ) -> (paths: Result<(SyncPath, SyncPath), SessionError>)
        requires
            source_index < self.source_manifest.entries@.len(),
            self.destination_manifest is Some ==> destination_index < crate::plan::entry_count(
                self.destination_manifest,
            ),
        ensures
            match self.matched_pair(source_index as int, destination_index as int) {
                Ok(expected) => paths matches Ok((from, to)) && (from@, to@) == expected,
                Err(trouble) => paths matches Err(error) && error@ == trouble,
            },
    {
        let other = match self.destination_manifest {
            Some(other) => other,
            None => {
                return Err(SessionError::MissingDestinationManifest);
            },
        };
        match self.source_manifest.root {
            ManifestRoot::Directory => Ok(
                (
                    self.source.join(&self.source_manifest.entries[source_index].path),
                    self.destination.join(&other.entries[destination_index].path),
                ),
            ),
            ManifestRoot::File => match resolve_file_target(
                self.source,
                self.destination,
                self.destination_is_dir,
            ) {
                Ok(target) => Ok((self.source.clone(), target)),
                Err(error) => Err(error),
            },
        }
    }

    /// The path of an entry that is deleted.
    pub fn delete_operation_path(&self, destination_index: usize) -> (path: Result<
        SyncPath,
        SessionError,
    >)
        requires
            self.destination_manifest is Some ==> destination_index < crate::plan::entry_count(
                self.destination_manifest,
            ),
        ensures
            match self.deleted_path(destination_index as int) {
                Ok(expected) => path matches Ok(found) && found@ == expected,
                Err(trouble) => path matches Err(error) && error@ == trouble,
            },
    {
        let other = match self.destination_manifest {
            Some(other) => other,
            None => {
                return Err(SessionError::MissingDestinationManifest);
            },
        };
        match other.root {
            ManifestRoot::Directory => Ok(
                self.destination.join(&other.entries[destination_index].path),
            ),
            ManifestRoot::File => resolve_file_target(
                self.source,
                self.destination,
                self.destination_is_dir,
            ),
        }
    }

    /// The path that an operation on directories is reported under.
    pub fn directory_operation_path(&self, operation: Operation) -> (path: Result<
        &'a SyncPath,
        SessionError,
    >)
        requires
            self.knows(operation),
        ensures
            match self.listed_path_of(operation) {
                Ok(expected) => path matches Ok(found) && found@ == expected,
                Err(trouble) => path matches Err(error) && error@ == trouble,
            },
    {
        match operation {
            Operation::Create { source_index } | Operation::UpdateData { source_index, .. }
            | Operation::UpdateMetadata { source_index, .. } | Operation::Skip {
                source_index,
                ..
            } => Ok(&self.source_manifest.entries[source_index].path),
            Operation::Delete { destination_index } => match self.destination_manifest {
                Some(other) => Ok(&other.entries[destination_index].path),
                None => Err(SessionError::MissingDestinationManifest),
            },
        }
    }

    /// The path that the entry of an operation is listed under.
    pub open spec fn listed_path_of(&self, operation: Operation) -> Result<
        Seq<crate::path::Name>,
        crate::session::Trouble,
    > {
        match operation {
            Operation::Create { source_index } | Operation::UpdateData { source_index, .. }
            | Operation::UpdateMetadata { source_index, .. } | Operation::Skip {
                source_index,
                ..
            } => Ok(listed_at(*self.source_manifest, source_index as int)),
            Operation::Delete { destination_index } => match self.destination_manifest {
                Some(other) => Ok(listed_at(*other, destination_index as int)),
                None => Err(crate::session::Trouble::MissingDestinationManifest),
            },
        }
    }

    /// The path that an operation is reported under: in a directory as it is
    /// listed, for a file the place where it lands.
    pub open spec fn reported_path(&self, operation: Operation) -> Result<
        Seq<crate::path::Name>,
        crate::session::Trouble,
    > {
        match self.source_manifest.root {
            ManifestRoot::Directory => self.listed_path_of(operation),
            ManifestRoot::File => file_target(
                self.source@,
                self.destination@,
                self.destination_is_dir,
            ),
        }
    }

    /// The path that an operation is reported under.
    pub fn operation_path(&self, operation: Operation) -> (path: Result<SyncPath, SessionError>)
        requires
            self.knows(operation),
        ensures
            match self.reported_path(operation) {
                Ok(expected) => path matches Ok(found) && found@ == expected,
                Err(trouble) => path matches Err(error) && error@ == trouble,
            },
    {
        match self.source_manifest.root {
            ManifestRoot::Directory => match self.directory_operation_path(operation) {
                Ok(path) => Ok(path.clone()),
                Err(error) => Err(error),
            },
            ManifestRoot::File => resolve_file_target(
                self.source,
                self.destination,
                self.destination_is_dir,
            ),
        }
    }

    /// The files whose contents decide about an operation, if there are any.
    /// Metadata that looks the same says nothing about contents.
    pub open spec fn compared(&self, operation: Operation) -> Result<
        Option<(Seq<crate::path::Name>, Seq<crate::path::Name>)>,
        crate::session::Trouble,
    > {
        match operation {
            Operation::Skip { source_index, destination_index } | Operation::UpdateMetadata {
                source_index,
                destination_index,
            } => match self.matched_pair(source_index as int, destination_index as int) {
                Ok(pair) => Ok(Some(pair)),
                Err(trouble) => Err(trouble),
            },
            _ => Ok(None),
        }
    }

    /// The files whose contents decide about an operation, if there are any.
    pub fn comparison_paths(&self, operation: Operation) -> (paths: Result<
        Option<(SyncPath, SyncPath)>,
        SessionError,
    >)
        requires
            self.knows(operation),
        ensures
            match self.compared(operation) {
                Ok(Some(expected)) => paths matches Ok(Some((from, to))) && (from@, to@)
                    == expected,
                Ok(None) => paths matches Ok(None),
                Err(trouble) => paths matches Err(error) && error@ == trouble,
            },
    {
        match operation {
            Operation::Skip { source_index, destination_index } | Operation::UpdateMetadata {
                source_index,
                destination_index,
            } => match self.matched_operation_paths(source_index, destination_index) {
                Ok(paths) => Ok(Some(paths)),
                Err(error) => Err(error),
            },
            _ => Ok(None),
        }
    }
}

/// What becomes of an operation once contents have been compared: files that
/// differ need new contents after all.
pub open spec fn refined(operation: Operation, contents_match: bool) -> Operation {
    match operation {
        Operation::Skip { source_index, destination_index } | Operation::UpdateMetadata {
            source_index,
            destination_index,
        } => if contents_match {
            operation
        } else {
            Operation::UpdateData { source_index, destination_index }
        },
        _ => operation,
    }
}

/// What becomes of an operation once contents have been compared.
pub fn refine_operation(operation: Operation, contents_match: bool) -> (result: Operation)
    ensures
        result == refined(operation, contents_match),
{
    match operation {
        Operation::Skip { source_index, destination_index } | Operation::UpdateMetadata {
            source_index,
            destination_index,
        } => {
            if contents_match {
                operation
            } else {
                Operation::UpdateData { source_index, destination_index }
            }
        },
        _ => operation,
    }
}

/// A change to the destination.
#[derive(Debug, PartialEq, Eq)]
pub enum Action {
    /// Replace a file by a copy of another.
    ReplaceFile { source: SyncPath, destination: SyncPath },
    /// Rebuild a file from its own content-defined chunks and new bytes.
    FastCdcDelta { source: SyncPath, destination: SyncPath },
    /// Give a file the metadata of another.
    SyncMetadata { source: SyncPath, destination: SyncPath },
    /// Remove a file, and then the directories above it that are left empty, up
    /// to the one given.
    RemoveFile { path: SyncPath, prune_up_to: Option<SyncPath> },
    /// Leave everything as it is.
    Nothing,
}

/// What a change says.
pub enum Deed {
    ReplaceFile { source: Seq<crate::path::Name>, destination: Seq<crate::path::Name> },
    FastCdcDelta { source: Seq<crate::path::Name>, destination: Seq<crate::path::Name> },
    SyncMetadata { source: Seq<crate::path::Name>, destination: Seq<crate::path::Name> },
    RemoveFile { path: Seq<crate::path::Name>, prune_up_to: Option<Seq<crate::path::Name>> },
    Nothing,
}

impl View for Action {
    type V = Deed;

    open spec fn view(&self) -> Deed {
        match self {
            Action::ReplaceFile { source, destination } => Deed::ReplaceFile {
                source: source@,
                destination: destination@,
            },
            Action::FastCdcDelta { source, destination } => Deed::FastCdcDelta {
                source: source@,
                destination: destination@,
            },
            Action::SyncMetadata { source, destination } => Deed::SyncMetadata {
                source: source@,
                destination: destination@,
            },
            Action::RemoveFile { path, prune_up_to } => Deed::RemoveFile {
                path: path@,
                prune_up_to: match prune_up_to {
                    Some(root) => Some(root@),
                    None => None,
                },
            },
            Action::Nothing => Deed::Nothing,
        }
    }
}

/// How new contents are brought to a file. Only chunks need a chunker, and only
/// FastCDC is one that can be used.
pub open spec fn data_update(
    source: Seq<crate::path::Name>,
    destination: Seq<crate::path::Name>,
    options: Options,
) -> Result<Deed, crate::session::Trouble> {
    match (options.strategy, options.chunker) {
        (Strategy::Auto, _) | (Strategy::Whole, _) => Ok(
            Deed::ReplaceFile { source, destination },
        ),
        (Strategy::Cdc, Chunker::FastCdc) => Ok(Deed::FastCdcDelta { source, destination }),
        (Strategy::Cdc, Chunker::SeqCdc) => Err(
            crate::session::Trouble::UnsupportedChunker {
                strategy: crate::session::strategy_name(options.strategy),
                chunker: crate::session::chunker_name(options.chunker),
            },
        ),
    }
}

/// How new contents are brought to a file.
pub fn apply_data_update(source: SyncPath, destination: SyncPath, options: &Options) -> (action:
    Result<Action, SessionError>)
    ensures
        match data_update(source@, destination@, *options) {
            Ok(deed) => action matches Ok(found) && found@ == deed,
            Err(trouble) => action matches Err(error) && error@ == trouble,
        },
{
    match options.strategy {
        Strategy::Auto | Strategy::Whole => Ok(Action::ReplaceFile { source, destination }),
        Strategy::Cdc => apply_cdc_delta_update(source, destination, options),
    }
}

/// How new contents are brought to a file chunk by chunk.
pub fn apply_cdc_delta_update(
    source: SyncPath,
    destination: SyncPath,
    options: &Options,
) -> (action: Result<Action, SessionError>)
    ensures
        match options.chunker {
            Chunker::FastCdc => action matches Ok(found) && found@ == (Deed::FastCdcDelta {
                source: source@,
                destination: destination@,
            }),
            Chunker::SeqCdc => action matches Err(error) && error@ == (
            crate::session::Trouble::UnsupportedChunker {
                strategy: crate::session::strategy_name(options.strategy),
                chunker: crate::session::chunker_name(options.chunker),
            }),
        },
{
    match options.chunker {
        Chunker::FastCdc => Ok(Action::FastCdcDelta { source, destination }),
        Chunker::SeqCdc => Err(
            SessionError::UnsupportedChunker {
                strategy: options.strategy.to_string(),
                chunker: options.chunker.to_string(),
            },
        ),
    }
}

impl<'a> LocalSync<'a> {
    /// The change that an operation asks for.
    pub open spec fn deed(&self, operation: Operation, options: Options) -> Result<
        Deed,
        crate::session::Trouble,
    > {
        match operation {
            Operation::Create { source_index } => match self.create_pair(source_index as int) {
                Ok((source, destination)) => Ok(Deed::ReplaceFile { source, destination }),
                Err(trouble) => Err(trouble),
            },
            Operation::UpdateData { source_index, destination_index } => match self.matched_pair(
                source_index as int,
                destination_index as int,
            ) {
                Ok((source, destination)) => data_update(source, destination, options),
                Err(trouble) => Err(trouble),
            },
            Operation::UpdateMetadata {
                source_index,
                destination_index,
            } => match self.matched_pair(source_index as int, destination_index as int) {
                Ok((source, destination)) => Ok(Deed::SyncMetadata { source, destination }),
                Err(trouble) => Err(trouble),
            },
            Operation::Delete { destination_index } => match self.deleted_path(
                destination_index as int,
            ) {
                Ok(path) => Ok(
                    Deed::RemoveFile {
                        path,
                        prune_up_to: match self.source_manifest.root {
                            ManifestRoot::Directory => Some(self.destination@),
                            ManifestRoot::File => None,
                        },
                    },
                ),
                Err(trouble) => Err(trouble),
            },
            Operation::Skip { .. } => Ok(Deed::Nothing),
        }
    }

    /// The change that an operation asks for.
    pub fn apply_operation(&self, operation: Operation, options: &Options) -> (action: Result<
        Action,
        SessionError,
    >)
        requires
            self.knows(operation),
        ensures
            match self.deed(operation, *options) {
                Ok(deed) => action matches Ok(found) && found@ == deed,
                Err(trouble) => action matches Err(error) && error@ == trouble,
            },
    {
        match operation {
            Operation::Create { source_index } => match self.create_operation_paths(
                source_index,
            ) {
                Ok((source, destination)) => Ok(Action::ReplaceFile { source, destination }),
                Err(error) => Err(error),
            },
            Operation::UpdateData {
                source_index,
                destination_index,
            } => match self.matched_operation_paths(source_index, destination_index) {
                Ok((source, destination)) => apply_data_update(source, destination, options),
                Err(error) => Err(error),
            },
            Operation::UpdateMetadata {
                source_index,
                destination_index,
            } => match self.matched_operation_paths(source_index, destination_index) {
                Ok((source, destination)) => Ok(Action::SyncMetadata { source, destination }),
                Err(error) => Err(error),
            },
            Operation::Delete { destination_index } => match self.delete_operation_path(
                destination_index,
            ) {
                Ok(path) => {
                    let prune_up_to = match self.source_manifest.root {
                        ManifestRoot::Directory => Some(self.destination.clone()),
                        ManifestRoot::File => None,
                    };
                    Ok(Action::RemoveFile { path, prune_up_to })
                },
                Err(error) => Err(error),
            },
            Operation::Skip { .. } => Ok(Action::Nothing),
        }
    }
}

/// What to do next.
#[derive(Debug, PartialEq, Eq)]
pub enum Command {
    /// Say whether two files have the same contents.
    Compare { source: SyncPath, destination: SyncPath },
    /// Make a change.
    Perform(Action),
    /// Report an operation that has been carried out.
    Report { operation: Operation, path: SyncPath },
    /// Everything has been done.
    Done,
}

/// What a command says.
pub enum Order {
    Compare { source: Seq<crate::path::Name>, destination: Seq<crate::path::Name> },
    Perform(Deed),
    Report { operation: Operation, path: Seq<crate::path::Name> },
    Done,
}

impl View for Command {
    type V = Order;

    open spec fn view(&self) -> Order {
        match self {
            Command::Compare { source, destination } => Order::Compare {
                source: source@,
                destination: destination@,
            },
            Command::Perform(action) => Order::Perform(action@),
            Command::Report { operation, path } => Order::Report {
                operation: *operation,
                path: path@,
            },
            Command::Done => Order::Done,
        }
    }
}

/// How the last command went.
#[derive(Debug, Clone, Copy, PartialEq, Eq, Structural)]
pub enum Event {
    /// There was none, or a report was delivered.
    Ready,
    /// The files have the same contents, or not.
    Compared { contents_match: bool },
    /// The change was made.
    Performed,
}

/// What an execution waits for.
#[derive(Debug, Clone, Copy, PartialEq, Eq, Structural)]
pub enum Stage {
    /// For the next operation to be asked for.
    Idle,
    /// For a comparison that decides about an operation.
    Comparing { operation: Operation },
    /// For the change of an operation to be made.
    Performing { operation: Operation },
}

/// Whether an event is what the stage waits for.
pub open spec fn expects(stage: Stage, event: Event) -> bool {
    match (stage, event) {
        (Stage::Idle, Event::Ready) => true,
        (Stage::Comparing { .. }, Event::Compared { .. }) => true,
        (Stage::Performing { .. }, Event::Performed) => true,
        _ => false,
    }
}

/// What the next step of an execution is: a command, the stage after it, and the
/// operations that are then still to come.
pub enum Progress {
    Step { order: Order, stage: Stage, remaining: Seq<Operation> },
    Stopped(crate::session::Trouble),
}

impl<'a> LocalSync<'a> {
    /// The step that makes the change of an operation.
    pub open spec fn perform_step(
        &self,
        operation: Operation,
        options: Options,
        remaining: Seq<Operation>,
    ) -> Progress {
        match self.deed(operation, options) {
            Ok(deed) => Progress::Step {
                order: Order::Perform(deed),
                stage: Stage::Performing { operation },
                remaining,
            },
            Err(trouble) => Progress::Stopped(trouble),
        }
    }

    /// The step that follows an event.
    pub open spec fn progress(
        &self,
        stage: Stage,
        event: Event,
        options: Options,
        remaining: Seq<Operation>,
    ) -> Progress {
        match (stage, event) {
            (Stage::Comparing { operation }, Event::Compared { contents_match }) => {
                self.perform_step(refined(operation, contents_match), options, remaining)
            },
            (Stage::Performing { operation }, Event::Performed) => match self.reported_path(
                operation,
            ) {
                Ok(path) => Progress::Step {
                    order: Order::Report { operation, path },
                    stage: Stage::Idle,
                    remaining,
                },
                Err(trouble) => Progress::Stopped(trouble),
            },
            _ => if remaining.len() == 0 {
                Progress::Step { order: Order::Done, stage: Stage::Idle, remaining }
            } else {
                let operation = remaining[0];
                match self.compared(operation) {
                    Err(trouble) => Progress::Stopped(trouble),
                    Ok(Some((source, destination))) => Progress::Step {
                        order: Order::Compare { source, destination },
                        stage: Stage::Comparing { operation },
                        remaining: remaining.drop_first(),
                    },
                    Ok(None) => self.perform_step(operation, options, remaining.drop_first()),
                }
            },
        }
    }
}

/// A plan that is being carried out.
///
/// Each operation is compared where contents decide, then performed, then
/// reported. The first error ends the execution.
pub struct Execution<'a> {
    sync: LocalSync<'a>,
    options: Options,
    cursor: PlanCursor<'a>,
    stage: Stage,
}

impl<'a> Execution<'a> {
    pub closed spec fn sync(&self) -> LocalSync<'a> {
        self.sync
    }

    pub closed spec fn options(&self) -> Options {
        self.options
    }

    pub closed spec fn stage(&self) -> Stage {
        self.stage
    }

    /// The operations that have not been started.
    pub closed spec fn remaining(&self) -> Seq<Operation> {
        self.cursor.remaining()
    }

    pub closed spec fn wf(&self) -> bool {
        &&& self.cursor.wf()
        &&& self.cursor.manifests() == (
            *self.sync.source_manifest,
            self.sync.destination_manifest,
        )
        &&& match self.stage {
            Stage::Idle => true,
            Stage::Comparing { operation } => self.sync.knows(operation),
            Stage::Performing { operation } => self.sync.knows(operation),
        }
    }

    /// Starts to carry out the plan for the two manifests.
    pub fn new(sync: LocalSync<'a>, options: Options) -> (execution: Result<Self, SessionError>)
        requires
            crate::plan::plannable(*sync.source_manifest, sync.destination_manifest),
        ensures
            match crate::plan::plan_of(
                *sync.source_manifest,
                sync.destination_manifest,
                options.plan,
            ) {
                Ok(operations) => {
                    &&& execution matches Ok(found)
                    &&& found.wf()
                    &&& found.sync() == sync
                    &&& found.options() == options
                    &&& found.stage() == Stage::Idle
                    &&& found.remaining() == operations
                },
                Err(error) => execution matches Err(SessionError::Plan(found)) && found == error,
            },
    {
        match PlanCursor::new(sync.source_manifest, sync.destination_manifest, options.plan) {
            Ok(cursor) => Ok(Execution { sync, options, cursor, stage: Stage::Idle }),
            Err(error) => Err(SessionError::Plan(error)),
        }
    }

    /// Goes on after an event, and says what to do next.
    pub fn step(&mut self, event: Event) -> (command: Result<Command, SessionError>)
        requires
            old(self).wf(),
            expects(old(self).stage(), event),
        ensures
            final(self).sync() == old(self).sync(),
            final(self).options() == old(self).options(),
            match old(self).sync().progress(
                old(self).stage(),
                event,
                old(self).options(),
                old(self).remaining(),
            ) {
                Progress::Stopped(trouble) => command matches Err(error) && error@ == trouble,
                Progress::Step { order, stage, remaining } => {
                    &&& command matches Ok(found)
                    &&& found@ == order
                    &&& final(self).stage() == stage
                    &&& final(self).remaining() == remaining
                    &&& final(self).wf()
                },
            },
    {
        let ghost remaining = self.cursor.remaining();
        match (self.stage, event) {
            (Stage::Comparing { operation }, Event::Compared { contents_match }) => {
                self.perform(refine_operation(operation, contents_match))
            },
            (Stage::Performing { operation }, Event::Performed) => {
                let path = match self.sync.operation_path(operation) {
                    Ok(path) => path,
                    Err(error) => {
                        return Err(error);
                    },
                };
                self.stage = Stage::Idle;
                Ok(Command::Report { operation, path })
            },
            _ => {
                let operation = match self.cursor.next() {
                    Some(operation) => operation,
                    None => {
                        return Ok(Command::Done);
                    },
                };
                assert(remaining[0] == operation);
                assert(remaining.drop_first() =~= self.cursor.remaining());
                match self.sync.comparison_paths(operation) {
                    Ok(Some((source, destination))) => {
                        self.stage = Stage::Comparing { operation };
                        Ok(Command::Compare { source, destination })
                    },
                    Ok(None) => self.perform(operation),
                    Err(error) => Err(error),
                }
            },
        }
    }

    /// Asks for the change of an operation.
    fn perform(&mut self, operation: Operation) -> (command: Result<Command, SessionError>)
        requires
            old(self).cursor.wf(),
            old(self).cursor.manifests() == (
                *old(self).sync.source_manifest,
                old(self).sync.destination_manifest,
            ),
            old(self).sync.knows(operation),
        ensures
            final(self).sync == old(self).sync,
            final(self).options == old(self).options,
            final(self).cursor == old(self).cursor,
            match old(self).sync.deed(operation, old(self).options) {
                Err(trouble) => command matches Err(error) && error@ == trouble,
                Ok(deed) => {
                    &&& command matches Ok(found)
                    &&& found@ == Order::Perform(deed)
                    &&& final(self).stage == (Stage::Performing { operation })
                },
            },
    {
        let action = match self.sync.apply_operation(operation, &self.options) {
            Ok(action) => action,
            Err(error) => {
                return Err(error);
            },
        };
        self.stage = Stage::Performing { operation };
        Ok(Command::Perform(action))
    }
}

/// The command of a step, or none if there is no step.
pub open spec fn orders_in(progress: Progress) -> Seq<Order> {
    match progress {
        Progress::Step { order, .. } => seq![order],
        Progress::Stopped(_) => Seq::empty(),
    }
}

/// The operations that are reported, in their order.
pub open spec fn operations_reported(orders: Seq<Order>) -> Seq<Operation>
    decreases orders.len(),
{
    if orders.len() == 0 {
        Seq::empty()
    } else {
        let rest = operations_reported(orders.drop_last());
        match orders.last() {
            Order::Report { operation, .. } => rest.push(operation),
            _ => rest,
        }
    }
}

impl<'a> LocalSync<'a> {
    /// The steps of one operation, when a comparison of contents is answered by
    /// `same` and the change succeeds: the first, the one that asks for the
    /// change, and the one that reports it.
    pub open spec fn steps_of(
        &self,
        remaining: Seq<Operation>,
        options: Options,
        same: bool,
    ) -> (Progress, Progress, Progress) {
        let first = self.progress(Stage::Idle, Event::Ready, options, remaining);
        let performing = match first {
            Progress::Step {
                stage: Stage::Comparing { operation },
                remaining: rest,
                ..
            } => self.progress(
                Stage::Comparing { operation },
                Event::Compared { contents_match: same },
                options,
                rest,
            ),
            _ => first,
        };
        let reporting = match performing {
            Progress::Step { stage, remaining: rest, .. } => self.progress(
                stage,
                Event::Performed,
                options,
                rest,
            ),
            Progress::Stopped(trouble) => Progress::Stopped(trouble),
        };
        (first, performing, reporting)
    }

    /// The commands that carry out `remaining`, when a comparison of contents is
    /// answered by `same` and every change succeeds. An error ends them.
    pub open spec fn course(
        &self,
        remaining: Seq<Operation>,
        options: Options,
        same: spec_fn(Operation) -> bool,
    ) -> Seq<Order>
        decreases remaining.len(),
    {
        if remaining.len() == 0 {
            orders_in(self.progress(Stage::Idle, Event::Ready, options, remaining))
        } else {
            let (first, performing, reporting) = self.steps_of(
                remaining,
                options,
                same(remaining[0]),
            );
            let compared = match first {
                Progress::Step { stage: Stage::Comparing { .. }, .. } => orders_in(first),
                _ => Seq::empty(),
            };
            let rest = match reporting {
                Progress::Step { .. } => self.course(remaining.drop_first(), options, same),
                Progress::Stopped(_) => Seq::empty(),
            };
            compared + orders_in(performing) + orders_in(reporting) + rest
        }
    }

    /// Whether nothing stands in the way of an operation.
    pub open spec fn trouble_free(
        &self,
        operation: Operation,
        options: Options,
        same: bool,
    ) -> bool {
        &&& self.compared(operation) is Ok
        &&& self.deed(refined(operation, same), options) is Ok
        &&& self.reported_path(refined(operation, same)) is Ok
    }
}

proof fn lemma_reported_append(left: Seq<Order>, right: Seq<Order>)
    ensures
        operations_reported(left + right) == operations_reported(left) + operations_reported(right),
    decreases right.len(),
{
    if right.len() == 0 {
        assert(left + right =~= left);
        assert(operations_reported(left) + operations_reported(right) =~= operations_reported(
            left,
        ));
    } else {
        assert((left + right).drop_last() =~= left + right.drop_last());
        lemma_reported_append(left, right.drop_last());
        assert(operations_reported(left + right) =~= operations_reported(left)
            + operations_reported(right));
    }
}

/// Where nothing stands in the way, every operation of a plan is carried out and
/// reported, once and in the order of the plan. What is reported is what was done:
/// an operation on files that turned out to differ is reported as new contents.
pub proof fn lemma_every_operation_is_reported(
    sync: LocalSync<'_>,
    remaining: Seq<Operation>,
    options: Options,
    same: spec_fn(Operation) -> bool,
)
    requires
        forall|k: int|
            0 <= k < remaining.len() ==> sync.trouble_free(
                #[trigger] remaining[k],
                options,
                same(remaining[k]),
            ),
    ensures
        operations_reported(sync.course(remaining, options, same)) == remaining.map_values(
            |operation: Operation| refined(operation, same(operation)),
        ),
        sync.course(remaining, options, same).last() == Order::Done,
        sync.course(remaining, options, same).len() > 0,
    decreases remaining.len(),
{
    let done = remaining.map_values(
        |operation: Operation| refined(operation, same(operation)),
    );
    let course = sync.course(remaining, options, same);
    if remaining.len() == 0 {
        assert(course =~= seq![Order::Done]);
        assert(course.drop_last() =~= Seq::<Order>::empty());
        assert(operations_reported(course.drop_last()) =~= Seq::<Operation>::empty());
        assert(operations_reported(course) =~= done);
    } else {
        let operation = remaining[0];
        let rest = remaining.drop_first();
        assert(sync.trouble_free(remaining[0], options, same(remaining[0])));
        assert forall|k: int| 0 <= k < rest.len() implies sync.trouble_free(
            #[trigger] rest[k],
            options,
            same(rest[k]),
        ) by {
            assert(rest[k] == remaining[k + 1]);
        }
        lemma_every_operation_is_reported(sync, rest, options, same);
        let last = refined(operation, same(operation));
        let (first, performing, reporting) = sync.steps_of(remaining, options, same(operation));
        let compared = match first {
            Progress::Step { stage: Stage::Comparing { .. }, .. } => orders_in(first),
            _ => Seq::empty(),
        };
        let later = sync.course(rest, options, same);
        let path = sync.reported_path(last)->Ok_0;
        let report = Order::Report { operation: last, path };
        assert(orders_in(reporting) =~= seq![report]);
        assert(course =~= compared + orders_in(performing) + seq![report] + later);
        lemma_reported_append(compared + orders_in(performing) + seq![report], later);
        lemma_reported_append(compared + orders_in(performing), seq![report]);
        lemma_reported_append(compared, orders_in(performing));
        lemma_silent(compared);
        lemma_silent(orders_in(performing));
        assert(seq![report].drop_last() =~= Seq::<Order>::empty());
        assert(operations_reported(seq![report].drop_last()) =~= Seq::<Operation>::empty());
        assert(operations_reported(seq![report]) =~= seq![last]);
        assert(operations_reported(course) =~= done);
    }
}

/// A command that is no report reports nothing.
proof fn lemma_silent(orders: Seq<Order>)
    requires
        orders.len() <= 1,
        forall|k: int| 0 <= k < orders.len() ==> !((#[trigger] orders[k]) is Report),
    ensures
        operations_reported(orders) == Seq::<Operation>::empty(),
{
    if orders.len() == 1 {
        assert(orders.drop_last() =~= Seq::<Order>::empty());
        assert(operations_reported(orders.drop_last()) =~= Seq::<Operation>::empty());
        assert(!(orders[0] is Report));
    }
    assert(operations_reported(orders) =~= Seq::<Operation>::empty());
}

/// How a comparison of two files stands after a pair of reads.
#[derive(Debug, Clone, Copy, PartialEq, Eq, Structural)]
pub enum Comparison {
    /// The files differ.
    Differ,
    /// Both files have ended.
    Equal,
    /// More has to be read.
    Continue,
}

/// Compares what was read from two files at the same time. Reads of different
/// lengths tell the files apart, and reads of nothing end both.
pub fn compare_reads(source: &[u8], destination: &[u8]) -> (comparison: Comparison)
    ensures
        comparison == if source@ != destination@ {
            Comparison::Differ
        } else if source@.len() == 0 {
            Comparison::Equal
        } else {
            Comparison::Continue
        },
{
    if source.len() != destination.len() {
        return Comparison::Differ;
    }
    if source.len() == 0 {
        assert(source@ =~= destination@);
        return Comparison::Equal;
    }
    if !bytes_equal(source, destination) {
        return Comparison::Differ;
    }
    Comparison::Continue
}

/// How much of a file is read at once for comparison.
pub const COMPARE_BUFFER_SIZE: usize = 8192;

/// Whether two contents are the same, found by comparing them read by read.
pub fn files_match(source: &[u8], destination: &[u8]) -> (same: bool)
    ensures
        same == (source@ == destination@),
{
    let mut source_at: usize = 0;
    let mut destination_at: usize = 0;
    loop
        invariant_except_break
            source_at == destination_at,
            source_at <= source@.len(),
            destination_at <= destination@.len(),
            source@.take(source_at as int) == destination@.take(destination_at as int),
        decreases source@.len() - source_at,
    {
        let source_end: usize = if source.len() - source_at < COMPARE_BUFFER_SIZE {
            source.len()
        } else {
            source_at + COMPARE_BUFFER_SIZE
        };
        let destination_end: usize = if destination.len() - destination_at < COMPARE_BUFFER_SIZE {
            destination.len()
        } else {
            destination_at + COMPARE_BUFFER_SIZE
        };
        let source_read = slice_subrange(source, source_at, source_end);
        let destination_read = slice_subrange(destination, destination_at, destination_end);
        match compare_reads(source_read, destination_read) {
            Comparison::Differ => {
                proof {
                    if source@ == destination@ {
                        assert(source_read@ =~= destination_read@);
                    }
                }
                return false;
            },
            Comparison::Equal => {
                assert(source@.take(source_at as int) =~= source@);
                assert(destination@.take(destination_at as int) =~= destination@);
                return true;
            },
            Comparison::Continue => {
                assert(source@.take(source_end as int) =~= source@.take(source_at as int)
                    + source_read@);
                assert(destination@.take(destination_end as int) =~= destination@.take(
                    destination_at as int,
                ) + destination_read@);
                assert(source_end == destination_end) by {
                    assert(source_read@.len() == destination_read@.len());
                }
                source_at = source_end;
                destination_at = destination_end;
            },
        }
    }
}

/// A file lands at the destination itself, or in it under its own name if that is a
/// directory. Only a source without a name cannot land in a directory.
pub proof fn lemma_files_land_under_their_name(
    source: Seq<crate::path::Name>,
    destination: Seq<crate::path::Name>,
)
    ensures
        file_target(source, destination, false) == Ok::<
            Seq<crate::path::Name>,
            crate::session::Trouble,
        >(destination),
        source.len() > 0 && source.last() is Normal ==> file_target(source, destination, true)
            == Ok::<Seq<crate::path::Name>, crate::session::Trouble>(
            destination.push(source.last()),
        ),
        !(source.len() > 0 && source.last() is Normal) ==> file_target(source, destination, true)
            == Err::<Seq<crate::path::Name>, crate::session::Trouble>(
            crate::session::Trouble::MissingSourceName { path: source },
        ),
{
    if source.len() > 0 && source.last() is Normal {
        assert(destination + seq![source.last()] =~= destination.push(source.last()));
        assert(crate::path::joined(destination, seq![source.last()]) =~= destination.push(
            source.last(),
        ));
    }
}

/// A comparison of contents changes an operation only where the metadata of two files told
/// them not apart, or only by their time: if their contents differ, it becomes new contents
/// of the same two entries.
pub proof fn lemma_differing_contents_are_updated(operation: Operation, contents_match: bool)
    ensures
        refined(operation, true) == operation,
        operation is Skip || operation is UpdateMetadata ==> refined(operation, false)
            is UpdateData,
        !(operation is Skip || operation is UpdateMetadata) ==> refined(operation, false)
            == operation,
        crate::plan::source_of(refined(operation, contents_match)) == crate::plan::source_of(
            operation,
        ),
        crate::plan::destination_of(refined(operation, contents_match))
            == crate::plan::destination_of(operation),
{
}

/// New contents are copied as a whole unless the strategy is chunks. Chunks need a chunker
/// that exists, and the one that does not is refused by both names.
pub proof fn lemma_contents_are_written_as_asked(
    source: Seq<crate::path::Name>,
    destination: Seq<crate::path::Name>,
    options: Options,
)
    ensures
        options.strategy != Strategy::Cdc ==> data_update(source, destination, options) == Ok::<
            Deed,
            crate::session::Trouble,
        >(Deed::ReplaceFile { source, destination }),
        options.strategy == Strategy::Cdc && options.chunker == Chunker::FastCdc ==> data_update(
            source,
            destination,
            options,
        ) == Ok::<Deed, crate::session::Trouble>(Deed::FastCdcDelta { source, destination }),
        options.strategy == Strategy::Cdc && options.chunker == Chunker::SeqCdc ==> data_update(
            source,
            destination,
            options,
        ) == Err::<Deed, crate::session::Trouble>(
            crate::session::Trouble::UnsupportedChunker { strategy: "cdc"@, chunker: "seqcdc"@ },
        ),
{
}

/// A change cannot be made for three reasons. The destination has not been scanned, and the
/// operation is about one of its files. A file is to land in a directory, and has no name.
/// The contents are to be written with a chunker that does not exist. Nothing else stands in
/// the way.
pub proof fn lemma_troubles_are_told(sync: LocalSync<'_>, operation: Operation, options: Options)
    ensures
        ({
            let unscanned = sync.destination_manifest is None;
            let nameless = sync.destination_is_dir && !(sync.source@.len() > 0
                && sync.source@.last() is Normal);
            let file = sync.source_manifest.root == ManifestRoot::File;
            let unwritable = options.strategy == Strategy::Cdc && options.chunker
                == Chunker::SeqCdc;
            match operation {
                Operation::Create { .. } => {
                    &&& sync.deed(operation, options) is Err <==> file && nameless
                    &&& sync.deed(operation, options) matches Err(trouble) ==> trouble == (
                    crate::session::Trouble::MissingSourceName { path: sync.source@ })
                },
                Operation::UpdateData { .. } | Operation::UpdateMetadata { .. } => {
                    &&& sync.deed(operation, options) is Err <==> unscanned || (file && nameless)
                        || (operation is UpdateData && unwritable)
                    &&& sync.deed(operation, options) matches Err(trouble) ==> trouble
                        == if unscanned {
                        crate::session::Trouble::MissingDestinationManifest
                    } else if file && nameless {
                        crate::session::Trouble::MissingSourceName { path: sync.source@ }
                    } else {
                        crate::session::Trouble::UnsupportedChunker {
                            strategy: "cdc"@,
                            chunker: "seqcdc"@,
                        }
                    }
                },
                Operation::Delete { .. } => {
                    let single = sync.destination_manifest matches Some(manifest)
                        && manifest.root == ManifestRoot::File;
                    &&& sync.deed(operation, options) is Err <==> unscanned || (single && nameless)
                    &&& sync.deed(operation, options) matches Err(trouble) ==> trouble
                        == if unscanned {
                        crate::session::Trouble::MissingDestinationManifest
                    } else {
                        crate::session::Trouble::MissingSourceName { path: sync.source@ }
                    }
                },
                Operation::Skip { .. } => sync.deed(operation, options) is Ok,
            }
        }),
        sync.compared(operation) matches Err(trouble) ==> (operation is Skip
            || operation is UpdateMetadata) && trouble == if sync.destination_manifest is None {
            crate::session::Trouble::MissingDestinationManifest
        } else {
            crate::session::Trouble::MissingSourceName { path: sync.source@ }
        },
{
}

/// An operation that meets trouble is not carried out, and none behind it is: the course
/// ends there, at most with the comparison that came first.
pub proof fn lemma_trouble_ends_the_course(
    sync: LocalSync<'_>,
    operations: Seq<Operation>,
    options: Options,
    same: spec_fn(Operation) -> bool,
)
    requires
        operations.len() > 0,
        sync.compared(operations[0]) is Err || sync.deed(
            refined(operations[0], same(operations[0])),
            options,
        ) is Err,
    ensures
        sync.course(operations, options, same).len() <= 1,
        forall|n: int|
            0 <= n < sync.course(operations, options, same).len() ==> (#[trigger] sync.course(
                operations,
                options,
                same,
            )[n]) is Compare,
        sync.compared(operations[0]) is Err ==> sync.course(operations, options, same).len() == 0,
{
    let operation = operations[0];
    let (first, performing, reporting) = sync.steps_of(operations, options, same(operation));
    assert(operations.drop_first().len() == operations.len() - 1);
    assert(performing is Stopped);
    assert(reporting is Stopped);
    assert(orders_in(performing) =~= Seq::<Order>::empty());
    assert(orders_in(reporting) =~= Seq::<Order>::empty());
}

} // verus!
