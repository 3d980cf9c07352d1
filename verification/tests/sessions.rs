use std::collections::HashMap;

use oni::chunker::fastcdc::FastCdcConfig;
use oni::chunking::{Chunk, Chunker as _, ChunkingConfig, FastCdcChunker};
use oni::cli::{ChunkerArg, Cli, InternalCommand, InternalSubcommand, StrategyArg};
use oni::engine::apply::{Applier, StubApplier};
use oni::engine::manifest::RelativePath;
use oni::engine::planner::{Planner, StubPlanner, SyncPlan};
use oni::engine::session::{Session, SessionBudget, SessionConfig, SessionMode, SessionState};
use oni::error::{ApplyError, PlanError, SessionError, TransportError};
use oni::fs::apply::validate_destination;
use oni::manifest::{EntryKind, EntryMetadata, Manifest, ManifestEntry, ManifestRoot};
use oni::path::{PathComponent, SyncPath};
use oni::plan::{Operation, PlanOptions};
use oni::session::local::{
    compare_reads, destination_scan_path, files_match, refine_operation, resolve_file_target,
    Action, Command, Comparison, Event, Execution, LocalSync,
};
use oni::session::preview::{Change, ChangeKind, Preview, Summary};
use oni::session::{Chunker, Mode, Options, Request, Strategy};
use oni::strategy::cdc::{apply_fastcdc, signatures_fastcdc};
use oni::transport::Transport;

fn cli() -> Cli {
    Cli {
        delete_extraneous: false,
        whole_file: false,
        cdc: false,
        strategy: None,
        chunker: ChunkerArg::FastCdc,
        internal: None,
        source: Some("src".to_string()),
        destination: Some("dst".to_string()),
    }
}

#[test]
fn whole_file_flag_overrides_default_strategy() {
    let mut cli = cli();
    cli.whole_file = true;

    assert_eq!(cli.options().strategy, Strategy::Whole);
}

#[test]
fn cdc_flag_overrides_default_strategy() {
    let mut cli = cli();
    cli.cdc = true;

    assert_eq!(cli.options().strategy, Strategy::Cdc);
}

#[test]
fn command_lines_become_options() {
    let mut cli = cli();
    assert_eq!(cli.options(), Options::default());
    assert_eq!(cli.operands().unwrap(), ("src", "dst"));

    cli.delete_extraneous = true;
    cli.strategy = Some(StrategyArg::Cdc);
    cli.chunker = ChunkerArg::SeqCdc;
    assert_eq!(
        cli.options(),
        Options {
            plan: PlanOptions {
                delete_extraneous: true
            },
            strategy: Strategy::Cdc,
            chunker: Chunker::SeqCdc,
        }
    );

    cli.internal = Some(InternalCommand::Internal {
        command: InternalSubcommand::ServeStdio,
    });
    cli.source = None;
    assert_eq!(cli.operands(), Err(SessionError::MissingOperands));
}

fn path(text: &str) -> SyncPath {
    SyncPath::new(
        std::path::Path::new(text)
            .components()
            .map(|component| match component {
                std::path::Component::RootDir => PathComponent::RootDir,
                std::path::Component::CurDir => PathComponent::CurDir,
                std::path::Component::ParentDir => PathComponent::ParentDir,
                std::path::Component::Normal(name) => {
                    PathComponent::Normal(name.to_str().unwrap().as_bytes().to_vec())
                }
                std::path::Component::Prefix(_) => unreachable!(),
            })
            .collect(),
    )
}

fn manifest(root: ManifestRoot, names: &[&str]) -> Manifest {
    Manifest {
        root,
        entries: names
            .iter()
            .map(|name| ManifestEntry {
                path: path(name),
                kind: EntryKind::File,
                metadata: EntryMetadata {
                    len: 3,
                    modified_unix_secs: Some(10),
                },
            })
            .collect(),
    }
}

/// Carries a plan out, answering comparisons with `same`.
fn carry_out(
    sync: LocalSync<'_>,
    options: Options,
    same: bool,
) -> Result<Vec<Command>, SessionError> {
    let mut execution = Execution::new(sync, options)?;
    let mut commands = Vec::new();
    let mut event = Event::Ready;
    loop {
        let command = execution.step(event)?;
        event = match &command {
            Command::Compare { .. } => Event::Compared {
                contents_match: same,
            },
            Command::Perform(_) => Event::Performed,
            Command::Report { .. } => Event::Ready,
            Command::Done => return Ok(commands),
        };
        commands.push(command);
    }
}

#[test]
fn single_files_are_created_at_their_target() {
    let source_manifest = manifest(ManifestRoot::File, &["alpha.txt"]);
    let sync = LocalSync {
        source: &path("/from/alpha.txt"),
        destination: &path("/to/beta.txt"),
        destination_is_dir: false,
        source_manifest: &source_manifest,
        destination_manifest: None,
    };
    assert_eq!(
        carry_out(sync, Options::default(), true).unwrap(),
        vec![
            Command::Perform(Action::ReplaceFile {
                source: path("/from/alpha.txt"),
                destination: path("/to/beta.txt"),
            }),
            Command::Report {
                operation: Operation::Create { source_index: 0 },
                path: path("/to/beta.txt"),
            },
        ]
    );
}

#[test]
fn same_size_files_that_differ_get_new_contents() {
    let source_manifest = manifest(ManifestRoot::File, &["alpha.txt"]);
    let destination_manifest = manifest(ManifestRoot::File, &["beta.txt"]);
    let source = path("/alpha.txt");
    let destination = path("/beta.txt");
    let sync = LocalSync {
        source: &source,
        destination: &destination,
        destination_is_dir: false,
        source_manifest: &source_manifest,
        destination_manifest: Some(&destination_manifest),
    };
    assert_eq!(
        carry_out(sync, Options::default(), false).unwrap(),
        vec![
            Command::Compare {
                source: path("/alpha.txt"),
                destination: path("/beta.txt"),
            },
            Command::Perform(Action::ReplaceFile {
                source: path("/alpha.txt"),
                destination: path("/beta.txt"),
            }),
            Command::Report {
                operation: Operation::UpdateData {
                    source_index: 0,
                    destination_index: 0,
                },
                path: path("/beta.txt"),
            },
        ]
    );
}

#[test]
fn chunked_updates_need_a_chunker_that_exists() {
    let source_manifest = manifest(ManifestRoot::Directory, &["a"]);
    let destination_manifest = manifest(ManifestRoot::Directory, &["a"]);
    let source = path("/s");
    let destination = path("/d");
    let sync = || LocalSync {
        source: &source,
        destination: &destination,
        destination_is_dir: true,
        source_manifest: &source_manifest,
        destination_manifest: Some(&destination_manifest),
    };
    let options = |chunker| Options {
        plan: PlanOptions::default(),
        strategy: Strategy::Cdc,
        chunker,
    };

    let commands = carry_out(sync(), options(Chunker::FastCdc), false).unwrap();
    assert_eq!(
        commands[1],
        Command::Perform(Action::FastCdcDelta {
            source: path("/s/a"),
            destination: path("/d/a"),
        })
    );

    assert_eq!(
        carry_out(sync(), options(Chunker::SeqCdc), false),
        Err(SessionError::UnsupportedChunker {
            strategy: "cdc".to_string(),
            chunker: "seqcdc".to_string(),
        })
    );
    // Files that turn out to be the same need no chunker at all.
    assert!(carry_out(sync(), options(Chunker::SeqCdc), true).is_ok());
}

#[test]
fn metadata_is_synced_where_contents_agree() {
    let source_manifest = manifest(ManifestRoot::Directory, &["a"]);
    let mut destination_manifest = manifest(ManifestRoot::Directory, &["a"]);
    destination_manifest.entries[0].metadata.modified_unix_secs = Some(9);
    let commands = carry_out(
        LocalSync {
            source: &path("/s"),
            destination: &path("/d"),
            destination_is_dir: true,
            source_manifest: &source_manifest,
            destination_manifest: Some(&destination_manifest),
        },
        Options::default(),
        true,
    )
    .unwrap();
    assert_eq!(
        commands[1],
        Command::Perform(Action::SyncMetadata {
            source: path("/s/a"),
            destination: path("/d/a"),
        })
    );
}

#[test]
fn deletes_prune_up_to_the_destination() {
    let source_manifest = manifest(ManifestRoot::Directory, &["keep.txt", "nested/new.txt"]);
    let destination_manifest =
        manifest(ManifestRoot::Directory, &["keep.txt", "nested/remove.txt"]);
    let options = Options {
        plan: PlanOptions {
            delete_extraneous: true,
        },
        strategy: Strategy::Auto,
        chunker: Chunker::FastCdc,
    };
    let commands = carry_out(
        LocalSync {
            source: &path("/s"),
            destination: &path("/d"),
            destination_is_dir: true,
            source_manifest: &source_manifest,
            destination_manifest: Some(&destination_manifest),
        },
        options,
        true,
    )
    .unwrap();
    assert_eq!(
        commands,
        vec![
            Command::Compare {
                source: path("/s/keep.txt"),
                destination: path("/d/keep.txt"),
            },
            Command::Perform(Action::Nothing),
            Command::Report {
                operation: Operation::Skip {
                    source_index: 0,
                    destination_index: 0
                },
                path: path("keep.txt"),
            },
            Command::Perform(Action::ReplaceFile {
                source: path("/s/nested/new.txt"),
                destination: path("/d/nested/new.txt"),
            }),
            Command::Report {
                operation: Operation::Create { source_index: 1 },
                path: path("nested/new.txt"),
            },
            Command::Perform(Action::RemoveFile {
                path: path("/d/nested/remove.txt"),
                prune_up_to: Some(path("/d")),
            }),
            Command::Report {
                operation: Operation::Delete {
                    destination_index: 1
                },
                path: path("nested/remove.txt"),
            },
        ]
    );
}

/// Carries a sync out on files that are in memory, comparing what they hold.
fn sync_files(
    mut files: HashMap<SyncPath, Vec<u8>>,
    sync: LocalSync<'_>,
    options: Options,
) -> HashMap<SyncPath, Vec<u8>> {
    let mut execution = Execution::new(sync, options).unwrap();
    let mut event = Event::Ready;
    loop {
        event = match execution.step(event).unwrap() {
            Command::Compare {
                source,
                destination,
            } => Event::Compared {
                contents_match: files_match(&files[&source], &files[&destination]),
            },
            Command::Perform(action) => {
                match action {
                    Action::ReplaceFile {
                        source,
                        destination,
                    } => {
                        let contents = files[&source].clone();
                        files.insert(destination, contents);
                    }
                    Action::FastCdcDelta {
                        source,
                        destination,
                    } => {
                        let config = FastCdcConfig::default();
                        let table = signatures_fastcdc(&files[&destination], config).unwrap();
                        let (contents, _) =
                            apply_fastcdc(&files[&source], &table, config, &files[&destination])
                                .unwrap();
                        files.insert(destination, contents);
                    }
                    Action::RemoveFile { path, .. } => {
                        files.remove(&path);
                    }
                    Action::SyncMetadata { .. } | Action::Nothing => {}
                }
                Event::Performed
            }
            Command::Report { .. } => Event::Ready,
            Command::Done => return files,
        };
    }
}

fn tree(root: &str, entries: &[(&str, &[u8])]) -> (Manifest, HashMap<SyncPath, Vec<u8>>) {
    let mut listed = manifest(ManifestRoot::Directory, &[]);
    let mut files = HashMap::new();
    for (name, contents) in entries {
        listed.entries.push(ManifestEntry {
            path: path(name),
            kind: EntryKind::File,
            metadata: EntryMetadata {
                len: contents.len() as u64,
                modified_unix_secs: None,
            },
        });
        files.insert(path(root).join(&path(name)), contents.to_vec());
    }
    (listed, files)
}

#[test]
fn a_sync_leaves_the_source_in_the_destination() {
    let (source_manifest, source_files) = tree(
        "/s",
        &[("a", b"same"), ("b/c", b"new"), ("d", b"left"), ("e", b"longer")],
    );
    let (destination_manifest, destination_files) = tree(
        "/d",
        &[("a", b"same"), ("d", b"rite"), ("e", b"short"), ("f", b"extra")],
    );
    for strategy in [Strategy::Auto, Strategy::Cdc] {
        for delete_extraneous in [false, true] {
            let mut files = source_files.clone();
            files.extend(destination_files.clone());
            files.insert(path("/elsewhere"), b"kept".to_vec());
            let before = files.clone();
            let after = sync_files(
                files,
                LocalSync {
                    source: &path("/s"),
                    destination: &path("/d"),
                    destination_is_dir: true,
                    source_manifest: &source_manifest,
                    destination_manifest: Some(&destination_manifest),
                },
                Options {
                    plan: PlanOptions { delete_extraneous },
                    strategy,
                    chunker: Chunker::FastCdc,
                },
            );
            for entry in &source_manifest.entries {
                let kept = path("/s").join(&entry.path);
                let copied = path("/d").join(&entry.path);
                assert_eq!(after[&kept], before[&kept]);
                assert_eq!(after[&copied], before[&kept]);
            }
            assert_eq!(after.contains_key(&path("/d/f")), !delete_extraneous);
            assert_eq!(after[&path("/elsewhere")], b"kept");
            assert_eq!(after.len(), if delete_extraneous { 9 } else { 10 });
        }
    }
}

#[test]
fn a_sync_of_one_file_leaves_it_where_it_lands() {
    let source_manifest = manifest(ManifestRoot::File, &["x"]);
    let destination_manifest = manifest(ManifestRoot::File, &["x"]);
    let (source, destination) = (path("/s/x"), path("/d"));
    for existing in [None, Some(b"old".to_vec()), Some(b"new".to_vec())] {
        let mut files = HashMap::from([(path("/s/x"), b"new".to_vec())]);
        let destination_manifest = existing.as_ref().map(|_| &destination_manifest);
        if let Some(contents) = existing {
            files.insert(path("/d/x"), contents);
        }
        let after = sync_files(
            files,
            LocalSync {
                source: &source,
                destination: &destination,
                destination_is_dir: true,
                source_manifest: &source_manifest,
                destination_manifest,
            },
            Options::default(),
        );
        assert_eq!(after.len(), 2);
        assert_eq!(after[&path("/d/x")], b"new");
        assert_eq!(after[&path("/s/x")], b"new");
    }
}

#[test]
fn roots_of_different_kinds_are_refused() {
    let source_manifest = manifest(ManifestRoot::Directory, &[]);
    let destination_manifest = manifest(ManifestRoot::File, &["d"]);
    let outcome = carry_out(
        LocalSync {
            source: &path("/s"),
            destination: &path("/d"),
            destination_is_dir: false,
            source_manifest: &source_manifest,
            destination_manifest: Some(&destination_manifest),
        },
        Options::default(),
        true,
    );
    assert_eq!(
        outcome,
        Err(SessionError::Plan(PlanError::RootKindMismatch {
            source_root: ManifestRoot::Directory,
            destination_root: ManifestRoot::File,
        }))
    );
}

#[test]
fn files_land_inside_existing_directories() {
    assert_eq!(
        resolve_file_target(&path("/a/x.txt"), &path("/b"), true).unwrap(),
        path("/b/x.txt")
    );
    assert_eq!(
        resolve_file_target(&path("/a/x.txt"), &path("/b"), false).unwrap(),
        path("/b")
    );
    assert_eq!(
        resolve_file_target(&path("/a/.."), &path("/b"), true),
        Err(SessionError::MissingSourceName {
            path: path("/a/..")
        })
    );
    assert_eq!(
        destination_scan_path(ManifestRoot::Directory, &path("/a"), &path("/b"), true).unwrap(),
        path("/b")
    );
    assert_eq!(
        destination_scan_path(ManifestRoot::File, &path("/a"), &path("/b"), true).unwrap(),
        path("/b/a")
    );
}

#[test]
fn operations_without_a_destination_manifest_are_refused() {
    let source_manifest = manifest(ManifestRoot::Directory, &["a"]);
    let source = path("/s");
    let destination = path("/d");
    let sync = LocalSync {
        source: &source,
        destination: &destination,
        destination_is_dir: false,
        source_manifest: &source_manifest,
        destination_manifest: None,
    };
    let delete = Operation::Delete {
        destination_index: 0,
    };
    assert_eq!(
        sync.apply_operation(delete, &Options::default()),
        Err(SessionError::MissingDestinationManifest)
    );
    assert_eq!(
        sync.operation_path(delete),
        Err(SessionError::MissingDestinationManifest)
    );
    assert_eq!(
        sync.matched_operation_paths(0, 0),
        Err(SessionError::MissingDestinationManifest)
    );
}

#[test]
fn refinement_only_touches_what_looked_the_same() {
    let skip = Operation::Skip {
        source_index: 1,
        destination_index: 2,
    };
    assert_eq!(refine_operation(skip, true), skip);
    assert_eq!(
        refine_operation(skip, false),
        Operation::UpdateData {
            source_index: 1,
            destination_index: 2
        }
    );
    let create = Operation::Create { source_index: 1 };
    assert_eq!(refine_operation(create, false), create);
}

#[test]
fn contents_are_compared_read_by_read() {
    assert_eq!(compare_reads(b"ab", b"ab"), Comparison::Continue);
    assert_eq!(compare_reads(b"ab", b"ac"), Comparison::Differ);
    assert_eq!(compare_reads(b"ab", b"abc"), Comparison::Differ);
    assert_eq!(compare_reads(b"", b""), Comparison::Equal);

    let long: Vec<u8> = (0..20_000usize).map(|i| i as u8).collect();
    let mut other = long.clone();
    assert!(files_match(&long, &other));
    other[19_999] ^= 1;
    assert!(!files_match(&long, &other));
    assert!(!files_match(&long, &long[..16_384]));
}

#[test]
fn requests_know_their_mode() {
    let request = |source, destination| {
        Request::from_args(source, destination, Options::default()).unwrap()
    };
    assert_eq!(request("a", "b").mode(), Mode::LocalToLocal);
    assert_eq!(request("a", "h:b").mode(), Mode::LocalToRemote);
    assert_eq!(request("h:a", "b").mode(), Mode::RemoteToLocal);
    assert_eq!(request("h:a", "h:b").mode(), Mode::RemoteToRemote);

    let local = request("a", "b");
    let (source, destination) = local.local_endpoints().unwrap();
    assert_eq!((source.path.as_str(), destination.path.as_str()), ("a", "b"));
    assert_eq!(
        request("a", "h:b").local_endpoints(),
        Err(SessionError::UnsupportedMode {
            mode: "local -> remote".to_string()
        })
    );
    assert!(Request::from_args("a", "h:", Options::default()).is_err());
    assert_eq!(Strategy::Whole.to_string(), "whole");
}

#[test]
fn previews_are_summed_up() {
    let change = |kind| Change {
        kind,
        path: path("x"),
    };
    let preview = Preview {
        mode: Mode::LocalToLocal,
        operations: vec![
            change(ChangeKind::Create),
            change(ChangeKind::UpdateData),
            change(ChangeKind::Create),
            change(ChangeKind::UpdateMetadata),
            change(ChangeKind::Delete),
            change(ChangeKind::Skip),
            change(ChangeKind::UpdateData),
        ],
    };
    let summary = preview.summary();
    assert_eq!(
        summary,
        Summary {
            create: 2,
            update_data: 2,
            update_metadata: 1,
            delete: 1,
            skip: 1,
        }
    );
    assert_eq!(summary.update_total(), 3);
    assert_eq!(
        summary.lines(),
        vec![
            "summary\tcreate=2",
            "summary\tupdate-data=2",
            "summary\tupdate-metadata=1",
            "summary\tdelete=1",
            "summary\tskip=1",
        ]
    );
    assert_eq!(
        ChangeKind::from(&Operation::Delete {
            destination_index: 0
        }),
        ChangeKind::Delete
    );
    assert_eq!(ChangeKind::UpdateMetadata.to_string(), "update-metadata");
}

#[test]
fn destinations_stay_under_their_root() {
    assert_eq!(
        validate_destination(&path("/root"), &path("a/b")).unwrap(),
        path("/root/a/b")
    );
    for escape in ["/a", "../a", "a/../../b"] {
        assert_eq!(
            validate_destination(&path("/root"), &path(escape)),
            Err(ApplyError::PathEscape { path: path(escape) })
        );
        assert!(RelativePath::new(path(escape)).is_none());
    }
    assert_eq!(
        RelativePath::new(path("a/b")).unwrap().as_path(),
        &path("a/b")
    );
}

struct Wire;

impl Transport for Wire {
    fn name(&self) -> &'static str {
        "wire"
    }

    fn supports_remote(&self) -> bool {
        false
    }

    fn codec_name(&self) -> &'static str {
        "raw"
    }

    fn max_frame_size(&self) -> usize {
        64
    }
}

#[test]
fn sessions_go_through_their_states() {
    let config = SessionConfig {
        mode: SessionMode::Local,
        source: path("a"),
        destination: path("b"),
        budget: SessionBudget::for_parallelism(None),
    };
    assert_eq!(config.budget.chunk_workers, 1);
    assert_eq!(SessionBudget::for_parallelism(Some(8)).chunk_workers, 8);
    let (planner, applier, chunker) =
        (StubPlanner, StubApplier, FastCdcChunker::default());
    let mut session = Session::new(config, &Wire, &planner, &applier, &chunker);
    assert_eq!(session.state(), SessionState::Initialized);
    assert_eq!(session.destination_root(), &path("b"));

    let failure = TransportError::UnexpectedEof { operation: "greet" };
    assert!(matches!(
        session.run(Err(failure)),
        Err(SessionError::Transport(TransportError::UnexpectedEof { .. }))
    ));
    assert_eq!(session.state(), SessionState::Transferring);

    assert!(session.run(Ok(())).is_ok());
    assert_eq!(session.state(), SessionState::Completed);
}

#[test]
fn stubs_say_what_they_lack() {
    let empty = oni::engine::manifest::Manifest::default();
    assert_eq!(
        StubPlanner::default().build_plan(&empty, &empty),
        Err(PlanError::NotImplemented {
            feature: "sync planner"
        })
    );
    assert_eq!(
        StubApplier::default().apply(&path("/d"), &SyncPlan::default()),
        Err(ApplyError::NotImplemented {
            feature: "plan application"
        })
    );
    let chunker = FastCdcChunker::default();
    assert_eq!(chunker.algorithm(), "fastcdc");
    assert_eq!(chunker.config(), ChunkingConfig::fastcdc_defaults());
    assert_eq!(
        chunker.chunk_file(&path("x")),
        Err(PlanError::NotImplemented {
            feature: "FastCDC chunking"
        })
    );
}

#[test]
fn chunks_cover_a_byte_range() {
    let chunk = Chunk {
        offset: 10,
        length: 5,
        fingerprint: 0,
    };
    assert_eq!(chunk.byte_range(), 10..15);
}
