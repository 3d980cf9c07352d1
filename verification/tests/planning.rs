use std::path::Component;

use oni::error::{ManifestError, PlanError};
use oni::manifest::{
    sort_entries, EntryKind, EntryMetadata, Manifest, ManifestEntry, ManifestRoot, RootProbe,
    WalkStep,
};
use oni::path::{relate_bytes, PathComponent, Relation, SyncPath};
use oni::plan::{for_each_operation, plan_operations, Operation, PlanOptions};

fn path(text: &str) -> SyncPath {
    SyncPath::new(
        std::path::Path::new(text)
            .components()
            .map(|component| match component {
                Component::RootDir => PathComponent::RootDir,
                Component::CurDir => PathComponent::CurDir,
                Component::ParentDir => PathComponent::ParentDir,
                Component::Normal(name) => {
                    PathComponent::Normal(name.to_str().unwrap().as_bytes().to_vec())
                }
                Component::Prefix(_) => unreachable!(),
            })
            .collect(),
    )
}

#[test]
fn plans_create_for_missing_destination() {
    let source = directory_manifest(&[("notes/today.txt", 12), ("photos/cover.jpg", 32)]);

    assert_eq!(
        collect_operations(&source, None, PlanOptions::default()).unwrap(),
        vec![
            Operation::Create { source_index: 0 },
            Operation::Create { source_index: 1 },
        ]
    );
}

#[test]
fn plans_skip_for_matching_file_roots() {
    let source = file_manifest("todo.txt", 3, 10);
    let destination = file_manifest("todo.txt", 3, 10);

    assert_eq!(
        collect_operations(&source, Some(&destination), PlanOptions::default()).unwrap(),
        vec![Operation::Skip {
            source_index: 0,
            destination_index: 0,
        }]
    );
}

#[test]
fn plans_create_for_missing_file_root_destination() {
    let source = file_manifest("todo.txt", 3, 10);

    assert_eq!(
        collect_operations(&source, None, PlanOptions::default()).unwrap(),
        vec![Operation::Create { source_index: 0 }]
    );
}

#[test]
fn plans_update_for_changed_file_roots() {
    let source = file_manifest("todo.txt", 4, 11);
    let destination = file_manifest("todo.txt", 3, 10);

    assert_eq!(
        collect_operations(&source, Some(&destination), PlanOptions::default()).unwrap(),
        vec![Operation::UpdateData {
            source_index: 0,
            destination_index: 0,
        }]
    );
}

#[test]
fn plans_file_roots_even_when_the_leaf_names_differ() {
    let source = file_manifest("source.txt", 4, 11);
    let destination = file_manifest("destination.txt", 3, 10);

    assert_eq!(
        collect_operations(&source, Some(&destination), PlanOptions::default()).unwrap(),
        vec![Operation::UpdateData {
            source_index: 0,
            destination_index: 0,
        }]
    );
}

#[test]
fn plans_metadata_updates_for_changed_file_roots() {
    let source = file_manifest("todo.txt", 3, 11);
    let destination = file_manifest("todo.txt", 3, 10);

    assert_eq!(
        collect_operations(&source, Some(&destination), PlanOptions::default()).unwrap(),
        vec![Operation::UpdateMetadata {
            source_index: 0,
            destination_index: 0,
        }]
    );
}

#[test]
fn plans_skip_for_matching_directories() {
    let source = directory_manifest(&[("a.txt", 1), ("b.txt", 2), ("c.txt", 3)]);
    let destination = directory_manifest(&[("a.txt", 1), ("b.txt", 2), ("c.txt", 3)]);

    assert_eq!(
        collect_operations(&source, Some(&destination), PlanOptions::default()).unwrap(),
        vec![
            Operation::Skip {
                source_index: 0,
                destination_index: 0,
            },
            Operation::Skip {
                source_index: 1,
                destination_index: 1,
            },
            Operation::Skip {
                source_index: 2,
                destination_index: 2,
            },
        ]
    );
}

#[test]
fn plans_update_when_only_metadata_changes() {
    let source = directory_manifest_with_mtime(&[("a.txt", 1, 11)]);
    let destination = directory_manifest_with_mtime(&[("a.txt", 1, 10)]);

    assert_eq!(
        collect_operations(&source, Some(&destination), PlanOptions::default()).unwrap(),
        vec![Operation::UpdateMetadata {
            source_index: 0,
            destination_index: 0,
        }]
    );
}

#[test]
fn plans_mixed_directory_changes() {
    let source = directory_manifest(&[("a.txt", 1), ("c.txt", 3), ("d.txt", 4)]);
    let destination = directory_manifest(&[("a.txt", 1), ("b.txt", 2), ("d.txt", 4)]);

    assert_eq!(
        collect_operations(
            &source,
            Some(&destination),
            PlanOptions {
                delete_extraneous: true,
            },
        )
        .unwrap(),
        vec![
            Operation::Skip {
                source_index: 0,
                destination_index: 0,
            },
            Operation::Delete {
                destination_index: 1,
            },
            Operation::Create { source_index: 1 },
            Operation::Skip {
                source_index: 2,
                destination_index: 2,
            },
        ]
    );
}

#[test]
fn plans_source_only_tail_entries() {
    let source = directory_manifest(&[("a.txt", 1), ("b.txt", 2), ("c.txt", 3)]);
    let destination = directory_manifest(&[("a.txt", 1)]);

    assert_eq!(
        collect_operations(&source, Some(&destination), PlanOptions::default()).unwrap(),
        vec![
            Operation::Skip {
                source_index: 0,
                destination_index: 0,
            },
            Operation::Create { source_index: 1 },
            Operation::Create { source_index: 2 },
        ]
    );
}

#[test]
fn ignores_destination_only_entries_when_delete_is_disabled() {
    let source = directory_manifest(&[("a.txt", 1)]);
    let destination = directory_manifest(&[("a.txt", 1), ("b.txt", 2)]);

    assert_eq!(
        collect_operations(&source, Some(&destination), PlanOptions::default()).unwrap(),
        vec![Operation::Skip {
            source_index: 0,
            destination_index: 0,
        }]
    );
}

#[test]
fn plans_destination_only_tail_entries_when_delete_is_enabled() {
    let source = directory_manifest(&[("a.txt", 1)]);
    let destination = directory_manifest(&[("a.txt", 1), ("b.txt", 2), ("c.txt", 3)]);

    assert_eq!(
        collect_operations(
            &source,
            Some(&destination),
            PlanOptions {
                delete_extraneous: true,
            },
        )
        .unwrap(),
        vec![
            Operation::Skip {
                source_index: 0,
                destination_index: 0,
            },
            Operation::Delete {
                destination_index: 1,
            },
            Operation::Delete {
                destination_index: 2,
            },
        ]
    );
}

#[test]
fn rejects_file_to_directory_plans() {
    let source = file_manifest("todo.txt", 3, 10);
    let destination = directory_manifest(&[("todo.txt", 3)]);

    let error =
        collect_operations(&source, Some(&destination), PlanOptions::default()).unwrap_err();

    assert!(matches!(
        error,
        PlanError::RootKindMismatch {
            source_root: ManifestRoot::File,
            destination_root: ManifestRoot::Directory,
        }
    ));
}

#[test]
fn rejects_directory_to_file_plans() {
    let source = directory_manifest(&[("todo.txt", 3)]);
    let destination = file_manifest("todo.txt", 3, 10);

    let error =
        collect_operations(&source, Some(&destination), PlanOptions::default()).unwrap_err();

    assert!(matches!(
        error,
        PlanError::RootKindMismatch {
            source_root: ManifestRoot::Directory,
            destination_root: ManifestRoot::File,
        }
    ));
}

#[test]
fn returns_no_operations_for_missing_empty_directory_destination() {
    let source = directory_manifest(&[]);

    assert!(collect_operations(&source, None, PlanOptions::default())
        .unwrap()
        .is_empty());
}

#[test]
fn the_list_and_the_callback_agree() {
    let source = directory_manifest(&[("a", 1), ("b", 2), ("d", 4), ("e", 5)]);
    let destination = directory_manifest(&[("b", 3), ("c", 1), ("d", 4)]);
    for delete_extraneous in [false, true] {
        let options = PlanOptions { delete_extraneous };
        assert_eq!(
            plan_operations(&source, Some(&destination), options).unwrap(),
            collect_operations(&source, Some(&destination), options).unwrap()
        );
    }
}

#[test]
fn the_first_refused_operation_stops_the_plan() {
    let source = directory_manifest(&[("a", 1), ("b", 2), ("c", 3)]);
    let mut seen = Vec::new();
    let outcome = for_each_operation(&source, None, PlanOptions::default(), |operation| {
        seen.push(operation);
        if seen.len() == 2 {
            Err(PlanError::NotImplemented { feature: "stop" })
        } else {
            Ok(())
        }
    });
    assert_eq!(outcome, Err(PlanError::NotImplemented { feature: "stop" }));
    assert_eq!(seen.len(), 2);
}

#[test]
fn deletes_lead_to_exactly_the_paths_of_the_source() {
    let source = directory_manifest(&[("a", 1), ("b/c", 2), ("z", 3)]);
    let destination = directory_manifest(&[("a", 9), ("b/b", 2), ("y", 3)]);
    let options = PlanOptions {
        delete_extraneous: true,
    };
    let mut present: Vec<&SyncPath> =
        destination.entries.iter().map(|entry| &entry.path).collect();
    for operation in plan_operations(&source, Some(&destination), options).unwrap() {
        match operation {
            Operation::Create { source_index } => present.push(&source.entries[source_index].path),
            Operation::Delete { destination_index } => {
                present.retain(|known| **known != destination.entries[destination_index].path)
            }
            _ => {}
        }
    }
    assert_eq!(present.len(), 3);
    for entry in &source.entries {
        assert!(present.contains(&&entry.path));
    }
}

#[test]
fn asking_for_deletes_only_adds_deletes() {
    let source = directory_manifest(&[("a", 1), ("b", 2), ("d", 4), ("e", 5)]);
    let destination = directory_manifest(&[("0", 1), ("b", 3), ("c", 1), ("d", 4), ("z", 9)]);
    let plan = |delete_extraneous| {
        let options = PlanOptions { delete_extraneous };
        collect_operations(&source, Some(&destination), options).unwrap()
    };
    let with: Vec<Operation> = plan(true);
    let deleted: Vec<usize> = with
        .iter()
        .filter_map(|operation| match operation {
            Operation::Delete { destination_index } => Some(*destination_index),
            _ => None,
        })
        .collect();
    let kept: Vec<Operation> = with
        .into_iter()
        .filter(|operation| !matches!(operation, Operation::Delete { .. }))
        .collect();
    assert_eq!(deleted, vec![0, 2, 4]);
    assert_eq!(plan(false), kept);
}

#[test]
fn operations_are_labelled() {
    assert_eq!(Operation::Create { source_index: 0 }.label(), "create");
    assert_eq!(
        Operation::UpdateData {
            source_index: 0,
            destination_index: 0
        }
        .to_string(),
        "update-data"
    );
    assert_eq!(
        Operation::UpdateMetadata {
            source_index: 0,
            destination_index: 0
        }
        .label(),
        "update-metadata"
    );
    assert_eq!(Operation::Delete { destination_index: 0 }.label(), "delete");
    assert_eq!(
        Operation::Skip {
            source_index: 0,
            destination_index: 0
        }
        .label(),
        "skip"
    );
}

#[test]
fn returns_an_error_for_missing_paths() {
    let missing = path("/tmp/oni-missing");

    assert!(matches!(
        Manifest::scan(&missing, RootProbe::Missing),
        Err(ManifestError::MissingPath { path }) if path == missing
    ));
}

#[test]
fn a_scanned_file_is_listed_under_its_name() {
    let metadata = EntryMetadata {
        len: 3,
        modified_unix_secs: Some(7),
    };
    let manifest = Manifest::scan(
        &path("/archive/a.txt"),
        RootProbe::File {
            metadata: Some(metadata),
        },
    )
    .unwrap();
    assert_eq!(manifest.root, ManifestRoot::File);
    assert_eq!(manifest.entries.len(), 1);
    assert_eq!(manifest.entries[0].path, path("a.txt"));
    assert_eq!(manifest.entries[0].kind, EntryKind::File);
    assert_eq!(manifest.entries[0].metadata, metadata);
}

#[test]
fn a_scanned_directory_is_sorted_and_holds_files_alone() {
    let metadata = EntryMetadata {
        len: 1,
        modified_unix_secs: None,
    };
    let file = |text: &str| WalkStep::File {
        path: path(text),
        metadata,
    };
    let walk = vec![
        WalkStep::Other {
            path: path("/root"),
        },
        file("/root/z.txt"),
        file("/root/nested/b.txt"),
        WalkStep::Other {
            path: path("/root/nested"),
        },
        file("/root/daily notes/today plan.txt"),
        file("/root/nested/a.txt"),
    ];
    let manifest = Manifest::scan(&path("/root"), RootProbe::Directory { walk }).unwrap();
    let listed: Vec<&SyncPath> = manifest.entries.iter().map(|entry| &entry.path).collect();
    assert_eq!(manifest.root, ManifestRoot::Directory);
    assert_eq!(
        listed,
        vec![
            &path("daily notes/today plan.txt"),
            &path("nested/a.txt"),
            &path("nested/b.txt"),
            &path("z.txt"),
        ]
    );
}

#[test]
fn manifests_do_not_depend_on_the_walk() {
    let metadata = EntryMetadata {
        len: 1,
        modified_unix_secs: None,
    };
    let names = ["q", "b/x", "b", "a/y", "a", "b/w", "m"];
    let scan = |order: Vec<&str>| {
        let walk = order
            .into_iter()
            .map(|name| WalkStep::File {
                path: path(&format!("/root/{name}")),
                metadata,
            })
            .collect();
        Manifest::scan(&path("/root"), RootProbe::Directory { walk }).unwrap()
    };
    let forwards = scan(names.to_vec());
    let backwards = scan(names.iter().rev().copied().collect());
    assert_eq!(forwards, backwards);
}

#[test]
fn entries_of_one_path_keep_their_order() {
    let entry = |name: &str, len| ManifestEntry {
        path: path(name),
        kind: EntryKind::File,
        metadata: EntryMetadata {
            len,
            modified_unix_secs: None,
        },
    };
    let sorted = sort_entries(vec![entry("b", 1), entry("a", 2), entry("b", 3), entry("a", 4)]);
    let lens: Vec<u64> = sorted.iter().map(|entry| entry.metadata.len).collect();
    assert_eq!(lens, vec![2, 4, 1, 3]);
}

#[test]
fn failures_of_a_scan_are_told_apart() {
    let root = path("/root");
    assert!(matches!(
        Manifest::scan(&root, RootProbe::File { metadata: None }),
        Err(ManifestError::Metadata { path }) if path == root
    ));
    let scan = |step| {
        Manifest::scan(&root, RootProbe::Directory { walk: vec![step] }).unwrap_err()
    };
    assert!(matches!(scan(WalkStep::Unreadable), ManifestError::Walk { .. }));
    assert!(matches!(
        scan(WalkStep::NoMetadata {
            path: path("/root/x")
        }),
        ManifestError::Metadata { .. }
    ));
    let metadata = EntryMetadata {
        len: 0,
        modified_unix_secs: None,
    };
    assert!(matches!(
        scan(WalkStep::File {
            path: path("/elsewhere/x"),
            metadata
        }),
        ManifestError::RelativePath { .. }
    ));
    assert!(matches!(
        Manifest::scan(
            &path("/"),
            RootProbe::File {
                metadata: Some(metadata)
            }
        ),
        Err(ManifestError::MissingFileName { .. })
    ));
}

#[test]
fn kinds_are_named() {
    assert_eq!(EntryKind::File.to_string(), "file");
    assert_eq!(ManifestRoot::File.to_string(), "file");
    assert_eq!(ManifestRoot::Directory.to_string(), "directory");
}

#[test]
fn paths_are_ordered_as_the_platform_orders_them() {
    let samples = [
        "", "/", ".", "..", "a", "a/b", "a.b", "a b", "/a", "/a/b", "b", "../a", "ab", "a/c",
    ];
    for left in samples {
        for right in samples {
            let expected = std::path::Path::new(left).cmp(std::path::Path::new(right));
            let relation = path(left).relate(&path(right));
            let found = match relation {
                Relation::Before => std::cmp::Ordering::Less,
                Relation::Same => std::cmp::Ordering::Equal,
                Relation::After => std::cmp::Ordering::Greater,
            };
            assert_eq!(found, expected);
            assert_eq!(
                path(left).same_as(&path(right)),
                std::path::Path::new(left) == std::path::Path::new(right)
            );
        }
    }
    assert_eq!(relate_bytes(b"ab", b"b"), Relation::Before);
    assert_eq!(relate_bytes(b"ab", b"a"), Relation::After);
}

#[test]
fn paths_are_joined_as_the_platform_joins_them() {
    let samples = ["", "/", ".", "..", "a", "a/b", "/a", "./a", "../a", "x/./y"];
    for base in samples {
        for relative in samples {
            let expected = std::path::Path::new(base).join(relative);
            assert_eq!(
                path(base).join(&path(relative)),
                path(expected.to_str().unwrap())
            );
        }
    }
}

#[test]
fn path_parts_are_found_as_the_platform_finds_them() {
    for text in ["", "/", "a", "a/b.txt", "/a/..", ".", "/x/y"] {
        let standard = std::path::Path::new(text);
        assert_eq!(
            path(text).file_name(),
            standard
                .file_name()
                .map(|name| name.to_str().unwrap().as_bytes().to_vec())
        );
        assert_eq!(path(text).is_absolute(), standard.is_absolute());
        assert_eq!(
            path(text).has_parent_component(),
            standard
                .components()
                .any(|component| component == Component::ParentDir)
        );
    }
    assert_eq!(
        path("/a/b/c").strip_prefix(&path("/a")),
        Some(path("b/c"))
    );
    assert_eq!(path("/a/b").strip_prefix(&path("/b")), None);
    assert_eq!(path("/a").strip_prefix(&path("/a/b")), None);
}

fn collect_operations(
    source: &Manifest,
    destination: Option<&Manifest>,
    options: PlanOptions,
) -> Result<Vec<Operation>, PlanError> {
    let mut operations = Vec::new();
    for_each_operation(source, destination, options, |operation| {
        operations.push(operation);
        Ok(())
    })?;
    Ok(operations)
}

fn file_manifest(name: &str, len: u64, modified_unix_secs: u64) -> Manifest {
    Manifest {
        root: ManifestRoot::File,
        entries: vec![ManifestEntry {
            path: path(name),
            kind: EntryKind::File,
            metadata: EntryMetadata {
                len,
                modified_unix_secs: Some(modified_unix_secs),
            },
        }],
    }
}

fn directory_manifest(entries: &[(&str, u64)]) -> Manifest {
    directory_manifest_with_mtime(
        &entries
            .iter()
            .copied()
            .map(|(path, len)| (path, len, 10))
            .collect::<Vec<_>>(),
    )
}

fn directory_manifest_with_mtime(entries: &[(&str, u64, u64)]) -> Manifest {
    Manifest {
        root: ManifestRoot::Directory,
        entries: entries
            .iter()
            .copied()
            .map(|(name, len, modified_unix_secs)| ManifestEntry {
                path: path(name),
                kind: EntryKind::File,
                metadata: EntryMetadata {
                    len,
                    modified_unix_secs: Some(modified_unix_secs),
                },
            })
            .collect(),
    }
}
