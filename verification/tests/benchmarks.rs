use oni::bench::command::{
    build_command, path_with_trailing_separator, profiled_text, Argument, Program,
};
use oni::bench::dataset::{
    case_name, dataset_files, insert_bytes, materialize_case, mutate, overwrite_bytes,
    patterned_bytes, prepend_bytes, text_bytes, zero_run_bytes, CasePlan, Content, Mutation,
    LARGE_FILE_SIZE,
};
use oni::bench::report::{
    capture_environment, captured_text, cpu_model, first_line, mem_total_kib, result_row,
    strip_suffixes, write_environment, EnvironmentProbe, Measurement, RESULTS_HEADER,
};
use oni::bench::trees::{scan_tree, verify_trees_match, TreeFile, TreeMismatch, TreeStats};
use oni::bench::{selected_scenarios, selected_tools, Scenario, Tool};
use oni::path::{PathComponent, SyncPath};
use oni::text::{decimal, padded, text_from_bytes, trim};

#[test]
fn command_builder_uses_the_expected_flags() {
    let (oni, source, destination) = ("/tmp/oni", "/tmp/source", "/tmp/destination");

    let oni_cdc = build_command(Tool::OniCdc, oni, source, destination).text;
    let rsync = build_command(Tool::Rsync, oni, source, destination).text;
    let rsync_delta = build_command(Tool::RsyncDelta, oni, source, destination).text;

    assert!(oni_cdc.contains("--strategy cdc"));
    assert!(oni_cdc.contains("--chunker fastcdc"));
    assert_eq!(rsync, "rsync -a --delete /tmp/source/ /tmp/destination/");
    assert_eq!(
        rsync_delta,
        "rsync -a --delete --no-whole-file /tmp/source/ /tmp/destination/"
    );
    assert_eq!(
        path_with_trailing_separator("/tmp/source"),
        "/tmp/source/"
    );
}

#[test]
fn commands_hold_the_arguments_that_they_show() {
    let text = |value: &str| Argument::Text(value.to_string());
    let whole = build_command(Tool::OniWhole, "oni", "a", "b");
    assert_eq!(whole.text, "oni --delete --strategy whole a b");
    assert_eq!(whole.program, Program::Oni);
    assert_eq!(
        whole.args,
        vec![
            text("--delete"),
            text("--strategy"),
            text("whole"),
            Argument::SourcePath,
            Argument::DestinationPath,
        ]
    );
    let fixed = build_command(Tool::OniFixed, "oni", "a", "b");
    assert_eq!(fixed.text, "oni --delete --strategy fixed a b");
    let rsync = build_command(Tool::Rsync, "oni", "a/", "b");
    assert_eq!(rsync.program, Program::Rsync);
    assert_eq!(
        rsync.args,
        vec![text("-a"), text("--delete"), text("a/"), text("b/")]
    );
    assert_eq!(path_with_trailing_separator(""), "/");
    assert_eq!(
        profiled_text(Tool::OniCdc, "oni x".to_string(), true),
        ("ONI_PROFILE_LOCAL=1 oni x".to_string(), true)
    );
    assert_eq!(
        profiled_text(Tool::Rsync, "rsync x".to_string(), true),
        ("rsync x".to_string(), false)
    );
}

#[test]
fn mutations_change_sizes_as_expected() {
    let blob = patterned_bytes(LARGE_FILE_SIZE);
    assert_eq!(blob.len(), LARGE_FILE_SIZE);
    assert_eq!(prepend_bytes(&blob, 128).len(), LARGE_FILE_SIZE + 128);
    assert_eq!(
        insert_bytes(&blob, LARGE_FILE_SIZE / 2, 4096).len(),
        LARGE_FILE_SIZE + 4096
    );
    let overwritten = overwrite_bytes(&blob, LARGE_FILE_SIZE / 2, 1024 * 1024);
    assert_eq!(overwritten.len(), LARGE_FILE_SIZE);
    assert_ne!(overwritten, blob);
}

#[test]
fn mutations_write_the_expected_bytes() {
    assert_eq!(prepend_bytes(b"..", 28), b"ABCDEFGHIJKLMNOPQRSTUVWXYZAB..");
    assert_eq!(insert_bytes(b"<>", 1, 14), b"<klmnopqrstuvwk>");
    assert_eq!(insert_bytes(b"<>", 9, 2), b"<>kl");
    assert_eq!(overwrite_bytes(b"......", 2, 3), b"..ZYX.");
    assert_eq!(overwrite_bytes(b"...", 2, 30), b"..Z");
    assert_eq!(overwrite_bytes(b"...", 7, 3), b"...");
    assert_eq!(
        mutate(b"...", Mutation::Overwrite { offset: 0, len: 1 }),
        b"Z.."
    );
}

#[test]
fn generated_contents_are_determined() {
    let patterned = patterned_bytes(300);
    assert_eq!(patterned[0], 0);
    assert_eq!(patterned[1], 31);
    assert_eq!(patterned[97], ((97 * 31 + 1) % 251) as u8);
    assert_eq!(text_bytes("ab\n", 3), b"ab\nab\nab\n");

    // Two whole runs are left at the start, then one, then a part of one.
    let zeros = zero_run_bytes(2 * 8192 + 100);
    assert!(zeros[..8192].iter().all(|byte| *byte == 0));
    assert_eq!(zeros[8192 + 47], 0);
    assert_eq!(zeros[8192 + 48], 0xFF);
    assert_eq!(zeros[8192 + 64], 0);
    assert!(zeros[16384..].iter().all(|byte| *byte == 0));
}

#[test]
fn the_dataset_is_laid_out_as_expected() {
    let files = dataset_files();
    assert_eq!(files.len(), 67);
    assert_eq!(files[0].path, "large/blob.bin");
    assert_eq!(files[1].path, "zeroes/vm-like.bin");
    assert_eq!(files[2].path, "docs/readme.txt");
    assert_eq!(files[3].path, "small/file-000.txt");
    assert_eq!(files[66].path, "small/file-063.txt");
    assert_eq!(
        files[66].content,
        Content::Text {
            line: "small benchmark file 63\n".to_string(),
            repeats: 64,
        }
    );
}

#[test]
fn cases_are_prepared_as_their_scenario_says() {
    assert_eq!(
        materialize_case(Scenario::ColdCopy),
        CasePlan {
            copy_tree: false,
            mutation: None
        }
    );
    assert_eq!(
        materialize_case(Scenario::EqualOverwrite1M).mutation,
        Some(Mutation::Overwrite {
            offset: 4 * 1024 * 1024,
            len: 1024 * 1024
        })
    );
    assert_eq!(
        case_name(3, Scenario::WarmNoop, Tool::RsyncDelta),
        "iter-03-warm-noop-rsync-delta"
    );
    assert_eq!(selected_tools(&vec![]).len(), 5);
    assert_eq!(selected_tools(&vec![Tool::Rsync]), vec![Tool::Rsync]);
    assert_eq!(selected_scenarios(&vec![])[0], Scenario::ColdCopy);
    assert_eq!(
        selected_scenarios(&vec![Scenario::Prepend128B])[0].slug(),
        "prepend-128b"
    );
}

fn file(name: &str, contents: &[u8]) -> TreeFile {
    TreeFile {
        path: SyncPath::new(vec![PathComponent::Normal(name.as_bytes().to_vec())]),
        contents: contents.to_vec(),
    }
}

#[test]
fn trees_are_compared_file_by_file() {
    let source = vec![file("a", b"1"), file("b", b"2")];
    assert!(verify_trees_match(&source, &vec![file("b", b"2"), file("a", b"1")]).is_ok());
    assert_eq!(
        verify_trees_match(&source, &vec![file("a", b"1")]),
        Err(TreeMismatch::FileCount {
            source: 2,
            destination: 1
        })
    );
    assert_eq!(
        verify_trees_match(&source, &vec![file("a", b"1"), file("c", b"2")]),
        Err(TreeMismatch::Missing {
            path: file("b", b"").path
        })
    );
    assert_eq!(
        verify_trees_match(&source, &vec![file("a", b"x"), file("c", b"2")]),
        Err(TreeMismatch::Contents {
            path: file("a", b"").path
        })
    );
    assert_eq!(
        scan_tree(&vec![3, 4, 5]),
        TreeStats {
            files: 3,
            bytes: 12
        }
    );
}

#[test]
fn lines_are_read_as_the_standard_library_reads_them() {
    for text in ["", "one", "one\ntwo", "one\r\ntwo", "one\r", "\n", "\r\nx", "a\rb\n"] {
        assert_eq!(first_line(text), text.lines().next().unwrap_or(text));
    }
    for (text, suffix) in [("4 kB", " kB"), ("4 kB kB", " kB"), ("4", " kB"), ("aaa", "a")] {
        assert_eq!(strip_suffixes(text, suffix), text.trim_end_matches(suffix));
    }
}

#[test]
fn machines_are_described() {
    let cpuinfo = "processor\t: 0\nmodel name\t: Fast One\nmodel name\t: Slow One\n";
    assert_eq!(cpu_model(cpuinfo).unwrap(), "Fast One");
    assert!(cpu_model("processor\t: 0").is_none());
    assert_eq!(
        mem_total_kib("MemFree: 1 kB\nMemTotal:       16384 kB\n").unwrap(),
        "16384"
    );
    assert_eq!(captured_text(b"  main \n"), "main");
    for text in ["", " ", "\t\u{3000}x\u{85}", "a b", "\n a \u{200b} ", "\u{a0}\r\n"] {
        assert_eq!(trim(text), text.trim());
    }

    let probe = EnvironmentProbe {
        date_unix_secs: 1234,
        git_branch: "main".to_string(),
        git_commit: "abc".to_string(),
        cpuinfo: None,
        core_count: Some(8),
        meminfo: Some("MemTotal: 5 kB".to_string()),
        kernel: None,
        os: "linux".to_string(),
        rsync_version: Some("rsync 3\nmore".to_string()),
        ssh_version: None,
    };
    assert_eq!(
        write_environment(&capture_environment(&probe)),
        "key\tvalue\ndate_unix_secs\t1234\ndataset\tmixed-tree-v1\noni_build_profile\tdebug\n\
         git_branch\tmain\ngit_commit\tabc\ncpu_model\tunknown\ncore_count\t8\nram_kib\t5\n\
         kernel\tlinux unknown\nrsync_version\trsync 3\nssh_version\tunknown\n"
    );
}

#[test]
fn white_space_is_the_unicode_property() {
    for c in '\0'..=char::MAX {
        let expected = matches!(
            c,
            '\u{9}'..='\u{d}'
                | ' '
                | '\u{85}'
                | '\u{a0}'
                | '\u{1680}'
                | '\u{2000}'..='\u{200a}'
                | '\u{2028}'
                | '\u{2029}'
                | '\u{202f}'
                | '\u{205f}'
                | '\u{3000}'
        );
        assert_eq!(c.is_whitespace(), expected);
        let mut buffer = [0_u8; 4];
        let text: &str = c.encode_utf8(&mut buffer);
        assert_eq!(trim(text).is_empty(), expected);
    }
}

#[test]
fn measurements_are_written_as_rows() {
    let row = result_row(&Measurement {
        scenario: Scenario::ColdCopy,
        tool: Tool::OniCdc,
        iteration: 2,
        wall_seconds: "0.500000".to_string(),
        source_files: 67,
        source_bytes: 100,
        stdout_path: "out".to_string(),
        stderr_path: "err".to_string(),
        command: "oni a b".to_string(),
    });
    assert_eq!(
        row,
        "mixed-tree-v1\tcold-copy\toni-cdc\t2\t0.500000\t0\t67\t100\tout\terr\toni a b"
    );
    assert_eq!(
        RESULTS_HEADER.split('\t').count(),
        row.split('\t').count()
    );
}

#[test]
fn numbers_are_written_in_decimal() {
    for number in [0, 9, 10, 99, 100, 12345, u64::MAX] {
        assert_eq!(decimal(number), number.to_string());
    }
    assert_eq!(padded(7, 3), "007");
    assert_eq!(padded(1234, 3), "1234");
    assert_eq!(text_from_bytes("gr\u{fc}n".as_bytes()).unwrap(), "gr\u{fc}n");
    assert!(text_from_bytes(&[0xFF]).is_none());
}
