//! What is written down about a benchmark: the machine, and the measurements.

use crate::bench::{Scenario, Tool};
use crate::text::{chars_of, decimal, find_char, lossy, trim};
use vstd::prelude::*;

verus! {

/// Something that is known of the machine.
#[derive(Debug, PartialEq, Eq)]
pub struct EnvironmentRecord {
    pub key: &'static str,
    pub value: String,
}

/// What a record says.
pub open spec fn entry_of(record: EnvironmentRecord) -> (Seq<char>, Seq<char>) {
    (record.key@, record.value@)
}

/// What the records say, in their order.
pub open spec fn entries_of(records: Seq<EnvironmentRecord>) -> Seq<(Seq<char>, Seq<char>)> {
    records.map_values(|record: EnvironmentRecord| entry_of(record))
}

/// What could be found out about the machine.
#[derive(Debug)]
pub struct EnvironmentProbe {
    pub date_unix_secs: u64,
    pub git_branch: String,
    pub git_commit: String,
    /// The text of `/proc/cpuinfo`.
    pub cpuinfo: Option<String>,
    pub core_count: Option<u64>,
    /// The text of `/proc/meminfo`.
    pub meminfo: Option<String>,
    /// The answer of `uname`.
    pub kernel: Option<String>,
    /// The name of the operating system.
    pub os: String,
    /// The answer of `rsync` to the question for its version.
    pub rsync_version: Option<String>,
    /// The answer of `ssh` to the question for its version.
    pub ssh_version: Option<String>,
}

/// Where the first line of a text ends.
pub open spec fn line_end(text: Seq<char>) -> int {
    match crate::text::first_at(text, '\n', 0) {
        Some(newline) => newline,
        None => text.len() as int,
    }
}

/// The first line of a text. A carriage return belongs to the end of the line, but
/// only in front of a line feed.
pub open spec fn first_line_of(text: Seq<char>) -> Seq<char> {
    let end = line_end(text);
    if 0 < end < text.len() && text[end - 1] == '\r' {
        text.take(end - 1)
    } else {
        text.take(end)
    }
}

/// What follows the first line of a text.
pub open spec fn after_first_line(text: Seq<char>) -> Seq<char> {
    let end = line_end(text);
    if end < text.len() {
        text.skip(end + 1)
    } else {
        Seq::empty()
    }
}

/// Whether a text starts with another.
pub open spec fn starts_with(text: Seq<char>, prefix: Seq<char>) -> bool {
    prefix.len() <= text.len() && text.take(prefix.len() as int) == prefix
}

/// What follows `prefix` in the first line that starts with it.
pub open spec fn line_value(text: Seq<char>, prefix: Seq<char>) -> Option<Seq<char>>
    decreases text.len(),
    via line_value_shrinks
{
    if text.len() == 0 {
        None
    } else if starts_with(first_line_of(text), prefix) {
        Some(first_line_of(text).skip(prefix.len() as int))
    } else {
        line_value(after_first_line(text), prefix)
    }
}

#[via_fn]
proof fn line_value_shrinks(text: Seq<char>, prefix: Seq<char>) {
    crate::text::lemma_first_at(text, '\n', 0);
}

/// A text without `suffix` at its end, however often it stands there.
pub open spec fn without_suffix(text: Seq<char>, suffix: Seq<char>) -> Seq<char>
    decreases text.len(),
{
    if suffix.len() > 0 && suffix.len() <= text.len() && text.skip(text.len() - suffix.len())
        == suffix {
        without_suffix(text.take(text.len() - suffix.len()), suffix)
    } else {
        text
    }
}

/// Whether the characters from `at` on are those of `wanted`.
fn stands_at(text: &Vec<char>, at: usize, wanted: &Vec<char>) -> (found: bool)
    requires
        at <= text@.len(),
    ensures
        found == (at + wanted@.len() <= text@.len() && text@.subrange(
            at as int,
            at + wanted@.len(),
        ) == wanted@),
{
    if wanted.len() > text.len() - at {
        return false;
    }
    let mut index: usize = 0;
    while index < wanted.len()
        invariant
            index <= wanted@.len(),
            at + wanted@.len() <= text@.len(),
            forall|i: int| 0 <= i < index ==> text@[at + i] == #[trigger] wanted@[i],
        decreases wanted.len() - index,
    {
        assert(text@.len() == text.len());
        if text[at + index] != wanted[index] {
            assert(text@.subrange(at as int, at + wanted@.len())[index as int]
                != wanted@[index as int]);
            return false;
        }
        index = index + 1;
    }
    assert(text@.subrange(at as int, at + wanted@.len()) =~= wanted@);
    true
}

/// A text without `suffix` at its end, however often it stands there.
pub fn strip_suffixes(text: &str, suffix: &str) -> (rest: String)
    ensures
        rest@ == without_suffix(text@, suffix@),
{
    let chars = chars_of(text);
    let wanted = chars_of(suffix);
    let mut end: usize = chars.len();
    assert(text@.take(end as int) =~= text@);
    while wanted.len() > 0 && wanted.len() <= end && stands_at(&chars, end - wanted.len(), &wanted)
        invariant
            end <= chars@.len(),
            chars@ == text@,
            wanted@ == suffix@,
            without_suffix(text@, suffix@) == without_suffix(text@.take(end as int), suffix@),
        decreases end,
    {
        proof {
            let current = text@.take(end as int);
            assert(current.skip(end - wanted@.len()) =~= chars@.subrange(
                end - wanted@.len(),
                end as int,
            ));
            assert(current.take(end - wanted@.len()) =~= text@.take(end - wanted@.len()));
        }
        end = end - wanted.len();
    }
    proof {
        let current = text@.take(end as int);
        if wanted@.len() > 0 && wanted@.len() <= end {
            assert(current.skip(end - wanted@.len()) =~= chars@.subrange(
                end - wanted@.len(),
                end as int,
            ));
        }
    }
    let rest = text.substring_char(0, end);
    assert(rest@ =~= text@.take(end as int));
    rest.to_owned()
}

/// Where the first line ends, without the carriage return that belongs to its end.
fn first_line_len(chars: &Vec<char>) -> (len: usize)
    ensures
        len == first_line_of(chars@).len(),
        first_line_of(chars@) == chars@.take(len as int),
        len <= chars@.len(),
{
    proof {
        crate::text::lemma_first_at(chars@, '\n', 0);
    }
    match find_char(chars, '\n') {
        Some(newline) => {
            if newline > 0 && chars[newline - 1] == '\r' {
                newline - 1
            } else {
                newline
            }
        },
        None => chars.len(),
    }
}

/// The first line of a text.
pub fn first_line(text: &str) -> (line: &str)
    ensures
        line@ == first_line_of(text@),
{
    let chars = chars_of(text);
    let len: usize = first_line_len(&chars);
    let line = text.substring_char(0, len);
    assert(line@ =~= text@.take(len as int));
    line
}

/// What follows `prefix` in the first line that starts with it.
pub fn value_of_line(text: &str, prefix: &str) -> (value: Option<String>)
    ensures
        match line_value(text@, prefix@) {
            Some(expected) => value matches Some(found) && found@ == expected,
            None => value is None,
        },
    decreases text@.len(),
{
    let chars = chars_of(text);
    let wanted = chars_of(prefix);
    if chars.len() == 0 {
        return None;
    }
    let len: usize = first_line_len(&chars);
    let line = text.substring_char(0, len);
    assert(line@ =~= first_line_of(text@));
    let line_chars = chars_of(line);
    let found = stands_at(&line_chars, 0, &wanted);
    proof {
        if wanted@.len() <= line@.len() {
            assert(line@.subrange(0, wanted@.len() as int) =~= line@.take(wanted@.len() as int));
        }
        crate::text::lemma_first_at(text@, '\n', 0);
    }
    if found {
        let value = line.substring_char(wanted.len(), len);
        assert(value@ =~= first_line_of(text@).skip(wanted@.len() as int));
        return Some(value.to_owned());
    }
    match find_char(&chars, '\n') {
        Some(newline) => {
            let rest = text.substring_char(newline + 1, chars.len());
            assert(rest@ =~= after_first_line(text@));
            value_of_line(rest, prefix)
        },
        None => {
            assert(line_value(after_first_line(text@), prefix@) is None);
            None
        },
    }
}

/// The model of the processor, as `/proc/cpuinfo` names it.
pub fn cpu_model(cpuinfo: &str) -> (model: Option<String>)
    ensures
        match line_value(cpuinfo@, "model name\t: "@) {
            Some(expected) => model matches Some(found) && found@ == expected,
            None => model is None,
        },
{
    value_of_line(cpuinfo, "model name\t: ")
}

/// The size of the memory in kibibytes, as `/proc/meminfo` has it.
pub open spec fn memory_of(meminfo: Seq<char>) -> Option<Seq<char>> {
    match line_value(meminfo, "MemTotal:"@) {
        Some(value) => Some(without_suffix(crate::text::trimmed(value), " kB"@)),
        None => None,
    }
}

/// The size of the memory in kibibytes, as `/proc/meminfo` has it.
pub fn mem_total_kib(meminfo: &str) -> (size: Option<String>)
    ensures
        match memory_of(meminfo@) {
            Some(expected) => size matches Some(found) && found@ == expected,
            None => size is None,
        },
{
    match value_of_line(meminfo, "MemTotal:") {
        Some(value) => Some(strip_suffixes(trim(value.as_str()), " kB")),
        None => None,
    }
}

/// What a program printed, as text without white space at its ends.
pub fn captured_text(output: &[u8]) -> (text: String)
    ensures
        text@ == crate::text::trimmed(crate::text::lossy_text(output@)),
{
    let text = lossy(output);
    trim(text.as_str()).to_owned()
}

/// What is written down where nothing could be found out.
pub open spec fn or_unknown(value: Option<Seq<char>>) -> Seq<char> {
    match value {
        Some(value) => value,
        None => "unknown"@,
    }
}

fn unless_unknown(value: Option<String>) -> (text: String)
    ensures
        text@ == or_unknown(crate::endpoint::text_in(value)),
{
    match value {
        Some(value) => value,
        None => "unknown".to_string(),
    }
}

/// What is known of the machine.
pub open spec fn environment(probe: EnvironmentProbe) -> Seq<(Seq<char>, Seq<char>)> {
    seq![
        ("date_unix_secs"@, crate::text::decimal_text(probe.date_unix_secs as nat)),
        ("dataset"@, crate::bench::dataset::DATASET_NAME@),
        ("oni_build_profile"@, "debug"@),
        ("git_branch"@, probe.git_branch@),
        ("git_commit"@, probe.git_commit@),
        (
            "cpu_model"@,
            or_unknown(
                match probe.cpuinfo {
                    Some(text) => line_value(text@, "model name\t: "@),
                    None => None,
                },
            ),
        ),
        (
            "core_count"@,
            match probe.core_count {
                Some(count) => crate::text::decimal_text(count as nat),
                None => "unknown"@,
            },
        ),
        (
            "ram_kib"@,
            or_unknown(
                match probe.meminfo {
                    Some(text) => memory_of(text@),
                    None => None,
                },
            ),
        ),
        (
            "kernel"@,
            match probe.kernel {
                Some(text) => text@,
                None => probe.os@ + " unknown"@,
            },
        ),
        (
            "rsync_version"@,
            match probe.rsync_version {
                Some(text) => first_line_of(text@),
                None => first_line_of("unknown"@),
            },
        ),
        (
            "ssh_version"@,
            match probe.ssh_version {
                Some(text) => first_line_of(text@),
                None => "unknown"@,
            },
        ),
    ]
}

fn record(key: &'static str, value: String) -> (record: EnvironmentRecord)
    ensures
        entry_of(record) == (key@, value@),
{
    EnvironmentRecord { key, value }
}

/// What is known of the machine.
pub fn capture_environment(probe: &EnvironmentProbe) -> (records: Vec<EnvironmentRecord>)
    ensures
        entries_of(records@) == environment(*probe),
{
    let cpu = match &probe.cpuinfo {
        Some(text) => cpu_model(text.as_str()),
        None => None,
    };
    let cores = match probe.core_count {
        Some(count) => decimal(count),
        None => "unknown".to_string(),
    };
    let memory = match &probe.meminfo {
        Some(text) => mem_total_kib(text.as_str()),
        None => None,
    };
    let kernel = match &probe.kernel {
        Some(text) => text.clone(),
        None => {
            let mut text = probe.os.clone();
            text.append(" unknown");
            text
        },
    };
    let rsync = match &probe.rsync_version {
        Some(text) => first_line(text.as_str()).to_owned(),
        None => first_line("unknown").to_owned(),
    };
    let ssh = match &probe.ssh_version {
        Some(text) => first_line(text.as_str()).to_owned(),
        None => "unknown".to_string(),
    };
    let records = vec![
        record("date_unix_secs", decimal(probe.date_unix_secs)),
        record("dataset", crate::bench::dataset::DATASET_NAME.to_string()),
        record("oni_build_profile", "debug".to_string()),
        record("git_branch", probe.git_branch.clone()),
        record("git_commit", probe.git_commit.clone()),
        record("cpu_model", unless_unknown(cpu)),
        record("core_count", cores),
        record("ram_kib", unless_unknown(memory)),
        record("kernel", kernel),
        record("rsync_version", rsync),
        record("ssh_version", ssh),
    ];
    assert(entries_of(records@) =~= environment(*probe));
    records
}

/// The records in writing, one to a line, behind a line of headings.
pub open spec fn environment_text(entries: Seq<(Seq<char>, Seq<char>)>) -> Seq<char>
    decreases entries.len(),
{
    if entries.len() == 0 {
        "key\tvalue\n"@
    } else {
        environment_text(entries.drop_last()) + entries.last().0 + "\t"@ + entries.last().1 + "\n"@
    }
}

/// The records in writing.
pub fn write_environment(records: &Vec<EnvironmentRecord>) -> (text: String)
    ensures
        text@ == environment_text(entries_of(records@)),
{
    let ghost entries = entries_of(records@);
    let mut text = "key\tvalue\n".to_string();
    let mut index: usize = 0;
    assert(entries.take(0) =~= Seq::<(Seq<char>, Seq<char>)>::empty());
    while index < records.len()
        invariant
            index <= records@.len(),
            entries == entries_of(records@),
            text@ == environment_text(entries.take(index as int)),
        decreases records.len() - index,
    {
        let ghost next = entries.take(index + 1);
        text.append(records[index].key);
        text.append("\t");
        text.append(records[index].value.as_str());
        text.append("\n");
        assert(next.drop_last() =~= entries.take(index as int));
        assert(next.last() == entry_of(records@[index as int]));
        index = index + 1;
    }
    assert(entries.take(index as int) =~= entries);
    text
}

/// One measurement.
#[derive(Debug)]
pub struct Measurement {
    pub scenario: Scenario,
    pub tool: Tool,
    pub iteration: u64,
    /// The time that was taken, in writing.
    pub wall_seconds: String,
    pub source_files: u64,
    pub source_bytes: u64,
    pub stdout_path: String,
    pub stderr_path: String,
    pub command: String,
}

/// The headings of the measurements.
pub const RESULTS_HEADER: &'static str = "dataset\tscenario\ttool\titeration\twall_seconds\texit_code\tsource_files\tsource_bytes\tstdout\tstderr\tcommand";

/// A measurement in writing. Only runs that succeeded are written down.
pub open spec fn result_text(measurement: Measurement) -> Seq<char> {
    crate::bench::dataset::DATASET_NAME@ + "\t"@ + crate::bench::scenario_slug(
        measurement.scenario,
    ) + "\t"@ + crate::bench::tool_slug(measurement.tool) + "\t"@ + crate::text::decimal_text(
        measurement.iteration as nat,
    ) + "\t"@ + measurement.wall_seconds@ + "\t0\t"@ + crate::text::decimal_text(
        measurement.source_files as nat,
    ) + "\t"@ + crate::text::decimal_text(measurement.source_bytes as nat) + "\t"@
        + measurement.stdout_path@ + "\t"@ + measurement.stderr_path@ + "\t"@ + measurement.command@
}

/// A measurement in writing.
pub fn result_row(measurement: &Measurement) -> (row: String)
    ensures
        row@ == result_text(*measurement),
{
    let mut row = crate::bench::dataset::DATASET_NAME.to_string();
    row.append("\t");
    row.append(measurement.scenario.slug());
    row.append("\t");
    row.append(measurement.tool.slug());
    row.append("\t");
    row.append(decimal(measurement.iteration).as_str());
    row.append("\t");
    row.append(measurement.wall_seconds.as_str());
    row.append("\t0\t");
    row.append(decimal(measurement.source_files).as_str());
    row.append("\t");
    row.append(decimal(measurement.source_bytes).as_str());
    row.append("\t");
    row.append(measurement.stdout_path.as_str());
    row.append("\t");
    row.append(measurement.stderr_path.as_str());
    row.append("\t");
    row.append(measurement.command.as_str());
    row
}

/// The first line of a text ends at its first line feed, and without the carriage return in
/// front of that if there is one. A text without a line feed is one line. What follows is
/// read as a text of its own.
pub proof fn lemma_lines_end_at_line_feeds(line: Seq<char>, rest: Seq<char>)
    requires
        forall|i: int| 0 <= i < line.len() ==> #[trigger] line[i] != '\n',
    ensures
        first_line_of(line) == line,
        first_line_of(line + seq!['\n'] + rest) == if line.len() > 0 && line.last() == '\r' {
            line.drop_last()
        } else {
            line
        },
        after_first_line(line + seq!['\n'] + rest) == rest,
{
    let text = line + seq!['\n'] + rest;
    crate::text::lemma_first_at(line, '\n', 0);
    crate::text::lemma_first_at(text, '\n', 0);
    assert(first_line_of(line) =~= line);
    assert(text[line.len() as int] == '\n');
    let end = line_end(text);
    if end < line.len() {
        assert(text[end] == line[end]);
    }
    assert(end == line.len());
    if line.len() > 0 {
        assert(text[end - 1] == line.last());
        assert(text.take(end - 1) =~= line.drop_last());
    }
    assert(text.take(end) =~= line);
    assert(text.skip(end + 1) =~= rest);
}

/// The value of a line is what follows the prefix in the first line that starts with it. The
/// lines are looked at in turn.
pub proof fn lemma_values_come_from_the_first_such_line(
    line: Seq<char>,
    rest: Seq<char>,
    prefix: Seq<char>,
)
    requires
        forall|i: int| 0 <= i < line.len() ==> #[trigger] line[i] != '\n',
        !(line.len() > 0 && line.last() == '\r'),
    ensures
        line_value(Seq::empty(), prefix) is None,
        line_value(line + seq!['\n'] + rest, prefix) == if prefix.len() <= line.len()
            && line.take(prefix.len() as int) == prefix {
            Some(line.skip(prefix.len() as int))
        } else {
            line_value(rest, prefix)
        },
        line_value(line + seq!['\r', '\n'] + rest, prefix) == if prefix.len() <= line.len()
            && line.take(prefix.len() as int) == prefix {
            Some(line.skip(prefix.len() as int))
        } else {
            line_value(rest, prefix)
        },
        line.len() > 0 ==> line_value(line, prefix) == if prefix.len() <= line.len() && line.take(
            prefix.len() as int,
        ) == prefix {
            Some(line.skip(prefix.len() as int))
        } else {
            None
        },
{
    lemma_lines_end_at_line_feeds(line, rest);
    let returned = line.push('\r');
    assert forall|i: int| 0 <= i < returned.len() implies #[trigger] returned[i] != '\n' by {
        if i < line.len() {
            assert(returned[i] == line[i]);
        }
    }
    lemma_lines_end_at_line_feeds(returned, rest);
    assert(returned.drop_last() =~= line);
    assert(line + seq!['\r', '\n'] + rest =~= returned + seq!['\n'] + rest);
    if line.len() > 0 {
        crate::text::lemma_first_at(line, '\n', 0);
        assert(after_first_line(line) =~= Seq::<char>::empty());
    }
}

/// A suffix is taken off as often as it stands at the end, and nothing else is.
pub proof fn lemma_suffixes_are_taken_off(text: Seq<char>, suffix: Seq<char>)
    requires
        suffix.len() > 0,
    ensures
        without_suffix(text + suffix, suffix) == without_suffix(text, suffix),
        !(suffix.len() <= text.len() && text.skip(text.len() - suffix.len()) == suffix)
            ==> without_suffix(text, suffix) == text,
{
    let whole = text + suffix;
    assert(whole.skip(whole.len() - suffix.len()) =~= suffix);
    assert(whole.take(whole.len() - suffix.len()) =~= text);
}

/// What is known of the machine is what was found out, each under its own key. What could
/// not be found out is unknown.
pub proof fn lemma_environment_is_what_was_found(probe: EnvironmentProbe)
    ensures
        ({
            let entries = environment(probe);
            &&& entries.len() == 11
            &&& entries[0] == ("date_unix_secs"@, crate::text::decimal_text(
                probe.date_unix_secs as nat,
            ))
            &&& entries[3] == ("git_branch"@, probe.git_branch@)
            &&& entries[4] == ("git_commit"@, probe.git_commit@)
            &&& entries[5].0 == "cpu_model"@
            &&& probe.cpuinfo is None ==> entries[5].1 == "unknown"@
            &&& probe.cpuinfo matches Some(text) ==> match line_value(text@, "model name\t: "@) {
                Some(model) => entries[5].1 == model,
                None => entries[5].1 == "unknown"@,
            }
            &&& entries[6].0 == "core_count"@
            &&& probe.core_count is None ==> entries[6].1 == "unknown"@
            &&& probe.core_count matches Some(count) ==> entries[6].1 == crate::text::decimal_text(
                count as nat,
            )
            &&& entries[7].0 == "ram_kib"@
            &&& probe.meminfo is None ==> entries[7].1 == "unknown"@
            &&& probe.meminfo matches Some(text) ==> match line_value(text@, "MemTotal:"@) {
                Some(value) => entries[7].1 == without_suffix(
                    crate::text::trimmed(value),
                    " kB"@,
                ),
                None => entries[7].1 == "unknown"@,
            }
            &&& entries[8].0 == "kernel"@
            &&& probe.kernel is None ==> entries[8].1 == probe.os@ + " unknown"@
            &&& probe.kernel matches Some(text) ==> entries[8].1 == text@
            &&& entries[9].0 == "rsync_version"@
            &&& probe.rsync_version is None ==> entries[9].1 == "unknown"@
            &&& probe.rsync_version matches Some(text) ==> entries[9].1 == first_line_of(text@)
            &&& entries[10].0 == "ssh_version"@
            &&& probe.ssh_version is None ==> entries[10].1 == "unknown"@
            &&& probe.ssh_version matches Some(text) ==> entries[10].1 == first_line_of(text@)
        }),
{
    reveal_strlit("unknown");
    lemma_lines_end_at_line_feeds("unknown"@, Seq::empty());
}

/// The records are written line by line, a key and its value with a tab between them, behind
/// one line of headings.
pub proof fn lemma_records_are_written_in_turn(
    entries: Seq<(Seq<char>, Seq<char>)>,
    key: Seq<char>,
    value: Seq<char>,
)
    ensures
        environment_text(Seq::empty()) == "key\tvalue\n"@,
        environment_text(entries.push((key, value))) == environment_text(entries) + key + seq![
            '\t',
        ] + value + seq!['\n'],
{
    reveal_strlit("\t");
    reveal_strlit("\n");
    assert("\t"@ =~= seq!['\t']);
    assert("\n"@ =~= seq!['\n']);
    assert(entries.push((key, value)).drop_last() =~= entries);
}

/// Texts with a tab between each two.
pub open spec fn tabbed(columns: Seq<Seq<char>>) -> Seq<char>
    decreases columns.len(),
{
    if columns.len() == 0 {
        Seq::empty()
    } else if columns.len() == 1 {
        columns[0]
    } else {
        tabbed(columns.drop_last()) + seq!['\t'] + columns.last()
    }
}

proof fn lemma_tabbed_grows(columns: Seq<Seq<char>>, last: Seq<char>)
    requires
        columns.len() > 0,
    ensures
        tabbed(columns.push(last)) == tabbed(columns) + seq!['\t'] + last,
{
    assert(columns.push(last).drop_last() =~= columns);
}

/// A measurement is written as one column for each heading, with tabs between them. Its
/// exit code is zero.
pub proof fn lemma_rows_have_a_column_for_each_heading(measurement: Measurement)
    ensures
        result_text(measurement) == tabbed(
            seq![
                crate::bench::dataset::DATASET_NAME@,
                crate::bench::scenario_slug(measurement.scenario),
                crate::bench::tool_slug(measurement.tool),
                crate::text::decimal_text(measurement.iteration as nat),
                measurement.wall_seconds@,
                seq!['0'],
                crate::text::decimal_text(measurement.source_files as nat),
                crate::text::decimal_text(measurement.source_bytes as nat),
                measurement.stdout_path@,
                measurement.stderr_path@,
                measurement.command@,
            ],
        ),
{
    reveal_strlit("\t");
    reveal_strlit("\t0\t");
    assert("\t"@ =~= seq!['\t']);
    assert("\t0\t"@ =~= seq!['\t'] + seq!['0'] + seq!['\t']);
    let a = crate::bench::dataset::DATASET_NAME@;
    let b = crate::bench::scenario_slug(measurement.scenario);
    let c = crate::bench::tool_slug(measurement.tool);
    let d = crate::text::decimal_text(measurement.iteration as nat);
    let e = measurement.wall_seconds@;
    let f = seq!['0'];
    let g = crate::text::decimal_text(measurement.source_files as nat);
    let h = crate::text::decimal_text(measurement.source_bytes as nat);
    let i = measurement.stdout_path@;
    let j = measurement.stderr_path@;
    let k = measurement.command@;
    lemma_tabbed_grows(seq![a], b);
    assert(seq![a].push(b) =~= seq![a, b]);
    lemma_tabbed_grows(seq![a, b], c);
    assert(seq![a, b].push(c) =~= seq![a, b, c]);
    lemma_tabbed_grows(seq![a, b, c], d);
    assert(seq![a, b, c].push(d) =~= seq![a, b, c, d]);
    lemma_tabbed_grows(seq![a, b, c, d], e);
    assert(seq![a, b, c, d].push(e) =~= seq![a, b, c, d, e]);
    lemma_tabbed_grows(seq![a, b, c, d, e], f);
    assert(seq![a, b, c, d, e].push(f) =~= seq![a, b, c, d, e, f]);
    lemma_tabbed_grows(seq![a, b, c, d, e, f], g);
    assert(seq![a, b, c, d, e, f].push(g) =~= seq![a, b, c, d, e, f, g]);
    lemma_tabbed_grows(seq![a, b, c, d, e, f, g], h);
    assert(seq![a, b, c, d, e, f, g].push(h) =~= seq![a, b, c, d, e, f, g, h]);
    lemma_tabbed_grows(seq![a, b, c, d, e, f, g, h], i);
    assert(seq![a, b, c, d, e, f, g, h].push(i) =~= seq![a, b, c, d, e, f, g, h, i]);
    lemma_tabbed_grows(seq![a, b, c, d, e, f, g, h, i], j);
    assert(seq![a, b, c, d, e, f, g, h, i].push(j) =~= seq![a, b, c, d, e, f, g, h, i, j]);
    lemma_tabbed_grows(seq![a, b, c, d, e, f, g, h, i, j], k);
    assert(seq![a, b, c, d, e, f, g, h, i, j].push(k) =~= seq![a, b, c, d, e, f, g, h, i, j, k]);
    let tab = seq!['\t'];
    let front = a + tab + b + tab + c + tab + d + tab + e;
    assert(front + (tab + f + tab) + g =~= front + tab + f + tab + g);
}

} // verus!
