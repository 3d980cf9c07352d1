//! The commands that the tools are run with.

use crate::bench::Tool;
use crate::text::chars_of;
use vstd::prelude::*;

verus! {

/// One argument of a command.
#[derive(Debug, PartialEq, Eq)]
pub enum Argument {
    /// A text.
    Text(String),
    /// The path of the source tree, as the platform holds it.
    SourcePath,
    /// The path of the destination tree, as the platform holds it.
    DestinationPath,
}

/// What an argument says.
pub enum Word {
    Text(Seq<char>),
    SourcePath,
    DestinationPath,
}

impl View for Argument {
    type V = Word;

    open spec fn view(&self) -> Word {
        match self {
            Argument::Text(text) => Word::Text(text@),
            Argument::SourcePath => Word::SourcePath,
            Argument::DestinationPath => Word::DestinationPath,
        }
    }
}

/// What the arguments say, in their order.
pub open spec fn words_of(args: Seq<Argument>) -> Seq<Word> {
    args.map_values(|argument: Argument| argument@)
}

/// A program that is run.
#[derive(Debug, Clone, Copy, PartialEq, Eq, Structural)]
pub enum Program {
    /// The `oni` binary under test.
    Oni,
    /// The installed `rsync`.
    Rsync,
}

/// A command, and how it is written down.
#[derive(Debug, PartialEq, Eq)]
pub struct ToolCommand {
    pub text: String,
    pub program: Program,
    pub args: Vec<Argument>,
}

/// A path in writing, with one separator at its end.
pub open spec fn with_separator(path: Seq<char>) -> Seq<char> {
    if path.len() > 0 && path.last() == '/' {
        path
    } else {
        path + "/"@
    }
}

/// The options that a tool is run with.
pub open spec fn option_words(tool: Tool) -> Seq<Word> {
    match tool {
        Tool::OniWhole => seq![
            Word::Text("--delete"@),
            Word::Text("--strategy"@),
            Word::Text("whole"@),
        ],
        Tool::OniFixed => seq![
            Word::Text("--delete"@),
            Word::Text("--strategy"@),
            Word::Text("fixed"@),
        ],
        Tool::OniCdc => seq![
            Word::Text("--delete"@),
            Word::Text("--strategy"@),
            Word::Text("cdc"@),
            Word::Text("--chunker"@),
            Word::Text("fastcdc"@),
        ],
        Tool::Rsync => seq![Word::Text("-a"@), Word::Text("--delete"@)],
        Tool::RsyncDelta => seq![
            Word::Text("-a"@),
            Word::Text("--delete"@),
            Word::Text("--no-whole-file"@),
        ],
    }
}

/// The program that a tool runs.
pub open spec fn program_of(tool: Tool) -> Program {
    match tool {
        Tool::OniWhole | Tool::OniFixed | Tool::OniCdc => Program::Oni,
        Tool::Rsync | Tool::RsyncDelta => Program::Rsync,
    }
}

/// The arguments that a tool is run with. `rsync` copies the contents of a
/// directory rather than the directory when its path ends in a separator.
pub open spec fn argument_words(
    tool: Tool,
    source: Seq<char>,
    destination: Seq<char>,
) -> Seq<Word> {
    match program_of(tool) {
        Program::Oni => option_words(tool) + seq![Word::SourcePath, Word::DestinationPath],
        Program::Rsync => option_words(tool) + seq![
            Word::Text(with_separator(source)),
            Word::Text(with_separator(destination)),
        ],
    }
}

/// Words in writing, one space after each.
pub open spec fn written(words: Seq<Word>, source: Seq<char>, destination: Seq<char>) -> Seq<char>
    decreases words.len(),
{
    if words.len() == 0 {
        Seq::empty()
    } else {
        written(words.drop_last(), source, destination) + match words.last() {
            Word::Text(text) => text,
            Word::SourcePath => source,
            Word::DestinationPath => destination,
        } + " "@
    }
}

/// A command in writing: the program and its arguments, separated by spaces.
pub open spec fn command_text(
    tool: Tool,
    oni_binary: Seq<char>,
    source: Seq<char>,
    destination: Seq<char>,
) -> Seq<char> {
    let program = match program_of(tool) {
        Program::Oni => oni_binary,
        Program::Rsync => "rsync"@,
    };
    (program + " "@ + written(
        argument_words(tool, source, destination),
        source,
        destination,
    )).drop_last()
}

/// The path in writing, with one separator at its end.
pub fn path_with_trailing_separator(path: &str) -> (rendered: String)
    ensures
        rendered@ == with_separator(path@),
{
    let chars = chars_of(path);
    let mut rendered = path.to_owned();
    if chars.len() == 0 || chars[chars.len() - 1] != '/' {
        rendered.append("/");
    }
    rendered
}

/// The options that a tool is run with.
fn tool_options(tool: Tool) -> (options: Vec<&'static str>)
    ensures
        options@.map_values(|option: &'static str| Word::Text(option@)) == option_words(tool),
{
    let options: Vec<&'static str> = match tool {
        Tool::OniWhole => vec!["--delete", "--strategy", "whole"],
        Tool::OniFixed => vec!["--delete", "--strategy", "fixed"],
        Tool::OniCdc => vec!["--delete", "--strategy", "cdc", "--chunker", "fastcdc"],
        Tool::Rsync => vec!["-a", "--delete"],
        Tool::RsyncDelta => vec!["-a", "--delete", "--no-whole-file"],
    };
    assert(options@.map_values(|option: &'static str| Word::Text(option@)) =~= option_words(tool));
    options
}

/// The command that runs a tool on a source and a destination.
pub fn build_command(tool: Tool, oni_binary: &str, source: &str, destination: &str) -> (command:
    ToolCommand)
    ensures
        command.program == program_of(tool),
        words_of(command.args@) == argument_words(tool, source@, destination@),
        command.text@ == command_text(tool, oni_binary@, source@, destination@),
{
    let program = match tool {
        Tool::OniWhole | Tool::OniFixed | Tool::OniCdc => Program::Oni,
        Tool::Rsync | Tool::RsyncDelta => Program::Rsync,
    };
    let options = tool_options(tool);
    let ghost expected = argument_words(tool, source@, destination@);
    let mut text = match program {
        Program::Oni => oni_binary.to_owned(),
        Program::Rsync => "rsync".to_string(),
    };
    let ghost front = text@;
    let mut args: Vec<Argument> = Vec::new();
    let mut index: usize = 0;
    proof {
        reveal_strlit(" ");
        assert(expected.take(0) =~= Seq::<Word>::empty());
        assert(words_of(args@) =~= expected.take(0));
        assert(text@ =~= (front + " "@ + written(
            expected.take(0),
            source@,
            destination@,
        )).drop_last());
    }
    while index < options.len()
        invariant
            index <= options@.len(),
            options@.map_values(|option: &'static str| Word::Text(option@)) == option_words(tool),
            expected == argument_words(tool, source@, destination@),
            words_of(args@) == expected.take(index as int),
            text@ == (front + " "@ + written(
                expected.take(index as int),
                source@,
                destination@,
            )).drop_last(),
        decreases options.len() - index,
    {
        let option = options[index];
        let ghost (before, spoken) = (args@, text@);
        text.append(" ");
        text.append(option);
        args.push(Argument::Text(option.to_owned()));
        proof {
            assert(options@.map_values(|option: &'static str| Word::Text(option@))[index as int]
                == Word::Text(option@));
            assert(expected[index as int] == Word::Text(option@));
            assert(words_of(args@) =~= words_of(before).push(Word::Text(option@)));
            lemma_next_word(
                front,
                expected,
                index as int,
                option@,
                spoken,
                text@,
                source@,
                destination@,
            );
        }
        index = index + 1;
    }
    let ghost count = option_words(tool).len() as int;
    assert(options@.map_values(|option: &'static str| Word::Text(option@)).len() == count);
    let ghost (before, spoken) = (args@, text@);
    match program {
        Program::Oni => {
            text.append(" ");
            text.append(source);
            let ghost middle = text@;
            text.append(" ");
            text.append(destination);
            args.push(Argument::SourcePath);
            args.push(Argument::DestinationPath);
            proof {
                assert(words_of(args@) =~= words_of(before) + seq![
                    Word::SourcePath,
                    Word::DestinationPath,
                ]);
                assert(expected[count] == Word::SourcePath);
                assert(expected[count + 1] == Word::DestinationPath);
                lemma_next_word(
                    front,
                    expected,
                    count,
                    source@,
                    spoken,
                    middle,
                    source@,
                    destination@,
                );
                lemma_next_word(
                    front,
                    expected,
                    count + 1,
                    destination@,
                    middle,
                    text@,
                    source@,
                    destination@,
                );
            }
        },
        Program::Rsync => {
            let source_dir = path_with_trailing_separator(source);
            let destination_dir = path_with_trailing_separator(destination);
            text.append(" ");
            text.append(source_dir.as_str());
            let ghost middle = text@;
            text.append(" ");
            text.append(destination_dir.as_str());
            proof {
                assert(expected[count] == Word::Text(source_dir@));
                assert(expected[count + 1] == Word::Text(destination_dir@));
                lemma_next_word(
                    front,
                    expected,
                    count,
                    source_dir@,
                    spoken,
                    middle,
                    source@,
                    destination@,
                );
                lemma_next_word(
                    front,
                    expected,
                    count + 1,
                    destination_dir@,
                    middle,
                    text@,
                    source@,
                    destination@,
                );
            }
            args.push(Argument::Text(source_dir));
            args.push(Argument::Text(destination_dir));
            assert(words_of(args@) =~= words_of(before) + seq![
                Word::Text(source_dir@),
                Word::Text(destination_dir@),
            ]);
        },
    }
    assert(words_of(before) =~= option_words(tool));
    assert(words_of(args@) =~= expected);
    assert(expected.take(count + 2) =~= expected);
    ToolCommand { text, program, args }
}

/// Writing one more word down.
proof fn lemma_next_word(
    front: Seq<char>,
    words: Seq<Word>,
    index: int,
    word: Seq<char>,
    before: Seq<char>,
    after: Seq<char>,
    source: Seq<char>,
    destination: Seq<char>,
)
    requires
        0 <= index < words.len(),
        word == match words[index] {
            Word::Text(text) => text,
            Word::SourcePath => source,
            Word::DestinationPath => destination,
        },
        before == (front + " "@ + written(words.take(index), source, destination)).drop_last(),
        after == before + " "@ + word,
    ensures
        after == (front + " "@ + written(
            words.take(index + 1),
            source,
            destination,
        )).drop_last(),
{
    reveal_strlit(" ");
    let earlier = written(words.take(index), source, destination);
    let later = written(words.take(index + 1), source, destination);
    assert(words.take(index + 1).drop_last() =~= words.take(index));
    assert(words.take(index + 1).last() == words[index]);
    assert(later == earlier + word + " "@);
    let line = front + " "@ + earlier;
    if index == 0 {
        assert(words.take(0) =~= Seq::<Word>::empty());
    }
    lemma_written_ends_in_space(words.take(index), source, destination);
    assert(line.last() == ' ');
    assert(before + " "@ =~= line);
    assert((front + " "@ + later).drop_last() =~= line + word);
}

proof fn lemma_written_ends_in_space(words: Seq<Word>, source: Seq<char>, destination: Seq<char>)
    ensures
        written(words, source, destination).len() == 0 || written(
            words,
            source,
            destination,
        ).last() == ' ',
{
    reveal_strlit(" ");
}

/// Whether a tool can write down how its time was spent.
pub open spec fn profiles(tool: Tool) -> bool {
    program_of(tool) == Program::Oni
}

/// The command in writing, with the variable in front that asks `oni` to write
/// down how its time was spent. Says whether the variable has to be set.
pub fn profiled_text(tool: Tool, text: String, profile_oni_local: bool) -> (profiled: (
    String,
    bool,
))
    ensures
        profiled.1 == (profile_oni_local && profiles(tool)),
        profiled.0@ == if profiled.1 {
            "ONI_PROFILE_LOCAL=1 "@ + text@
        } else {
            text@
        },
{
    let is_oni = match tool {
        Tool::OniWhole | Tool::OniFixed | Tool::OniCdc => true,
        Tool::Rsync | Tool::RsyncDelta => false,
    };
    if profile_oni_local && is_oni {
        let mut profiled = "ONI_PROFILE_LOCAL=1 ".to_string();
        profiled.append(text.as_str());
        (profiled, true)
    } else {
        (text, false)
    }
}

/// A path in writing gets a separator at its end unless it has one, and nothing else.
pub proof fn lemma_separators_are_added_once(path: Seq<char>)
    ensures
        with_separator(path).last() == '/',
        with_separator(path) == path || with_separator(path) == path.push('/'),
        with_separator(path.push('/')) == path.push('/'),
        !(path.len() > 0 && path.last() == '/') ==> with_separator(path) == path.push('/'),
{
    reveal_strlit("/");
    assert(path + "/"@ =~= path.push('/'));
}

/// Every tool is told to delete, and its last two arguments are the source and then the
/// destination. What is told to `rsync` has a separator at its end.
pub proof fn lemma_tools_are_told_the_two_paths(
    tool: Tool,
    source: Seq<char>,
    destination: Seq<char>,
)
    ensures
        ({
            let words = argument_words(tool, source, destination);
            let n = words.len() as int;
            &&& n >= 4
            &&& words.contains(Word::Text("--delete"@))
            &&& tool == Tool::Rsync || tool == Tool::RsyncDelta ==> words[n - 2] == Word::Text(
                with_separator(source),
            ) && words[n - 1] == Word::Text(with_separator(destination))
            &&& !(tool == Tool::Rsync || tool == Tool::RsyncDelta) ==> words[n - 2]
                == Word::SourcePath && words[n - 1] == Word::DestinationPath
        }),
{
    let words = argument_words(tool, source, destination);
    match program_of(tool) {
        Program::Oni => {
            assert(words[0] == Word::Text("--delete"@));
        },
        Program::Rsync => {
            assert(words[1] == Word::Text("--delete"@));
        },
    }
}

/// What a word is written as.
pub open spec fn word_text(word: Word, source: Seq<char>, destination: Seq<char>) -> Seq<char> {
    match word {
        Word::Text(text) => text,
        Word::SourcePath => source,
        Word::DestinationPath => destination,
    }
}

proof fn lemma_written_is_spaced(
    front: Seq<char>,
    words: Seq<Word>,
    source: Seq<char>,
    destination: Seq<char>,
)
    ensures
        (front + " "@ + written(words, source, destination)).len() > 0,
        (front + " "@ + written(words, source, destination)).drop_last()
            == crate::transport::ssh::spaced(
            seq![front] + words.map_values(|word: Word| word_text(word, source, destination)),
        ),
    decreases words.len(),
{
    reveal_strlit(" ");
    let render = |word: Word| word_text(word, source, destination);
    let texts = seq![front] + words.map_values(render);
    let whole = front + " "@ + written(words, source, destination);
    if words.len() == 0 {
        assert(texts =~= seq![front]);
        assert(whole.drop_last() =~= front);
    } else {
        let rest = words.drop_last();
        let earlier = seq![front] + rest.map_values(render);
        let before = front + " "@ + written(rest, source, destination);
        lemma_written_is_spaced(front, rest, source, destination);
        let last = word_text(words.last(), source, destination);
        assert(texts.drop_last() =~= earlier);
        assert(texts.last() == last);
        lemma_ends_in_a_space(rest, source, destination);
        assert(before.last() == ' ');
        assert(whole =~= before + last + " "@);
        assert(whole.drop_last() =~= before.drop_last() + " "@ + last);
    }
}

proof fn lemma_ends_in_a_space(words: Seq<Word>, source: Seq<char>, destination: Seq<char>)
    ensures
        words.len() > 0 ==> written(words, source, destination).len() > 0 && written(
            words,
            source,
            destination,
        ).last() == ' ',
{
    reveal_strlit(" ");
}

/// A command is written as its program and its arguments, with one space between each two.
pub proof fn lemma_commands_are_written_in_turn(
    tool: Tool,
    oni_binary: Seq<char>,
    source: Seq<char>,
    destination: Seq<char>,
)
    ensures
        command_text(tool, oni_binary, source, destination) == crate::transport::ssh::spaced(
            seq![
                if tool == Tool::Rsync || tool == Tool::RsyncDelta {
                    "rsync"@
                } else {
                    oni_binary
                },
            ] + argument_words(tool, source, destination).map_values(
                |word: Word| word_text(word, source, destination),
            ),
        ),
{
    let front = if tool == Tool::Rsync || tool == Tool::RsyncDelta {
        "rsync"@
    } else {
        oni_binary
    };
    lemma_written_is_spaced(
        front,
        argument_words(tool, source, destination),
        source,
        destination,
    );
}

} // verus!
