//! What the command line asks for.

use crate::error::SessionError;
use crate::plan::PlanOptions;
use crate::session::{Chunker, Options, Strategy};
use vstd::prelude::*;

verus! {

/// A strategy as the command line names it.
#[derive(Debug, Clone, Copy, PartialEq, Eq, Structural)]
pub enum StrategyArg {
    /// Let the session choose.
    Auto,
    /// Always replace changed files as a whole.
    Whole,
    /// Transfer content-defined chunks.
    Cdc,
}

impl From<StrategyArg> for Strategy {
    fn from(value: StrategyArg) -> (strategy: Self) {
        match value {
            StrategyArg::Auto => Strategy::Auto,
            StrategyArg::Whole => Strategy::Whole,
            StrategyArg::Cdc => Strategy::Cdc,
        }
    }
}

/// The strategy that the command line names.
pub open spec fn named_strategy(value: StrategyArg) -> Strategy {
    match value {
        StrategyArg::Auto => Strategy::Auto,
        StrategyArg::Whole => Strategy::Whole,
        StrategyArg::Cdc => Strategy::Cdc,
    }
}

impl vstd::std_specs::convert::FromSpecImpl<StrategyArg> for Strategy {
    open spec fn obeys_from_spec() -> bool {
        true
    }

    open spec fn from_spec(value: StrategyArg) -> Self {
        named_strategy(value)
    }
}

/// A chunker as the command line names it.
#[derive(Debug, Clone, Copy, PartialEq, Eq, Structural)]
pub enum ChunkerArg {
    FastCdc,
    SeqCdc,
}

/// The chunker that the command line names.
pub open spec fn named_chunker(value: ChunkerArg) -> Chunker {
    match value {
        ChunkerArg::FastCdc => Chunker::FastCdc,
        ChunkerArg::SeqCdc => Chunker::SeqCdc,
    }
}

impl From<ChunkerArg> for Chunker {
    fn from(value: ChunkerArg) -> (chunker: Self) {
        match value {
            ChunkerArg::FastCdc => Chunker::FastCdc,
            ChunkerArg::SeqCdc => Chunker::SeqCdc,
        }
    }
}

impl vstd::std_specs::convert::FromSpecImpl<ChunkerArg> for Chunker {
    open spec fn obeys_from_spec() -> bool {
        true
    }

    open spec fn from_spec(value: ChunkerArg) -> Self {
        named_chunker(value)
    }
}

/// A subcommand for the program's own use.
#[derive(Debug, Clone, Copy, PartialEq, Eq, Structural)]
pub enum InternalCommand {
    Internal { command: InternalSubcommand },
}

/// What a helper is asked to do.
#[derive(Debug, Clone, Copy, PartialEq, Eq, Structural)]
pub enum InternalSubcommand {
    /// Serve the framed protocol on the standard streams.
    ServeStdio,
}

/// The command line.
#[derive(Debug, PartialEq, Eq)]
pub struct Cli {
    /// Delete what the source does not have.
    pub delete_extraneous: bool,
    /// Replace changed files as a whole.
    pub whole_file: bool,
    /// Transfer content-defined chunks.
    pub cdc: bool,
    /// The strategy, if one is named.
    pub strategy: Option<StrategyArg>,
    /// The chunker.
    pub chunker: ChunkerArg,
    /// The subcommand, if there is one.
    pub internal: Option<InternalCommand>,
    /// The source, a path or `[user@]host:path`.
    pub source: Option<String>,
    /// The destination, a path or `[user@]host:path`.
    pub destination: Option<String>,
}

/// The strategy that a command line asks for. The flags come before the named
/// strategy, and the flag for whole files before that for chunks.
pub open spec fn chosen_strategy(cli: Cli) -> Strategy {
    if cli.whole_file {
        Strategy::Whole
    } else if cli.cdc {
        Strategy::Cdc
    } else {
        match cli.strategy {
            Some(value) => named_strategy(value),
            None => Strategy::Auto,
        }
    }
}

impl Cli {
    /// How the sync is to be done.
    pub fn options(&self) -> (options: Options)
        ensures
            options == (Options {
                plan: PlanOptions { delete_extraneous: self.delete_extraneous },
                strategy: chosen_strategy(*self),
                chunker: named_chunker(self.chunker),
            }),
    {
        Options {
            plan: PlanOptions { delete_extraneous: self.delete_extraneous },
            strategy: self.strategy(),
            chunker: Chunker::from(self.chunker),
        }
    }

    /// The source and the destination. Both have to be there.
    pub fn operands(&self) -> (operands: Result<(&str, &str), SessionError>)
        ensures
            match (self.source, self.destination) {
                (Some(source), Some(destination)) => operands matches Ok((from, to)) && from@
                    == source@ && to@ == destination@,
                _ => operands == Err::<(&str, &str), SessionError>(SessionError::MissingOperands),
            },
    {
        match (&self.source, &self.destination) {
            (Some(source), Some(destination)) => Ok((source.as_str(), destination.as_str())),
            _ => Err(SessionError::MissingOperands),
        }
    }

    fn strategy(&self) -> (strategy: Strategy)
        ensures
            strategy == chosen_strategy(*self),
    {
        if self.whole_file {
            return Strategy::Whole;
        }
        if self.cdc {
            return Strategy::Cdc;
        }
        match self.strategy {
            Some(value) => Strategy::from(value),
            None => Strategy::Auto,
        }
    }
}

/// A flag comes before a named strategy, and the flag for whole files before that for
/// chunks. Without a flag the named strategy is taken, under the name that it has. Without
/// either the session chooses.
pub proof fn lemma_flags_come_first(cli: Cli)
    ensures
        cli.whole_file ==> chosen_strategy(cli) == Strategy::Whole,
        !cli.whole_file && cli.cdc ==> chosen_strategy(cli) == Strategy::Cdc,
        !cli.whole_file && !cli.cdc && cli.strategy is None ==> chosen_strategy(cli)
            == Strategy::Auto,
        !cli.whole_file && !cli.cdc ==> (cli.strategy matches Some(named) ==> {
            &&& chosen_strategy(cli) == Strategy::Auto <==> named == StrategyArg::Auto
            &&& chosen_strategy(cli) == Strategy::Whole <==> named == StrategyArg::Whole
            &&& chosen_strategy(cli) == Strategy::Cdc <==> named == StrategyArg::Cdc
        }),
        named_chunker(cli.chunker) == Chunker::FastCdc <==> cli.chunker == ChunkerArg::FastCdc,
{
}

} // verus!
