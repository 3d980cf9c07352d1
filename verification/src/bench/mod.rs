//! Benchmarks: what is run, on what data, and how the outcome is written down.

pub mod command;
pub mod dataset;
pub mod report;
pub mod trees;

use vstd::prelude::*;

verus! {

/// A tool that is measured.
#[derive(Debug, Clone, Copy, PartialEq, Eq, Structural)]
pub enum Tool {
    OniWhole,
    OniFixed,
    OniCdc,
    Rsync,
    RsyncDelta,
}

/// The name of a tool in results.
pub open spec fn tool_slug(tool: Tool) -> Seq<char> {
    match tool {
        Tool::OniWhole => "oni-whole"@,
        Tool::OniFixed => "oni-fixed"@,
        Tool::OniCdc => "oni-cdc"@,
        Tool::Rsync => "rsync"@,
        Tool::RsyncDelta => "rsync-delta"@,
    }
}

impl Tool {
    /// The name of the tool in results.
    pub fn slug(self) -> (slug: &'static str)
        ensures
            slug@ == tool_slug(self),
    {
        match self {
            Tool::OniWhole => "oni-whole",
            Tool::OniFixed => "oni-fixed",
            Tool::OniCdc => "oni-cdc",
            Tool::Rsync => "rsync",
            Tool::RsyncDelta => "rsync-delta",
        }
    }
}

/// A situation that a tool is measured in.
#[derive(Debug, Clone, Copy, PartialEq, Eq, Structural)]
pub enum Scenario {
    ColdCopy,
    WarmNoop,
    Prepend128B,
    MiddleInsert4K,
    EqualOverwrite1M,
}

/// The name of a scenario in results.
pub open spec fn scenario_slug(scenario: Scenario) -> Seq<char> {
    match scenario {
        Scenario::ColdCopy => "cold-copy"@,
        Scenario::WarmNoop => "warm-noop"@,
        Scenario::Prepend128B => "prepend-128b"@,
        Scenario::MiddleInsert4K => "middle-insert-4k"@,
        Scenario::EqualOverwrite1M => "equal-overwrite-1m"@,
    }
}

impl Scenario {
    /// The name of the scenario in results.
    pub fn slug(self) -> (slug: &'static str)
        ensures
            slug@ == scenario_slug(self),
    {
        match self {
            Scenario::ColdCopy => "cold-copy",
            Scenario::WarmNoop => "warm-noop",
            Scenario::Prepend128B => "prepend-128b",
            Scenario::MiddleInsert4K => "middle-insert-4k",
            Scenario::EqualOverwrite1M => "equal-overwrite-1m",
        }
    }
}

/// The tools that are measured: those asked for, or all of them.
pub fn selected_tools(tools: &Vec<Tool>) -> (selected: Vec<Tool>)
    ensures
        selected@ == if tools@.len() == 0 {
            seq![Tool::OniWhole, Tool::OniFixed, Tool::OniCdc, Tool::Rsync, Tool::RsyncDelta]
        } else {
            tools@
        },
{
    if tools.len() == 0 {
        return vec![
            Tool::OniWhole,
            Tool::OniFixed,
            Tool::OniCdc,
            Tool::Rsync,
            Tool::RsyncDelta,
        ];
    }
    let mut selected: Vec<Tool> = Vec::new();
    let mut index: usize = 0;
    assert(selected@ =~= tools@.take(0));
    while index < tools.len()
        invariant
            index <= tools@.len(),
            selected@ == tools@.take(index as int),
        decreases tools.len() - index,
    {
        selected.push(tools[index]);
        assert(selected@ =~= tools@.take(index + 1));
        index = index + 1;
    }
    assert(selected@ =~= tools@);
    selected
}

/// The scenarios that are measured: those asked for, or all of them.
pub fn selected_scenarios(scenarios: &Vec<Scenario>) -> (selected: Vec<Scenario>)
    ensures
        selected@ == if scenarios@.len() == 0 {
            seq![
                Scenario::ColdCopy,
                Scenario::WarmNoop,
                Scenario::Prepend128B,
                Scenario::MiddleInsert4K,
                Scenario::EqualOverwrite1M,
            ]
        } else {
            scenarios@
        },
{
    if scenarios.len() == 0 {
        return vec![
            Scenario::ColdCopy,
            Scenario::WarmNoop,
            Scenario::Prepend128B,
            Scenario::MiddleInsert4K,
            Scenario::EqualOverwrite1M,
        ];
    }
    let mut selected: Vec<Scenario> = Vec::new();
    let mut index: usize = 0;
    assert(selected@ =~= scenarios@.take(0));
    while index < scenarios.len()
        invariant
            index <= scenarios@.len(),
            selected@ == scenarios@.take(index as int),
        decreases scenarios.len() - index,
    {
        selected.push(scenarios[index]);
        assert(selected@ =~= scenarios@.take(index + 1));
        index = index + 1;
    }
    assert(selected@ =~= scenarios@);
    selected
}

} // verus!
