//! The copy of the empty state a mode shows while its enrichment is
//! missing: the tool it needs and what it would show, and the wording of
//! each stage of the enrichment run.
use vstd::prelude::*;

verus! {

/// Where one stage of the enrichment run has got to.
#[derive(Debug, Clone, Copy, PartialEq, Eq, Structural)]
pub enum StageState {
    Pending,
    Running,
    /// Finished, but the tool reported a warning.
    Partial,
    Done,
    Failed,
}

impl StageState {
    pub open spec fn css_spec(self) -> Seq<char> {
        match self {
            StageState::Pending => "pending"@,
            StageState::Running => "running"@,
            StageState::Partial => "partial"@,
            StageState::Done => "done"@,
            StageState::Failed => "failed"@,
        }
    }

    /// The stage's CSS state class.
    pub fn css(self) -> (r: &'static str)
        ensures
            r@ == self.css_spec(),
    {
        match self {
            StageState::Pending => "pending",
            StageState::Running => "running",
            StageState::Partial => "partial",
            StageState::Done => "done",
            StageState::Failed => "failed",
        }
    }

    pub open spec fn mark_spec(self) -> Seq<char> {
        match self {
            StageState::Pending => "\u{00b7}"@,
            StageState::Running => ""@,
            StageState::Partial => "!"@,
            StageState::Done => "\u{2713}"@,
            StageState::Failed => "\u{00d7}"@,
        }
    }

    /// The mark of a stage that is not running (a running one shows a bar).
    pub fn mark(self) -> (r: &'static str)
        ensures
            r@ == self.mark_spec(),
    {
        match self {
            StageState::Pending => "\u{00b7}",
            StageState::Running => "",
            StageState::Partial => "!",
            StageState::Done => "\u{2713}",
            StageState::Failed => "\u{00d7}",
        }
    }

    pub open spec fn suffix_spec(self) -> Seq<char> {
        match self {
            StageState::Pending => " (queued)"@,
            StageState::Running => "\u{2026}"@,
            StageState::Partial => " (finished with a warning)"@,
            StageState::Done => " (done)"@,
            StageState::Failed => " (failed)"@,
        }
    }

    /// The words after the stage's name.
    pub fn suffix(self) -> (r: &'static str)
        ensures
            r@ == self.suffix_spec(),
    {
        match self {
            StageState::Pending => " (queued)",
            StageState::Running => "\u{2026}",
            StageState::Partial => " (finished with a warning)",
            StageState::Done => " (done)",
            StageState::Failed => " (failed)",
        }
    }
}

/// Which enrichment a panel is missing.
#[derive(Debug, Clone, Copy, PartialEq, Eq, Structural)]
pub enum Enrichment {
    CodeGraph,
    SlopDetection,
}

impl Enrichment {
    pub open spec fn tool_key_spec(self) -> Seq<char> {
        match self {
            Enrichment::CodeGraph => "magma"@,
            Enrichment::SlopDetection => "ferret"@,
        }
    }

    /// The tools-payload key whose presence gates the mode.
    pub fn tool_key(self) -> (r: &'static str)
        ensures
            r@ == self.tool_key_spec(),
    {
        match self {
            Enrichment::CodeGraph => "magma",
            Enrichment::SlopDetection => "ferret",
        }
    }

    pub open spec fn run_tool_spec(self) -> Seq<char> {
        match self {
            Enrichment::CodeGraph => "magma"@,
            Enrichment::SlopDetection => "slop-ferret"@,
        }
    }

    /// The tool named when the run is requested.
    pub fn run_tool(self) -> (r: &'static str)
        ensures
            r@ == self.run_tool_spec(),
    {
        match self {
            Enrichment::CodeGraph => "magma",
            Enrichment::SlopDetection => "slop-ferret",
        }
    }

    pub open spec fn tool_display_spec(self) -> Seq<char> {
        match self {
            Enrichment::CodeGraph => "Magma"@,
            Enrichment::SlopDetection => "Slop Ferret"@,
        }
    }

    /// How the tool is known to a reader.
    pub fn tool_display(self) -> (r: &'static str)
        ensures
            r@ == self.tool_display_spec(),
    {
        match self {
            Enrichment::CodeGraph => "Magma",
            Enrichment::SlopDetection => "Slop Ferret",
        }
    }

    pub open spec fn heading_spec(self) -> Seq<char> {
        match self {
            Enrichment::CodeGraph => "No code graph yet"@,
            Enrichment::SlopDetection => "No sweep yet"@,
        }
    }

    /// The empty state's heading.
    pub fn heading(self) -> (r: &'static str)
        ensures
            r@ == self.heading_spec(),
    {
        match self {
            Enrichment::CodeGraph => "No code graph yet",
            Enrichment::SlopDetection => "No sweep yet",
        }
    }

    pub open spec fn what_it_gives_spec(self) -> Seq<char> {
        match self {
            Enrichment::CodeGraph => "Code Graph renders this repository's call graph: what calls what, which functions nothing reaches, and the call order from the entry points."@,
            Enrichment::SlopDetection => "Slop Detection renders a sweep for work that looks finished and is not: functions nothing calls, tests that cannot fail, guards that cannot fire. It shows coverage and what was NOT checked, not only what was found."@,
        }
    }

    /// What the mode would show, stated before what it needs.
    pub fn what_it_gives(self) -> (r: &'static str)
        ensures
            r@ == self.what_it_gives_spec(),
    {
        match self {
            Enrichment::CodeGraph => "Code Graph renders this repository's call graph: what calls what, which functions nothing reaches, and the call order from the entry points.",
            Enrichment::SlopDetection => "Slop Detection renders a sweep for work that looks finished and is not: functions nothing calls, tests that cannot fail, guards that cannot fire. It shows coverage and what was NOT checked, not only what was found.",
        }
    }

    pub open spec fn install_hint_spec(self) -> Seq<char> {
        match self {
            Enrichment::CodeGraph => "go install github.com/robot-accomplice/magma@latest"@,
            Enrichment::SlopDetection => "go install github.com/robot-accomplice/slop-ferret/cmd/ferret@latest"@,
        }
    }

    /// The command that installs the tool.
    pub fn install_hint(self) -> (r: &'static str)
        ensures
            r@ == self.install_hint_spec(),
    {
        match self {
            Enrichment::CodeGraph => "go install github.com/robot-accomplice/magma@latest",
            Enrichment::SlopDetection => "go install github.com/robot-accomplice/slop-ferret/cmd/ferret@latest",
        }
    }
}


/// How the tool run of one stage came back.
#[derive(Debug, Clone, Copy, PartialEq, Eq, Structural)]
pub enum StageOutcome {
    /// The run finished; `warning` when it reported one.
    Finished { warning: bool },
    /// The run failed.
    Failed,
}

/// What the enrichment run does next.
#[derive(Debug, Clone, Copy, PartialEq, Eq, Structural)]
pub enum StageAction {
    /// Run the tool of this stage.
    Run(usize),
    /// The run is over.
    Stop,
}

/// The state a stage ends in for a given outcome.
pub open spec fn settled(outcome: StageOutcome) -> StageState {
    match outcome {
        StageOutcome::Finished { warning } => if warning {
            StageState::Partial
        } else {
            StageState::Done
        },
        StageOutcome::Failed => StageState::Failed,
    }
}

/// Start a run of `count` stages: the first one running, the others
/// queued; run the first stage, or stop at once when there is none.
pub fn begin_stages(count: usize) -> (r: (Vec<StageState>, StageAction))
    ensures
        r.0@.len() == count,
        forall|i: int|
            0 <= i < count ==> #[trigger] r.0@[i] == if i == 0 {
                StageState::Running
            } else {
                StageState::Pending
            },
        r.1 == if count > 0 {
            StageAction::Run(0)
        } else {
            StageAction::Stop
        },
{
    let mut stages: Vec<StageState> = Vec::new();
    let mut i: usize = 0;
    while i < count
        invariant
            i <= count,
            stages@.len() == i,
            forall|k: int|
                0 <= k < i ==> #[trigger] stages@[k] == if k == 0 {
                    StageState::Running
                } else {
                    StageState::Pending
                },
        decreases count - i,
    {
        if i == 0 {
            stages.push(StageState::Running);
        } else {
            stages.push(StageState::Pending);
        }
        i += 1;
    }
    if count > 0 {
        (stages, StageAction::Run(0))
    } else {
        (stages, StageAction::Stop)
    }
}

/// Record how stage `current` came back and decide what follows: a failure
/// stops the run; a finish (with or without a warning) starts the next
/// stage, or stops after the last one.
pub fn advance_stages(stages: &mut Vec<StageState>, current: usize, outcome: StageOutcome) -> (a: StageAction)
    requires
        current < old(stages)@.len(),
    ensures
        a == match outcome {
            StageOutcome::Failed => StageAction::Stop,
            StageOutcome::Finished { .. } => if current + 1 < old(stages)@.len() {
                StageAction::Run((current + 1) as usize)
            } else {
                StageAction::Stop
            },
        },
        final(stages)@ == match a {
            StageAction::Run(next) => old(stages)@.update(current as int, settled(outcome)).update(
                next as int,
                StageState::Running,
            ),
            StageAction::Stop => old(stages)@.update(current as int, settled(outcome)),
        },
{
    let state = match outcome {
        StageOutcome::Finished { warning } => if warning {
            StageState::Partial
        } else {
            StageState::Done
        },
        StageOutcome::Failed => StageState::Failed,
    };
    stages.set(current, state);
    match outcome {
        StageOutcome::Failed => StageAction::Stop,
        StageOutcome::Finished { .. } => {
            if current < stages.len() - 1 {
                stages.set(current + 1, StageState::Running);
                StageAction::Run(current + 1)
            } else {
                StageAction::Stop
            }
        },
    }
}

} // verus!
