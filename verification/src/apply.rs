//! Applying the source tree to a target directory.
//!
//! A run stages the transformed tree in a directory of its own, copies that
//! directory to the target, and removes it again. The directory is removed
//! whatever became of the steps before, and only then is the run's outcome
//! known: the first failure among staging, copying and removing.
//!
//! The run itself touches nothing. It says what is to be done next
//! ([`ApplyRun::next_action`]) and takes in what came of it
//! ([`ApplyRun::advance`]).

use crate::config::Config;
use crate::fault::{Fault, FaultView};
use crate::files::{
    carried, carry, first_outside, paths_of, steps_of, RecursiveDirContents, Step,
};
use crate::path::{is_under, path_of, FilePath, PathView};
use crate::text::{texts_of, trim, trimmed};
use vstd::prelude::*;
use vstd::utf8::{decode_utf8, valid_utf8};

verus! {

/// The name under which the staging directory is made in the system's
/// directory for temporary files; the `X`s give way to random characters.
pub const STAGING_DIR_TEMPLATE: &'static str = "homux.staging.XXXXXXXXX";

/// What the user asks of a run.
#[derive(Debug, PartialEq, Eq)]
pub struct Args {
    /// Tags to pick cases by, in place of the host's name.
    pub select: Vec<String>,
    /// Apply to the directory for dry runs, not to the home directory.
    pub dry_run: bool,
    /// Report on every file.
    pub verbose: bool,
}

/// How far a run has come.
#[derive(Debug, PartialEq, Eq)]
pub enum State {
    /// The staging directory is yet to be made.
    Preparing,
    /// The source tree is being staged.
    Staging { staging_dir: FilePath },
    /// The staged tree is being copied to the target.
    Applying { staging_dir: FilePath },
    /// The staging directory is being removed; `failure` is what went wrong
    /// before.
    Cleaning { staging_dir: FilePath, failure: Option<Fault> },
    /// The run is over.
    Done { result: Result<(), Fault> },
}

/// What a [`State`] holds.
pub enum StateView {
    Preparing,
    Staging { staging_dir: PathView },
    Applying { staging_dir: PathView },
    Cleaning { staging_dir: PathView, failure: Option<FaultView> },
    Done { result: Result<(), FaultView> },
}

/// What the failure holds, where there is one.
pub open spec fn failure_of(failure: Option<Fault>) -> Option<FaultView> {
    match failure {
        Some(failure) => Some(failure@),
        None => None,
    }
}

/// What the outcome of a run holds.
pub open spec fn outcome_of(result: Result<(), Fault>) -> Result<(), FaultView> {
    match result {
        Ok(()) => Ok(()),
        Err(failure) => Err(failure@),
    }
}

impl View for State {
    type V = StateView;

    open spec fn view(&self) -> StateView {
        match self {
            State::Preparing => StateView::Preparing,
            State::Staging { staging_dir } => StateView::Staging { staging_dir: staging_dir@ },
            State::Applying { staging_dir } => StateView::Applying { staging_dir: staging_dir@ },
            State::Cleaning { staging_dir, failure } => StateView::Cleaning {
                staging_dir: staging_dir@,
                failure: failure_of(*failure),
            },
            State::Done { result } => StateView::Done { result: outcome_of(*result) },
        }
    }
}

/// What came of the last action.
#[derive(Debug, PartialEq, Eq)]
pub enum Event {
    /// The staging directory was made, at this path.
    Created(FilePath),
    /// The action was carried out.
    Completed,
    /// The action failed.
    Failed(Fault),
}

/// What an [`Event`] holds.
pub enum EventView {
    Created(PathView),
    Completed,
    Failed(FaultView),
}

impl View for Event {
    type V = EventView;

    open spec fn view(&self) -> EventView {
        match self {
            Event::Created(staging_dir) => EventView::Created(staging_dir@),
            Event::Completed => EventView::Completed,
            Event::Failed(failure) => EventView::Failed(failure@),
        }
    }
}

/// What is to be done next.
#[derive(Debug, PartialEq, Eq)]
pub enum Action {
    /// Make the staging directory.
    CreateStaging,
    /// Stage the source tree in the staging directory.
    Stage { staging_dir: FilePath },
    /// Copy the staging directory to the target directory.
    Apply { staging_dir: FilePath, target_dir: FilePath },
    /// Remove the staging directory with all that is in it.
    Clean { staging_dir: FilePath },
    /// Nothing: the run is over, with this outcome.
    Finish { result: Result<(), Fault> },
}

/// What an [`Action`] holds.
pub enum ActionView {
    CreateStaging,
    Stage { staging_dir: PathView },
    Apply { staging_dir: PathView, target_dir: PathView },
    Clean { staging_dir: PathView },
    Finish { result: Result<(), FaultView> },
}

impl View for Action {
    type V = ActionView;

    open spec fn view(&self) -> ActionView {
        match self {
            Action::CreateStaging => ActionView::CreateStaging,
            Action::Stage { staging_dir } => ActionView::Stage { staging_dir: staging_dir@ },
            Action::Apply { staging_dir, target_dir } => ActionView::Apply {
                staging_dir: staging_dir@,
                target_dir: target_dir@,
            },
            Action::Clean { staging_dir } => ActionView::Clean { staging_dir: staging_dir@ },
            Action::Finish { result } => ActionView::Finish { result: outcome_of(*result) },
        }
    }
}

/// The state that follows `state` when `event` comes in.
///
/// An event that cannot answer the action of the state (a directory that was
/// made while none was asked for, a completion without the directory that was
/// asked for) leaves the state as it is; so does any event once the run is
/// over.
pub open spec fn step(state: StateView, event: EventView) -> StateView {
    match (state, event) {
        (StateView::Preparing, EventView::Created(staging_dir)) => StateView::Staging {
            staging_dir,
        },
        (StateView::Preparing, EventView::Failed(failure)) => StateView::Done {
            result: Err(failure),
        },
        (StateView::Staging { staging_dir }, EventView::Completed) => StateView::Applying {
            staging_dir,
        },
        (StateView::Staging { staging_dir }, EventView::Failed(failure)) => StateView::Cleaning {
            staging_dir,
            failure: Some(failure),
        },
        (StateView::Applying { staging_dir }, EventView::Completed) => StateView::Cleaning {
            staging_dir,
            failure: None,
        },
        (StateView::Applying { staging_dir }, EventView::Failed(failure)) => StateView::Cleaning {
            staging_dir,
            failure: Some(failure),
        },
        (StateView::Cleaning { staging_dir, failure }, EventView::Completed) => StateView::Done {
            result: match failure {
                Some(earlier) => Err(earlier),
                None => Ok(()),
            },
        },
        (StateView::Cleaning { staging_dir, failure }, EventView::Failed(late)) => StateView::Done {
            result: match failure {
                Some(earlier) => Err(earlier),
                None => Err(late),
            },
        },
        _ => state,
    }
}

/// The action that a state asks for.
pub open spec fn action_of(state: StateView, target_dir: PathView) -> ActionView {
    match state {
        StateView::Preparing => ActionView::CreateStaging,
        StateView::Staging { staging_dir } => ActionView::Stage { staging_dir },
        StateView::Applying { staging_dir } => ActionView::Apply { staging_dir, target_dir },
        StateView::Cleaning { staging_dir, failure } => ActionView::Clean { staging_dir },
        StateView::Done { result } => ActionView::Finish { result },
    }
}

/// The state after all of `events`, one after the other, from `state`.
pub open spec fn run_through(state: StateView, events: Seq<EventView>) -> StateView
    decreases events.len(),
{
    if events.len() == 0 {
        state
    } else {
        step(run_through(state, events.drop_last()), events.last())
    }
}

/// One run of apply.
#[derive(Debug, PartialEq, Eq)]
pub struct ApplyRun {
    /// The directory that the staged tree is copied to.
    pub target_dir: FilePath,
    /// The tags by which the cases of marked blocks are picked.
    pub tags: Vec<String>,
    /// Whether every file is reported on.
    pub verbose: bool,
    /// How far the run has come.
    pub state: State,
}

/// Starts a run: nothing is done yet.
///
/// The target is the home directory, or the directory for dry runs where one
/// is asked for. The tags are those that the user selected, or the host's
/// name alone where none was selected.
pub fn apply(args: &Args, config: &Config) -> (run: ApplyRun)
    ensures
        run.target_dir@ == (if args.dry_run {
            config.dirs.dry_run@
        } else {
            config.dirs.home@
        }),
        texts_of(run.tags@) == (if args.select@.len() == 0 {
            seq![config.hostname@]
        } else {
            texts_of(args.select@)
        }),
        run.verbose == args.verbose,
        run.state@ == StateView::Preparing,
{
    let target_dir = if args.dry_run {
        config.dirs.dry_run.clone()
    } else {
        config.dirs.home.clone()
    };
    let tags = if args.select.len() == 0 {
        let mut tags: Vec<String> = Vec::new();
        tags.push(config.hostname.clone());
        tags
    } else {
        let tags = args.select.clone();
        tags
    };
    ApplyRun { target_dir, tags, verbose: args.verbose, state: State::Preparing }
}

impl ApplyRun {
    /// What is to be done next.
    pub fn next_action(&self) -> (action: Action)
        ensures
            action@ == action_of(self.state@, self.target_dir@),
    {
        match &self.state {
            State::Preparing => Action::CreateStaging,
            State::Staging { staging_dir } => Action::Stage { staging_dir: staging_dir.clone() },
            State::Applying { staging_dir } => Action::Apply {
                staging_dir: staging_dir.clone(),
                target_dir: self.target_dir.clone(),
            },
            State::Cleaning { staging_dir, failure } => Action::Clean {
                staging_dir: staging_dir.clone(),
            },
            State::Done { result } => Action::Finish {
                result: match result {
                    Ok(()) => Ok(()),
                    Err(failure) => Err(failure.clone()),
                },
            },
        }
    }

    /// Takes in what came of the last action.
    pub fn advance(self, event: Event) -> (next: ApplyRun)
        ensures
            next.state@ == step(self.state@, event@),
            next.target_dir@ == self.target_dir@,
            texts_of(next.tags@) == texts_of(self.tags@),
            next.verbose == self.verbose,
    {
        let state = match (self.state, event) {
            (State::Preparing, Event::Created(staging_dir)) => State::Staging { staging_dir },
            (State::Preparing, Event::Failed(failure)) => State::Done { result: Err(failure) },
            (State::Staging { staging_dir }, Event::Completed) => State::Applying { staging_dir },
            (State::Staging { staging_dir }, Event::Failed(failure)) => State::Cleaning {
                staging_dir,
                failure: Some(failure),
            },
            (State::Applying { staging_dir }, Event::Completed) => State::Cleaning {
                staging_dir,
                failure: None,
            },
            (State::Applying { staging_dir }, Event::Failed(failure)) => State::Cleaning {
                staging_dir,
                failure: Some(failure),
            },
            (State::Cleaning { staging_dir, failure }, Event::Completed) => State::Done {
                result: match failure {
                    Some(earlier) => Err(earlier),
                    None => Ok(()),
                },
            },
            (State::Cleaning { staging_dir, failure }, Event::Failed(late)) => State::Done {
                result: match failure {
                    Some(earlier) => Err(earlier),
                    None => Err(late),
                },
            },
            (state, _) => state,
        };
        ApplyRun { target_dir: self.target_dir, tags: self.tags, verbose: self.verbose, state }
    }

}

/// Reads the path of the staging directory from what the program that made
/// it has printed: its output as text, without the white space around it.
///
/// Output that names no directory means that none was made, and is refused
/// like output that is not text.
pub fn get_staging_dir(output: &[u8]) -> (staging_dir: Result<FilePath, Fault>)
    ensures
        staging_dir is Ok <==> valid_utf8(output@) && trimmed(decode_utf8(output@)).len() > 0,
        staging_dir matches Ok(path) ==> path@ == path_of(trimmed(decode_utf8(output@))),
        staging_dir matches Err(fault) ==> fault@ == (FaultView::Io {
            message: if valid_utf8(output@) {
                "failed to get temporary directory"@
            } else {
                "parse staging directory as utf8"@
            },
        }),
{
    match std::str::from_utf8(output) {
        Ok(text) => {
            let name = trim(text);
            if name.as_str().is_empty() {
                Err(Fault::Io { message: "failed to get temporary directory".to_owned() })
            } else {
                Ok(FilePath::parse(name.as_str()))
            }
        },
        Err(_) => Err(Fault::Io { message: "parse staging directory as utf8".to_owned() }),
    }
}

/// Plans the staging of the source tree: how everything in `contents`, found
/// under the source directory, gets to the same relative places under
/// `staging_dir`.
///
/// Directories come before files. Each file is written as its content is
/// transformed ([`crate::transform::transform_content`]), and is then given
/// the permission bits of the file that it came from. Nothing is planned when
/// an entry does not lie under the source directory: the first such entry,
/// directories first, is reported.
pub fn stage_source(config: &Config, staging_dir: &FilePath, contents: &RecursiveDirContents) -> (plan:
    Result<Vec<Step>, Fault>)
    ensures
        plan is Ok <==> forall|i: int|
            0 <= i < contents.entries().len() ==> is_under(
                #[trigger] contents.entries()[i],
                config.dirs.source@,
            ),
        plan matches Ok(steps) ==> steps_of(steps@) == carried(
            paths_of(contents.dirs@),
            paths_of(contents.files@),
            config.dirs.source@,
            staging_dir@,
            true,
        ),
        plan matches Err(failure) ==> exists|at: int|
            first_outside(contents.entries(), config.dirs.source@, at) && failure@ == (
            FaultView::PathNotUnderBase {
                path: contents.entries()[at],
                base: config.dirs.source@,
            }),
{
    carry(&config.dirs.source, staging_dir, contents, true)
}

/// How far a state is from the start of a run.
pub open spec fn rank(state: StateView) -> nat {
    match state {
        StateView::Preparing => 0,
        StateView::Staging { staging_dir } => 1,
        StateView::Applying { staging_dir } => 2,
        StateView::Cleaning { staging_dir, failure } => 3,
        StateView::Done { result } => 4,
    }
}

/// The staging directory that a state holds.
pub open spec fn staging_dir_of(state: StateView) -> Option<PathView> {
    match state {
        StateView::Staging { staging_dir } => Some(staging_dir),
        StateView::Applying { staging_dir } => Some(staging_dir),
        StateView::Cleaning { staging_dir, failure } => Some(staging_dir),
        _ => None,
    }
}

/// A run never goes back: staging comes before applying, applying before
/// cleaning, and cleaning before the end.
pub proof fn lemma_step_order(state: StateView, event: EventView)
    ensures
        rank(state) <= rank(step(state, event)),
{
}

/// The staged tree is copied to the target only after staging has succeeded,
/// and a run ends only where no staging directory was made or the one that
/// was made has been cleaned.
pub proof fn lemma_step_sources(state: StateView, event: EventView)
    ensures
        step(state, event) is Applying && !(state is Applying) ==> state is Staging && event
            == EventView::Completed,
        step(state, event) is Done && !(state is Done) ==> state is Cleaning || (state is Preparing
            && event is Failed),
{
}

/// A failure of staging or of copying is the outcome of the run, whatever
/// becomes of the cleaning.
pub proof fn lemma_earlier_failure_wins(
    staging_dir: PathView,
    earlier: FaultView,
    event: EventView,
)
    ensures
        ({
            let state = StateView::Cleaning { staging_dir, failure: Some(earlier) };
            step(state, event) == state || step(state, event) == (StateView::Done {
                result: Err(earlier),
            })
        }),
{
}

/// A run that is over has cleaned every staging directory that it held: the
/// state in which the directory was held is followed, before the end, by the
/// state in which that directory is removed.
pub proof fn lemma_staging_dir_is_cleaned(events: Seq<EventView>, held: int)
    requires
        0 <= held <= events.len(),
        run_through(StateView::Preparing, events.take(held)) is Staging || run_through(
            StateView::Preparing,
            events.take(held),
        ) is Applying,
        run_through(StateView::Preparing, events) is Done,
    ensures
        exists|cleaning: int|
            held < cleaning < events.len() && (#[trigger] run_through(
                StateView::Preparing,
                events.take(cleaning),
            )) is Cleaning && staging_dir_of(
                run_through(StateView::Preparing, events.take(cleaning)),
            ) == staging_dir_of(run_through(StateView::Preparing, events.take(held))),
    decreases events.len() - held,
{
    assert(events.take(events.len() as int) == events);
    assert(events.take(held + 1).drop_last() == events.take(held));
    if !(run_through(StateView::Preparing, events.take(held + 1)) is Cleaning) {
        lemma_staging_dir_is_cleaned(events, held + 1);
    }
}

} // verus!
