use crate::config::first_fault;
use crate::config::Config;
use crate::error::PipelineError;
use vstd::prelude::*;

verus! {

/// Where a run stands.
#[derive(Debug, Clone, Copy, PartialEq, Eq, Structural)]
pub enum Stage {
    /// Nothing was done yet.
    Start,
    /// The report is being read; include set and exclusion predicate follow
    /// from it.
    Report,
    /// The classification output is being filtered.
    Filter,
    /// The sequence files are being read and the output written.
    Extraction,
    /// The run is over.
    Finished,
}

/// What happened since the last step.
#[derive(Debug, Clone, Copy, PartialEq, Eq, Structural)]
pub enum Event {
    /// The run was asked for.
    Begin,
    /// Include set and exclusion predicate are built.
    FiltersReady,
    /// The classification output is filtered; `matches` reads stayed.
    FilterDone { matches: usize },
    /// The output is written; it holds `written` records.
    ExtractionDone { written: usize },
    /// The work of the current stage failed.
    Failed(PipelineError),
}

/// How a run ended.
#[derive(Debug, Clone, Copy, PartialEq, Eq, Structural)]
pub enum Outcome {
    /// No read stayed; no sequence file was opened and no output written.
    NoMatches,
    /// The output holds this many records.
    Retained(usize),
    /// The first fatal error.
    Failed(PipelineError),
}

/// What is to be done next.
#[derive(Debug, Clone, Copy, PartialEq, Eq, Structural)]
pub enum Action {
    /// Read the report, build the include set and compile the exclusion
    /// predicate.
    PrepareFilters,
    /// Filter the classification output.
    RunFilter,
    /// Read the sequence files and write the output.
    RunExtraction,
    /// Stop and report.
    Stop(Outcome),
    /// Nothing: the event is not one that the stage waits for.
    Ignore,
}

/// The step that the controller takes.
pub open spec fn next_step(config: Config, stage: Stage, event: Event) -> (Stage, Action) {
    match (stage, event) {
        (Stage::Finished, _) => (Stage::Finished, Action::Ignore),
        (Stage::Start, Event::Begin) => match first_fault(config) {
            Some(field) => (
                Stage::Finished,
                Action::Stop(Outcome::Failed(PipelineError::InvalidConfig(field))),
            ),
            None => (Stage::Report, Action::PrepareFilters),
        },
        (Stage::Start, _) => (Stage::Start, Action::Ignore),
        (_, Event::Failed(e)) => (Stage::Finished, Action::Stop(Outcome::Failed(e))),
        (Stage::Report, Event::FiltersReady) => (Stage::Filter, Action::RunFilter),
        (Stage::Filter, Event::FilterDone { matches }) => if matches == 0 {
            (Stage::Finished, Action::Stop(Outcome::NoMatches))
        } else {
            (Stage::Extraction, Action::RunExtraction)
        },
        (Stage::Extraction, Event::ExtractionDone { written }) => (
            Stage::Finished,
            Action::Stop(Outcome::Retained(written)),
        ),
        (_, _) => (stage, Action::Ignore),
    }
}

/// The stage after a run of events, from `stage` on.
pub open spec fn stage_after(config: Config, stage: Stage, events: Seq<Event>) -> Stage
    decreases events.len(),
{
    if events.len() == 0 {
        stage
    } else {
        next_step(config, stage_after(config, stage, events.drop_last()), events.last()).0
    }
}

/// The actions that a run of events asked for, from `stage` on, in order.
pub open spec fn actions_of(config: Config, stage: Stage, events: Seq<Event>) -> Seq<Action>
    decreases events.len(),
{
    if events.len() == 0 {
        Seq::empty()
    } else {
        actions_of(config, stage, events.drop_last()).push(
            next_step(config, stage_after(config, stage, events.drop_last()), events.last()).1,
        )
    }
}

/// Takes one step: the next stage and what is to be done.
pub fn step(config: &Config, stage: Stage, event: Event) -> (next: (Stage, Action))
    ensures
        next == next_step(*config, stage, event),
{
    match stage {
        Stage::Finished => (Stage::Finished, Action::Ignore),
        Stage::Start => match event {
            Event::Begin => match config.validate() {
                Ok(_) => (Stage::Report, Action::PrepareFilters),
                Err(e) => (Stage::Finished, Action::Stop(Outcome::Failed(e))),
            },
            _ => (Stage::Start, Action::Ignore),
        },
        Stage::Report => match event {
            Event::Failed(e) => (Stage::Finished, Action::Stop(Outcome::Failed(e))),
            Event::FiltersReady => (Stage::Filter, Action::RunFilter),
            _ => (stage, Action::Ignore),
        },
        Stage::Filter => match event {
            Event::Failed(e) => (Stage::Finished, Action::Stop(Outcome::Failed(e))),
            Event::FilterDone { matches } => if matches == 0 {
                (Stage::Finished, Action::Stop(Outcome::NoMatches))
            } else {
                (Stage::Extraction, Action::RunExtraction)
            },
            _ => (stage, Action::Ignore),
        },
        Stage::Extraction => match event {
            Event::Failed(e) => (Stage::Finished, Action::Stop(Outcome::Failed(e))),
            Event::ExtractionDone { written } => (
                Stage::Finished,
                Action::Stop(Outcome::Retained(written)),
            ),
            _ => (stage, Action::Ignore),
        },
    }
}

/// With a setting out of range a run stops at its first step: it fails with
/// the configuration error and asks for no other action.
pub proof fn lemma_invalid_config_stops(config: Config)
    requires
        !config.valid(),
    ensures
        next_step(config, Stage::Start, Event::Begin) == (
            Stage::Finished,
            Action::Stop(Outcome::Failed(PipelineError::InvalidConfig(first_fault(config)->Some_0))),
        ),
{
}

/// Extraction is asked for only by the step that learns, while the filter
/// runs, that it left a read; a filter that left none ends the run with
/// success.
pub proof fn lemma_extraction_needs_matches(config: Config, stage: Stage, event: Event)
    ensures
        next_step(config, stage, event).1 == Action::RunExtraction <==> (stage == Stage::Filter
            && event is FilterDone && event->matches > 0),
        stage == Stage::Filter && event == (Event::FilterDone { matches: 0 }) ==> next_step(
            config,
            stage,
            event,
        ) == (Stage::Finished, Action::Stop(Outcome::NoMatches)),
{
}

/// Whatever the events, from the start on: no action comes before the
/// settings were found in range, and once a run is over nothing more is
/// asked for.
pub proof fn lemma_run_is_guarded(config: Config, events: Seq<Event>, k: int)
    requires
        0 <= k < events.len(),
    ensures
        ({
            let actions = actions_of(config, Stage::Start, events);
            let before = stage_after(config, Stage::Start, events.take(k));
            &&& actions.len() == events.len()
            &&& (actions[k] == Action::PrepareFilters || actions[k] == Action::RunFilter
                || actions[k] == Action::RunExtraction) ==> config.valid()
            &&& before == Stage::Finished ==> actions[k] == Action::Ignore
        }),
    decreases events.len(),
{
    let front = events.drop_last();
    lemma_actions_len(config, Stage::Start, events);
    if k < events.len() - 1 {
        lemma_run_is_guarded(config, front, k);
        assert(front.take(k) == events.take(k));
    } else {
        assert(events.take(k) == front);
        lemma_started_means_valid(config, front);
    }
}

/// One action for each event.
pub proof fn lemma_actions_len(config: Config, stage: Stage, events: Seq<Event>)
    ensures
        actions_of(config, stage, events).len() == events.len(),
    decreases events.len(),
{
    if events.len() > 0 {
        lemma_actions_len(config, stage, events.drop_last());
    }
}

/// A run that has left the start, and is not over, has valid settings.
pub proof fn lemma_started_means_valid(config: Config, events: Seq<Event>)
    ensures
        ({
            let stage = stage_after(config, Stage::Start, events);
            stage != Stage::Start && stage != Stage::Finished ==> config.valid()
        }),
    decreases events.len(),
{
    if events.len() > 0 {
        lemma_started_means_valid(config, events.drop_last());
    }
}

} // verus!
