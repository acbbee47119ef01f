use koutput_reads::config::Config;
use koutput_reads::controller::Action;
use koutput_reads::controller::Event;
use koutput_reads::controller::Outcome;
use koutput_reads::controller::Stage;
use koutput_reads::controller::step;
use koutput_reads::error::ConfigField;
use koutput_reads::error::IoFault;
use koutput_reads::error::PipelineError;

fn good() -> Config {
    Config {
        classification_batch: 1000,
        read_batch: 256,
        chunk_bytes: 1 << 16,
        compression_level: 6,
        queue_depth: Some(4),
        threads: 2,
    }
}

#[test]
fn settings_in_range_are_accepted() {
    assert_eq!(good().validate(), Ok(()));
    assert_eq!(Config { queue_depth: None, ..good() }.validate(), Ok(()));
    assert_eq!(Config { compression_level: 0, ..good() }.validate(), Ok(()));
    assert_eq!(Config { compression_level: 12, ..good() }.validate(), Ok(()));
    let least = Config {
        classification_batch: 1,
        read_batch: 1,
        chunk_bytes: 1,
        compression_level: 1,
        queue_depth: Some(1),
        threads: 1,
    };
    assert_eq!(least.validate(), Ok(()));
}

#[test]
fn each_setting_out_of_range_is_named() {
    let cases = [
        (Config { compression_level: 13, ..good() }, ConfigField::CompressionLevel),
        (Config { compression_level: -1, ..good() }, ConfigField::CompressionLevel),
        (Config { classification_batch: 0, ..good() }, ConfigField::ClassificationBatch),
        (Config { read_batch: 0, ..good() }, ConfigField::ReadBatch),
        (Config { chunk_bytes: 0, ..good() }, ConfigField::ChunkBytes),
        (Config { queue_depth: Some(0), ..good() }, ConfigField::QueueDepth),
        (Config { threads: 0, ..good() }, ConfigField::Threads),
    ];
    for (config, field) in cases {
        assert_eq!(config.validate(), Err(PipelineError::InvalidConfig(field)));
    }
}

#[test]
fn compression_level_is_reported_before_any_other_setting() {
    let config = Config {
        classification_batch: 0,
        read_batch: 0,
        chunk_bytes: 0,
        compression_level: 99,
        queue_depth: Some(0),
        threads: 0,
    };
    assert_eq!(
        config.validate(),
        Err(PipelineError::InvalidConfig(ConfigField::CompressionLevel))
    );
    let next = Config { compression_level: 5, ..config };
    assert_eq!(
        next.validate(),
        Err(PipelineError::InvalidConfig(ConfigField::ClassificationBatch))
    );
}

#[test]
fn run_with_matches_goes_through_every_stage() {
    let c = good();
    let (s, a) = step(&c, Stage::Start, Event::Begin);
    assert_eq!((s, a), (Stage::Report, Action::PrepareFilters));
    let (s, a) = step(&c, s, Event::FiltersReady);
    assert_eq!((s, a), (Stage::Filter, Action::RunFilter));
    let (s, a) = step(&c, s, Event::FilterDone { matches: 17 });
    assert_eq!((s, a), (Stage::Extraction, Action::RunExtraction));
    let (s, a) = step(&c, s, Event::ExtractionDone { written: 17 });
    assert_eq!((s, a), (Stage::Finished, Action::Stop(Outcome::Retained(17))));
}

#[test]
fn empty_match_index_ends_the_run_with_success_before_extraction() {
    let c = good();
    let (s, a) = step(&c, Stage::Filter, Event::FilterDone { matches: 0 });
    assert_eq!((s, a), (Stage::Finished, Action::Stop(Outcome::NoMatches)));
    assert_eq!(step(&c, s, Event::ExtractionDone { written: 1 }), (Stage::Finished, Action::Ignore));
}

#[test]
fn illegal_compression_level_fails_the_run_at_its_first_step() {
    let c = Config { compression_level: 13, ..good() };
    let (s, a) = step(&c, Stage::Start, Event::Begin);
    assert_eq!(s, Stage::Finished);
    assert_eq!(
        a,
        Action::Stop(Outcome::Failed(PipelineError::InvalidConfig(ConfigField::CompressionLevel)))
    );
}

#[test]
fn failure_of_a_stage_ends_the_run_with_that_failure() {
    let c = good();
    let e = PipelineError::Io(IoFault::Read);
    for stage in [Stage::Report, Stage::Filter, Stage::Extraction] {
        assert_eq!(
            step(&c, stage, Event::Failed(e)),
            (Stage::Finished, Action::Stop(Outcome::Failed(e)))
        );
    }
    assert_eq!(step(&c, Stage::Start, Event::Failed(e)), (Stage::Start, Action::Ignore));
    assert_eq!(step(&c, Stage::Finished, Event::Failed(e)), (Stage::Finished, Action::Ignore));
}

#[test]
fn events_that_a_stage_does_not_wait_for_are_ignored() {
    let c = good();
    assert_eq!(step(&c, Stage::Start, Event::FiltersReady), (Stage::Start, Action::Ignore));
    assert_eq!(step(&c, Stage::Report, Event::Begin), (Stage::Report, Action::Ignore));
    assert_eq!(
        step(&c, Stage::Report, Event::FilterDone { matches: 3 }),
        (Stage::Report, Action::Ignore)
    );
    assert_eq!(
        step(&c, Stage::Filter, Event::ExtractionDone { written: 3 }),
        (Stage::Filter, Action::Ignore)
    );
    assert_eq!(step(&c, Stage::Extraction, Event::FiltersReady), (Stage::Extraction, Action::Ignore));
    assert_eq!(step(&c, Stage::Finished, Event::Begin), (Stage::Finished, Action::Ignore));
}
