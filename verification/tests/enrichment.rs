use architext_viewer::enrichment::{
    advance_stages, begin_stages, Enrichment, StageAction, StageOutcome, StageState,
};

#[test]
fn each_enrichment_names_its_tool_and_what_it_gives() {
    assert_eq!(Enrichment::CodeGraph.tool_key(), "magma");
    assert_eq!(Enrichment::SlopDetection.tool_key(), "ferret");
    assert_eq!(Enrichment::SlopDetection.run_tool(), "slop-ferret");
    assert_eq!(Enrichment::SlopDetection.tool_display(), "Slop Ferret");
    assert_eq!(Enrichment::CodeGraph.heading(), "No code graph yet");
    assert!(Enrichment::CodeGraph.what_it_gives().starts_with("Code Graph renders"));
    assert!(Enrichment::SlopDetection.what_it_gives().contains("NOT checked"));
    assert!(Enrichment::CodeGraph.install_hint().starts_with("go install "));
}

#[test]
fn a_warning_is_never_shown_as_a_clean_finish() {
    assert_ne!(StageState::Partial.mark(), StageState::Done.mark());
    assert_eq!(StageState::Partial.suffix(), " (finished with a warning)");
    assert_eq!(StageState::Done.mark(), "\u{2713}");
    assert_eq!(StageState::Running.mark(), "");
    assert_eq!(StageState::Pending.css(), "pending");
    assert_eq!(StageState::Failed.suffix(), " (failed)");
}

#[test]
fn a_stage_run_walks_the_stages_and_stops_at_the_first_failure() {
    let (mut stages, action) = begin_stages(3);
    assert_eq!(stages, vec![StageState::Running, StageState::Pending, StageState::Pending]);
    assert_eq!(action, StageAction::Run(0));
    let next = advance_stages(&mut stages, 0, StageOutcome::Finished { warning: true });
    assert_eq!(next, StageAction::Run(1));
    assert_eq!(stages, vec![StageState::Partial, StageState::Running, StageState::Pending]);
    let next = advance_stages(&mut stages, 1, StageOutcome::Failed);
    assert_eq!(next, StageAction::Stop);
    assert_eq!(stages, vec![StageState::Partial, StageState::Failed, StageState::Pending]);
}

#[test]
fn a_stage_run_stops_after_the_last_stage() {
    let (mut stages, action) = begin_stages(1);
    assert_eq!(action, StageAction::Run(0));
    assert_eq!(advance_stages(&mut stages, 0, StageOutcome::Finished { warning: false }), StageAction::Stop);
    assert_eq!(stages, vec![StageState::Done]);
    let (none, action) = begin_stages(0);
    assert!(none.is_empty());
    assert_eq!(action, StageAction::Stop);
}
