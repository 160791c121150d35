use orca_bot::job::{advance, stage_is_final, FailedStage, Stage};

#[test]
fn happy_path_reaches_logged() {
    let mut s = Stage::Received;
    for expected in [Stage::Validated, Stage::RateChecked, Stage::Replayed, Stage::Encoded, Stage::Posted, Stage::Logged] {
        s = advance(s, true, true);
        assert_eq!(s, expected);
    }
    assert!(stage_is_final(s));
}

#[test]
fn failures_and_denials() {
    assert_eq!(advance(Stage::Received, false, true), Stage::Failed(FailedStage::Validate));
    assert_eq!(advance(Stage::Validated, false, true), Stage::Suppressed);
    assert_eq!(advance(Stage::RateChecked, false, true), Stage::Failed(FailedStage::Replay));
    assert_eq!(advance(Stage::Replayed, false, true), Stage::Failed(FailedStage::Encode));
    assert_eq!(advance(Stage::Encoded, false, true), Stage::Failed(FailedStage::Post));
    assert_eq!(advance(Stage::Encoded, true, false), Stage::Suppressed);
}

#[test]
fn final_stages_stay() {
    for s in [Stage::Suppressed, Stage::Logged, Stage::Failed(FailedStage::Replay)] {
        assert!(stage_is_final(s));
        assert_eq!(advance(s, true, true), s);
        assert_eq!(advance(s, false, false), s);
    }
    assert!(!stage_is_final(Stage::Received));
    assert!(!stage_is_final(Stage::Posted));
}

#[test]
fn reply_names_the_requester() {
    assert_eq!(orca_bot::job::reply_text("ana@x.org"), "I ran @ana@x.org's program and here's the result!");
}
