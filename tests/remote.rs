use spectree::copr::{
    extract_copr_build_id, remote_step, status_after_watch, BuildIdError, CoprBuildState, CoprBuildStatus,
    CoprStateFile, RemoteStep,
};
use spectree::keys::{BuildHash, BuildKey, SourceKey};

fn bk(k: &str, h: &str) -> BuildKey {
    BuildKey::new(SourceKey::new(k.to_string()), BuildHash::new(h.to_string()))
}

fn state(key: &BuildKey, id: u64, status: CoprBuildStatus) -> CoprBuildState {
    CoprBuildState { build_key: key.build_dir_name(), build_id: id, status }
}

#[test]
fn build_id_is_read_from_output() {
    let out = "Uploading package\nCreated builds: 4242\nWatching...";
    assert_eq!(extract_copr_build_id(out).unwrap(), 4242);
}

#[test]
fn build_id_is_trimmed() {
    assert_eq!(extract_copr_build_id("Created builds:   77  \n").unwrap(), 77);
    assert_eq!(extract_copr_build_id("Created builds: \u{3000}78\t").unwrap(), 78);
}

#[test]
fn first_build_line_counts() {
    assert_eq!(extract_copr_build_id("Created builds: 1\nCreated builds: 2").unwrap(), 1);
}

#[test]
fn missing_build_line_is_an_error() {
    assert!(matches!(extract_copr_build_id("nothing here"), Err(BuildIdError::NoBuildLine)));
}

#[test]
fn bad_build_id_is_an_error() {
    match extract_copr_build_id("Created builds: 12 34") {
        Err(BuildIdError::InvalidBuildId(t)) => assert_eq!(t, "12 34"),
        other => panic!("unexpected {:?}", other),
    }
    assert!(matches!(extract_copr_build_id("Created builds: 99999999999999999999"), Err(BuildIdError::InvalidBuildId(_))));
}

#[test]
fn state_file_records_and_replaces() {
    let mut f = CoprStateFile::new();
    let x = bk("x", "h");
    assert!(f.get_build_state(&x).is_none());
    f.set_build_state(&x, state(&x, 1, CoprBuildStatus::Submitted));
    f.set_build_state(&x, state(&x, 2, CoprBuildStatus::Submitted));
    let got = f.get_build_state(&x).unwrap();
    assert_eq!(got.build_id, 2);
    assert_eq!(got.build_key, "x-h");
    assert_eq!(f.builds.len(), 1);
}

#[test]
fn state_file_keeps_all_builds() {
    let mut f = CoprStateFile::new();
    let a = bk("a", "1");
    let b = bk("b", "2");
    f.set_build_state(&a, state(&a, 10, CoprBuildStatus::Completed));
    f.set_build_state(&b, state(&b, 20, CoprBuildStatus::Failed));
    assert_eq!(f.get_build_state(&a).unwrap().build_id, 10);
    assert_eq!(f.get_build_state(&b).unwrap().status, CoprBuildStatus::Failed);
}

#[test]
fn status_transitions() {
    let mut f = CoprStateFile::new();
    let x = bk("x", "h");
    f.set_status(&x, CoprBuildStatus::InProgress);
    assert!(f.get_build_state(&x).is_none());
    f.set_build_state(&x, state(&x, 42, CoprBuildStatus::Submitted));
    f.set_status(&x, CoprBuildStatus::InProgress);
    assert_eq!(f.get_build_state(&x).unwrap().status, CoprBuildStatus::InProgress);
    f.set_status(&x, status_after_watch(true));
    assert_eq!(f.get_build_state(&x).unwrap().status, CoprBuildStatus::Completed);
    assert_eq!(status_after_watch(false), CoprBuildStatus::Failed);
}

#[test]
fn resume_waits_for_recorded_build() {
    let x = bk("X", "h");
    let s = state(&x, 42, CoprBuildStatus::InProgress);
    assert_eq!(remote_step(Some(&s)), RemoteStep::WaitFor(42));
    let s = state(&x, 42, CoprBuildStatus::Submitted);
    assert_eq!(remote_step(Some(&s)), RemoteStep::WaitFor(42));
    let s = state(&x, 42, CoprBuildStatus::Completed);
    assert_eq!(remote_step(Some(&s)), RemoteStep::AlreadyCompleted);
    let s = state(&x, 42, CoprBuildStatus::Failed);
    assert_eq!(remote_step(Some(&s)), RemoteStep::Submit);
    assert_eq!(remote_step(None), RemoteStep::Submit);
}
