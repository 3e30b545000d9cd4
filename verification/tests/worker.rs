use tessera_slate::worker::{ExitStatus, WorkerOutcome};

#[test]
fn worker_ends_with_a_status_and_a_line() {
    let bad = WorkerOutcome::InvalidArguments("missing --region".to_string());
    assert_eq!(bad.status(), ExitStatus::Code(2));
    assert_eq!(
        bad.complaint().unwrap(),
        "tessera-sink-worker: invalid arguments: missing --region"
    );
    let failed = WorkerOutcome::Failed("disk full".to_string());
    assert_eq!(failed.status(), ExitStatus::Failure);
    assert_eq!(failed.complaint().unwrap(), "tessera-sink-worker: disk full");
    assert_eq!(WorkerOutcome::Finished.status(), ExitStatus::Success);
    assert!(WorkerOutcome::Finished.complaint().is_none());
}
