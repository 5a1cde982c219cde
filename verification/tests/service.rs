use auris::api::cors_policy;
use auris::api::health::HealthResponse;
use auris::api::tracks::{object_key, page_bounds, required_upload_fields};
use auris::errors::AppError;
use auris::models::jobs::JobStatus;
use auris::models::tracks::TrackStatus;
use auris::storage::{check_download_size, DownloadRefusal};
use auris::worker::workflow::{next_action, FetchOutcome, ProcessingStage, WorkerAction};

#[test]
fn health_report() {
    let up = HealthResponse::from_checks(true, true, "1.0");
    assert_eq!((up.status.as_str(), up.database.as_str(), up.s3.as_str()), ("ok", "up", "up"));
    let down = HealthResponse::from_checks(true, false, "1.0");
    assert_eq!((down.status.as_str(), down.database.as_str(), down.s3.as_str()), ("unhealthy", "up", "down"));
}

#[test]
fn pagination_bounds() {
    assert_eq!(page_bounds(None, None), (10, 0));
    assert_eq!(page_bounds(Some(3), Some(20)), (20, 40));
    assert_eq!(page_bounds(Some(-5), Some(1000)), (100, 0));
    assert_eq!(page_bounds(Some(2), Some(0)), (1, 1));
}

#[test]
fn cors_policy_never_combines_any_origin_with_credentials() {
    let p = cors_policy(0, true);
    assert!(p.any_origin && !p.allow_credentials);
    let p = cors_policy(2, true);
    assert!(!p.any_origin && p.allow_credentials);
    let p = cors_policy(2, false);
    assert!(!p.any_origin && !p.allow_credentials);
}

#[test]
fn status_labels() {
    assert_eq!(JobStatus::Queued.label(), "queued");
    assert_eq!(JobStatus::Failed.label(), "failed");
    assert_eq!(TrackStatus::Fingerprinting.label(), "fingerprinting");
    assert_eq!(TrackStatus::Ready.label(), "ready");
}

#[test]
fn download_size_rules() {
    assert_eq!(check_download_size(None, 10), Err(DownloadRefusal::UnknownLength));
    assert_eq!(check_download_size(Some(10), 10), Ok(()));
    assert_eq!(check_download_size(Some(11), 10), Err(DownloadRefusal::TooLarge));
    assert_eq!(check_download_size(Some(-1), 10), Err(DownloadRefusal::TooLarge));
}

#[test]
fn worker_decisions_and_progress() {
    assert_eq!(next_action(FetchOutcome::Claimed), WorkerAction::Process);
    assert_eq!(next_action(FetchOutcome::Empty), WorkerAction::Sleep(2));
    assert_eq!(next_action(FetchOutcome::Failed), WorkerAction::Sleep(5));
    let mut stage = ProcessingStage::Claimed;
    let mut last = 0;
    loop {
        let notice = stage.notice();
        assert!(notice.progress > last);
        last = notice.progress;
        match stage.next() {
            Some(next) => stage = next,
            None => break,
        }
    }
    assert_eq!(last, 100);
    assert_eq!(stage.notice().status, "completed");
    assert_eq!(stage.notice().message, "Fingerprinting completed successfully");
    assert_eq!(ProcessingStage::Decoded.notice().message, "Audio decoded successfully");
    assert_eq!(ProcessingStage::Decoded.notice().progress, 40);
}

#[test]
fn upload_fields_and_object_key() {
    assert_eq!(
        required_upload_fields(None, true),
        Err(AppError::Validation("Title is required".to_string()))
    );
    assert_eq!(
        required_upload_fields(Some("Song".to_string()), false),
        Err(AppError::Validation("Audio file is required".to_string()))
    );
    assert_eq!(required_upload_fields(Some("Song".to_string()), true), Ok("Song".to_string()));
    assert_eq!(
        object_key(0x67e55044_10b1_426f_9247_bb680e5fe0c8, "mp3"),
        "tracks/67e55044-10b1-426f-9247-bb680e5fe0c8/original.mp3"
    );
}
