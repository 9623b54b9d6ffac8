use watermark_gateway::pipeline::{
    begin_session, download_content_type, download_plan, download_status_code,
    embed_parts_check, embed_response_check, error_message, error_status, fail_ingestion,
    recognize, DownloadPlan, PipelineError,
};
use watermark_gateway::session::{SessionRegistry, SessionStatus};
use watermark_gateway::store::{VideoRecord, VideoStore};
use watermark_gateway::textfmt::processed_video_path;

const EMBEDDED: [u32; 4] = [900_000, 100_000, 800_000, 200_000];
const EXTRACTED: [u32; 4] = [910_000, 120_000, 790_000, 180_000];

#[test]
fn successful_ingestion_completes_and_downloads() {
    let mut reg = SessionRegistry::new();
    let mut store = VideoStore::new();

    let id = begin_session(&mut reg);
    assert_eq!(id.len(), 36);
    assert_eq!(reg.get(&id).unwrap().status, SessionStatus::Uploading);

    // The upload body is captured; the embedding service answers success.
    reg.advance(&id, SessionStatus::Processing, None);
    assert!(embed_response_check(true, 200).is_ok());
    assert!(embed_parts_check(true, true).is_ok());

    let path = processed_video_path(&id);
    let key = store.insert_record(VideoRecord {
        path: path.clone(),
        message_bits: EMBEDDED.to_vec(),
    });
    assert_eq!(key, "a000");
    // The snapshot is written here, before the session is marked completed.
    let _snapshot = store.snapshot();
    reg.advance(&id, SessionStatus::Completed, None);

    let rec = reg.get(&id).unwrap();
    assert_eq!(rec.status, SessionStatus::Completed);
    assert_eq!(rec.error, None);

    let plan = download_plan(Some(&rec), true);
    assert!(matches!(plan, DownloadPlan::SendVideo));
    assert_eq!(download_status_code(&plan), 200);
    assert_eq!(download_content_type(), "video/mp4");

    let missing = download_plan(Some(&rec), false);
    assert!(matches!(missing, DownloadPlan::MissingFile));
    assert_eq!(download_status_code(&missing), 404);
}

#[test]
fn backend_error_fails_session_with_status_code_message() {
    let mut reg = SessionRegistry::new();
    let id = begin_session(&mut reg);
    reg.advance(&id, SessionStatus::Processing, None);

    let err = embed_response_check(false, 503).unwrap_err();
    assert!(matches!(err, PipelineError::Backend { code: 503 }));
    assert_eq!(error_message(&err), "Failed to process video: 503");
    assert_eq!(error_status(&err), 500);

    fail_ingestion(&mut reg, &id, &err);
    let rec = reg.get(&id).unwrap();
    assert_eq!(rec.status, SessionStatus::Failed);
    assert_eq!(rec.error.as_deref(), Some("Failed to process video: 503"));

    let plan = download_plan(Some(&rec), true);
    match plan {
        DownloadPlan::FailureReport { ref detail } => {
            assert_eq!(detail, "Failed to process video: 503");
        }
        _ => panic!("a failed session reports its message"),
    }
    assert_eq!(download_status_code(&plan), 500);
}

#[test]
fn protocol_errors_name_the_missing_part() {
    let err = embed_parts_check(false, true).unwrap_err();
    assert_eq!(
        error_message(&err),
        "python response did not contain watermarked video"
    );
    let err = embed_parts_check(true, false).unwrap_err();
    assert_eq!(error_message(&err), "python response did not contain message bits");
    assert_eq!(error_status(&err), 500);
}

#[test]
fn noisy_probe_recognizes_ingested_asset() {
    let mut reg = SessionRegistry::new();
    let mut store = VideoStore::new();
    let id = begin_session(&mut reg);
    reg.advance(&id, SessionStatus::Processing, None);
    let path = processed_video_path(&id);
    store.insert_record(VideoRecord { path: path.clone(), message_bits: EMBEDDED.to_vec() });
    reg.advance(&id, SessionStatus::Completed, None);

    let reply = recognize(&store, &EXTRACTED.to_vec()).expect("the stored vector is nearest");
    assert_eq!(reply.path, path);
    assert_eq!(reply.content_type, "video/mp4");
    assert_eq!(
        reply.content_disposition,
        format!("attachment; filename=\"{}.mp4\"", id)
    );
}

#[test]
fn analyze_on_empty_store_reports_no_match() {
    let store = VideoStore::new();
    assert!(recognize(&store, &EXTRACTED.to_vec()).is_none());
    let err = PipelineError::NotFound;
    assert_eq!(error_message(&err), "No matching video found");
    assert_eq!(error_status(&err), 404);
}

#[test]
fn missing_video_part_is_a_validation_error() {
    let err = PipelineError::Validation { detail: "No video file found".to_string() };
    assert_eq!(error_message(&err), "No video file found");
    assert_eq!(error_status(&err), 400);
}

#[test]
fn recognition_survives_restart_through_snapshot() {
    let mut reg = SessionRegistry::new();
    let mut store = VideoStore::new();
    let id = begin_session(&mut reg);
    reg.advance(&id, SessionStatus::Processing, None);
    let path = processed_video_path(&id);
    store.insert_record(VideoRecord { path: path.clone(), message_bits: EMBEDDED.to_vec() });
    reg.advance(&id, SessionStatus::Completed, None);

    // The process restarts: only the persisted snapshot survives.
    let snap = store.snapshot();
    drop(store);
    let store = VideoStore::restore(&snap);

    let reply = recognize(&store, &EXTRACTED.to_vec()).expect("the match survived the restart");
    assert_eq!(reply.path, path);
}

#[test]
fn download_plan_of_unready_and_unknown_sessions() {
    let mut reg = SessionRegistry::new();
    let id = begin_session(&mut reg);
    let rec = reg.get(&id).unwrap();
    let plan = download_plan(Some(&rec), true);
    assert!(matches!(plan, DownloadPlan::Unready));
    assert_eq!(download_status_code(&plan), 400);

    let unknown = download_plan(None, true);
    assert!(matches!(unknown, DownloadPlan::Unready));
    assert_eq!(download_status_code(&unknown), 400);
}
