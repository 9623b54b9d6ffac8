//! Pipeline decisions.
//!
//! The ingestion pipeline's and recognition pipeline's decision logic: how
//! a session begins and ends, what each failure of the external embedding
//! service means, which reply a download query gets for each session state,
//! and how a recognition match is turned into a streamable reply.  All I/O
//! around these decisions lives outside the library; every function here is
//! a total function from observed values to the next state and reply.

use vstd::prelude::*;
use vstd::string::*;
use crate::session::{
    SessionRegistry, SessionStatus, SessionView, lookup, id_index, can_step, fresh_session_id,
};
use crate::store::{VideoStore, best_of};
use crate::textfmt::{dec_digits, dec_string, filename_of, filename_component, content_disposition};

verus! {

/// Everything that can go wrong along the two pipelines.
pub enum PipelineError {
    /// A required part of the client's request is missing.
    Validation { detail: String },
    /// The external service answered with a non-success status.
    Backend { code: u16 },
    /// The external service could not be reached.
    Transport { detail: String },
    /// The external service answered success but with an incomplete body.
    Protocol { detail: String },
    /// The manifest could not be built or signed.
    Signing { detail: String },
    /// No record matched; an expected outcome, not a failure.
    NotFound,
}

/// The message a pipeline error carries.
pub open spec fn error_text(e: PipelineError) -> Seq<char> {
    match e {
        PipelineError::Validation { detail } => detail@,
        PipelineError::Backend { code } => "Failed to process video: "@ + dec_digits(code as int),
        PipelineError::Transport { detail } => detail@,
        PipelineError::Protocol { detail } => detail@,
        PipelineError::Signing { detail } => detail@,
        PipelineError::NotFound => "No matching video found"@,
    }
}

/// The HTTP status a pipeline error maps to.
pub open spec fn error_status_spec(e: PipelineError) -> int {
    match e {
        PipelineError::Validation { .. } => 400,
        PipelineError::NotFound => 404,
        _ => 500,
    }
}

/// The message a pipeline error carries.
pub fn error_message(e: &PipelineError) -> (r: String)
    ensures
        r@ == error_text(*e),
{
    match e {
        PipelineError::Validation { detail } => detail.clone(),
        PipelineError::Backend { code } => {
            let mut s = String::from_str("Failed to process video: ");
            let d = dec_string(*code as u64);
            s.append(d.as_str());
            proof {
                assert(s@ =~= error_text(*e));
            }
            s
        },
        PipelineError::Transport { detail } => detail.clone(),
        PipelineError::Protocol { detail } => detail.clone(),
        PipelineError::Signing { detail } => detail.clone(),
        PipelineError::NotFound => String::from_str("No matching video found"),
    }
}

/// The HTTP status a pipeline error maps to.
pub fn error_status(e: &PipelineError) -> (r: u16)
    ensures
        r == error_status_spec(*e),
{
    match e {
        PipelineError::Validation { .. } => 400,
        PipelineError::NotFound => 404,
        _ => 500,
    }
}

/// Judges the embedding service's response status: success passes, any
/// other status is a backend failure carrying that status code.
pub fn embed_response_check(success: bool, code: u16) -> (r: Result<(), PipelineError>)
    ensures
        (r is Ok) == success,
        !success ==> (r matches Err(e) && e == (PipelineError::Backend { code })),
{
    if success {
        Ok(())
    } else {
        Err(PipelineError::Backend { code })
    }
}

/// Judges the parts of a successful embedding response: both the
/// watermarked video and the message bits are mandatory, and the absence of
/// either is a protocol failure, not a transport one.
pub fn embed_parts_check(video_received: bool, bits_received: bool) -> (r: Result<
    (),
    PipelineError,
>)
    ensures
        (r is Ok) == (video_received && bits_received),
        !video_received ==> (r matches Err(e)
            && e matches PipelineError::Protocol { detail }
            && detail@ == "python response did not contain watermarked video"@),
        video_received && !bits_received ==> (r matches Err(e)
            && e matches PipelineError::Protocol { detail }
            && detail@ == "python response did not contain message bits"@),
{
    if !video_received {
        Err(PipelineError::Protocol {
            detail: String::from_str("python response did not contain watermarked video"),
        })
    } else if !bits_received {
        Err(PipelineError::Protocol {
            detail: String::from_str("python response did not contain message bits"),
        })
    } else {
        Ok(())
    }
}

/// Opens a session: a fresh id is drawn and registered in `Uploading`.
/// Nothing is assumed of the draw, so a collision with an id already
/// registered leaves the registry unchanged.
pub fn begin_session(reg: &mut SessionRegistry) -> (id: String)
    requires
        old(reg).wf(),
    ensures
        final(reg).wf(),
        id@.len() == 36,
        lookup(old(reg)@, id@) is Some ==> final(reg)@ == old(reg)@,
        lookup(old(reg)@, id@) is None ==> final(reg)@ == old(reg)@.push(
            (id@, SessionView { status: SessionStatus::Uploading, error: None }),
        ),
{
    let id = fresh_session_id();
    let id_copy = id.clone();
    reg.create(id_copy);
    id
}

/// Ends a session in failure: it advances to `Failed` carrying the error's
/// message.  The index is untouched.
pub fn fail_ingestion(reg: &mut SessionRegistry, id: &String, e: &PipelineError)
    requires
        old(reg).wf(),
    ensures
        final(reg).wf(),
        lookup(old(reg)@, id@) is None ==> final(reg)@ == old(reg)@,
        lookup(old(reg)@, id@) matches Some(v) && !can_step(v.status, SessionStatus::Failed)
            ==> final(reg)@ == old(reg)@,
        lookup(old(reg)@, id@) matches Some(v) && can_step(v.status, SessionStatus::Failed)
            ==> final(reg)@ == old(reg)@.update(
                id_index(old(reg)@, id@),
                (id@, SessionView {
                    status: SessionStatus::Failed,
                    error: Some(error_text(*e)),
                }),
            ),
{
    let msg = error_message(e);
    reg.advance(id, SessionStatus::Failed, Some(msg));
}

/// The message a failed session reports: its recorded error, or
/// `Unknown error` when it carries none.
pub open spec fn failure_text(v: SessionView) -> Seq<char> {
    match v.error {
        Some(m) => m,
        None => "Unknown error"@,
    }
}

/// The reply a download query gets.
pub enum DownloadPlan {
    /// Stream the signed asset as `video/mp4`.
    SendVideo,
    /// The session completed but its file is gone.
    MissingFile,
    /// The session failed; report its message.
    FailureReport { detail: String },
    /// Still uploading or processing, or the id is unknown.
    Unready,
}

/// The mathematical content of a download reply.
pub enum DownloadPlanView {
    SendVideo,
    MissingFile,
    FailureReport(Seq<char>),
    Unready,
}

impl View for DownloadPlan {
    type V = DownloadPlanView;

    open spec fn view(&self) -> DownloadPlanView {
        match self {
            DownloadPlan::SendVideo => DownloadPlanView::SendVideo,
            DownloadPlan::MissingFile => DownloadPlanView::MissingFile,
            DownloadPlan::FailureReport { detail } => DownloadPlanView::FailureReport(detail@),
            DownloadPlan::Unready => DownloadPlanView::Unready,
        }
    }
}

/// The view of the session state a download query found.
pub open spec fn opt_record_view(o: Option<&crate::session::SessionRecord>) -> Option<SessionView> {
    match o {
        Some(r) => Some(r@),
        None => None,
    }
}

/// What a download query is answered with, for every session state: a
/// completed session streams its file (or reports it missing), a failed
/// session reports its message, and everything else - an unknown id
/// included - is not ready.
pub open spec fn download_decision(v: Option<SessionView>, file_exists: bool) -> DownloadPlanView {
    match v {
        Some(sv) => match sv.status {
            SessionStatus::Completed => if file_exists {
                DownloadPlanView::SendVideo
            } else {
                DownloadPlanView::MissingFile
            },
            SessionStatus::Failed => DownloadPlanView::FailureReport(failure_text(sv)),
            _ => DownloadPlanView::Unready,
        },
        None => DownloadPlanView::Unready,
    }
}

/// The HTTP status of a download reply.
pub open spec fn download_status_spec(p: DownloadPlanView) -> int {
    match p {
        DownloadPlanView::SendVideo => 200,
        DownloadPlanView::MissingFile => 404,
        DownloadPlanView::FailureReport(..) => 500,
        DownloadPlanView::Unready => 400,
    }
}

/// The HTTP status of a download reply.
pub fn download_status_code(p: &DownloadPlan) -> (r: u16)
    ensures
        r == download_status_spec(p@),
{
    match p {
        DownloadPlan::SendVideo => 200,
        DownloadPlan::MissingFile => 404,
        DownloadPlan::FailureReport { .. } => 500,
        DownloadPlan::Unready => 400,
    }
}

/// Decides a download query from the session's state and whether the
/// asset's file exists.
pub fn download_plan(session: Option<&crate::session::SessionRecord>, file_exists: bool) -> (p:
    DownloadPlan)
    ensures
        p@ == download_decision(opt_record_view(session), file_exists),
{
    match session {
        Some(rec) => {
            match rec.status {
                SessionStatus::Completed => {
                    if file_exists {
                        DownloadPlan::SendVideo
                    } else {
                        DownloadPlan::MissingFile
                    }
                },
                SessionStatus::Failed => {
                    let detail = match &rec.error {
                        Some(m) => m.clone(),
                        None => String::from_str("Unknown error"),
                    };
                    DownloadPlan::FailureReport { detail }
                },
                _ => DownloadPlan::Unready,
            }
        },
        None => DownloadPlan::Unready,
    }
}

/// What a completed download streams as its content type.
pub fn download_content_type() -> (r: String)
    ensures
        r@ == "video/mp4"@,
{
    String::from_str("video/mp4")
}

/// The MIME type that `mime_guess` infers from a path.  The table behind
/// it is stated nowhere here: contracts speak of the result only by this
/// name.
pub uninterp spec fn mime_of(path: Seq<char>) -> Seq<char>;

/// Relies on `mime_guess::from_path`: the first MIME type guessed from the
/// path's extension, or `application/octet-stream` when none matches.  The
/// guess is a pure function of the path.
#[verifier::external_body]
fn guess_mime(path: &str) -> (r: String)
    ensures
        r@ == mime_of(path@),
{
    mime_guess::from_path(path).first_or_octet_stream().essence_str().to_owned()
}

/// A recognized asset, ready to stream back: its path, the content type
/// inferred from the path, and the attachment header naming the path's
/// final segment.
pub struct MatchReply {
    pub path: String,
    pub content_type: String,
    pub content_disposition: String,
}

/// Decides a recognition probe against the store: the nearest stored record
/// wins and is turned into a streamable reply; an empty or incompatible
/// store yields nothing.
pub fn recognize(store: &VideoStore, probe: &Vec<u32>) -> (r: Option<MatchReply>)
    ensures
        (r is None) == (best_of(store@, probe@) is None),
        r matches Some(m) ==> best_of(store@, probe@) matches Some(p)
            && m.path@ == store@[p.0].path
            && m.content_type@ == mime_of(store@[p.0].path)
            && m.content_disposition@ == "attachment; filename=\""@
                + filename_of(store@[p.0].path) + "\""@,
{
    match store.nearest(probe) {
        None => None,
        Some(rec) => {
            let content_type = guess_mime(rec.path.as_str());
            let fname = filename_component(rec.path.as_str());
            let disposition = content_disposition(fname.as_str());
            Some(MatchReply { path: rec.path, content_type, content_disposition: disposition })
        },
    }
}

} // verus!
