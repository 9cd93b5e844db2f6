//! The task status data model and the configuration/option records that
//! callers hand to the client.

use vstd::prelude::*;

verus! {

/// Lifecycle tag of a task: a closed three-state enumeration. Decoding
/// any other tag from the wire is a parse error.
#[derive(Debug, Clone, Copy, PartialEq, Eq, Structural)]
pub enum TaskStatusValue {
    Processing,
    Completed,
    Failed,
}

/// One key/value pair of the opaque metadata map attached to a status.
/// The value is carried as raw JSON text and never interpreted here.
#[derive(Debug, Clone)]
pub struct MetadataEntry {
    pub key: String,
    pub value: String,
}

/// Mathematical mirror of [`MetadataEntry`].
#[verifier::ext_equal]
pub ghost struct MetadataEntryView {
    pub key: Seq<char>,
    pub value: Seq<char>,
}

/// The views of a sequence of metadata entries.
pub open spec fn meta_seq_view(m: Seq<MetadataEntry>) -> Seq<MetadataEntryView> {
    Seq::new(m.len(), |i: int| m[i]@)
}

impl View for MetadataEntry {
    type V = MetadataEntryView;

    open spec fn view(&self) -> MetadataEntryView {
        MetadataEntryView { key: self.key@, value: self.value@ }
    }
}

/// The authoritative snapshot of one task at one instant.
#[derive(Debug, Clone)]
pub struct TaskStatus {
    /// Opaque identifier, stable for the task's lifetime.
    pub task_id: String,
    /// Lifecycle tag.
    pub status: TaskStatusValue,
    /// Free-form result text; meaningful when the task completed.
    pub result: Option<String>,
    /// Free-form error text; meaningful when the task failed.
    pub error: Option<String>,
    /// Optional ordered advisory strings; do not affect the lifecycle.
    pub warnings: Option<Vec<String>>,
    /// Optional opaque key/value pairs, passed through untouched.
    pub metadata: Option<Vec<MetadataEntry>>,
}

/// Mathematical mirror of [`TaskStatus`].
#[verifier::ext_equal]
pub ghost struct TaskStatusView {
    pub task_id: Seq<char>,
    pub status: TaskStatusValue,
    pub result: Option<Seq<char>>,
    pub error: Option<Seq<char>>,
    pub warnings: Option<Seq<Seq<char>>>,
    pub metadata: Option<Seq<MetadataEntryView>>,
}

impl View for TaskStatus {
    type V = TaskStatusView;

    open spec fn view(&self) -> TaskStatusView {
        TaskStatusView {
            task_id: self.task_id@,
            status: self.status,
            result: match self.result {
                Some(s) => Some(s@),
                None => None,
            },
            error: match self.error {
                Some(s) => Some(s@),
                None => None,
            },
            warnings: match self.warnings {
                Some(w) => Some(w.deep_view()),
                None => None,
            },
            metadata: match self.metadata {
                Some(m) => Some(meta_seq_view(m@)),
                None => None,
            },
        }
    }
}

/// Response to a task submission: the identifier of the new task.
#[derive(Debug, Clone)]
pub struct SubmitTaskResponse {
    pub task_id: String,
}

/// Options for constructing a client; every field has a default.
#[derive(Debug, Clone)]
pub struct TaskForceAIOptions {
    pub api_key: Option<String>,
    pub base_url: Option<String>,
    pub timeout: Option<u64>,
    pub mock_mode: Option<bool>,
}

impl Default for TaskForceAIOptions {
    fn default() -> (r: Self)
        ensures
            r.api_key is None,
            r.base_url is None,
            r.timeout is None,
            r.mock_mode is None,
    {
        TaskForceAIOptions { api_key: None, base_url: None, timeout: None, mock_mode: None }
    }
}

/// A base64-encoded image attachment to include with a task prompt.
#[derive(Debug, Clone)]
pub struct ImageAttachment {
    /// Base64-encoded image data.
    pub data: String,
    /// Image MIME type (e.g. "image/jpeg", "image/png").
    pub mime_type: String,
    /// Optional filename.
    pub name: Option<String>,
}

/// Options accompanying a task submission. `additional_options` carries
/// opaque extra key/value pairs, the value again as raw JSON text.
#[derive(Debug, Clone)]
pub struct TaskSubmissionOptions {
    pub model_id: Option<String>,
    pub silent: Option<bool>,
    pub mock: Option<bool>,
    pub vercel_ai_key: Option<String>,
    /// Image attachments to include with the prompt.
    pub images: Option<Vec<ImageAttachment>>,
    pub additional_options: Vec<MetadataEntry>,
}

impl Default for TaskSubmissionOptions {
    fn default() -> (r: Self)
        ensures
            r.model_id is None,
            r.silent is None,
            r.mock is None,
            r.vercel_ai_key is None,
            r.images is None,
            r.additional_options@.len() == 0,
    {
        TaskSubmissionOptions {
            model_id: None,
            silent: None,
            mock: None,
            vercel_ai_key: None,
            images: None,
            additional_options: Vec::new(),
        }
    }
}

/// Options for uploading a file.
#[derive(Debug, Clone)]
pub struct FileUploadOptions {
    pub purpose: Option<String>,
    pub mime_type: Option<String>,
}

impl Default for FileUploadOptions {
    fn default() -> (r: Self)
        ensures
            r.purpose is None,
            r.mime_type is None,
    {
        FileUploadOptions { purpose: None, mime_type: None }
    }
}

/// Response from running a prompt within a thread.
#[derive(Debug, Clone)]
pub struct ThreadRunResponse {
    pub task_id: String,
    pub thread_id: i64,
    pub message_id: i64,
}

} // verus!
