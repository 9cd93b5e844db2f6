//! Client-side core of the TaskForceAI task lifecycle: the status data
//! model and its wire codec, the incremental event-stream parser, the
//! polling state machine, and the shared error taxonomy.
//!
//! Everything here is pure computation on plain values; the HTTP
//! transport that feeds it lives outside this crate.

pub mod client;
pub mod encode;
pub mod error;
pub mod json;
pub mod poll;
pub mod roundtrip;
pub mod stream;
pub mod types;

pub use error::TaskForceAIError;
pub use types::{
    ImageAttachment, SubmitTaskResponse, TaskForceAIOptions, TaskStatus, TaskStatusValue,
    TaskSubmissionOptions,
};
