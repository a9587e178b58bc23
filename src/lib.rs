//! Bookmark tagging pipeline and multi-device operation-log merging.
pub mod jobs;
pub mod models;
pub mod store;
pub mod sync;
pub mod sync_laws;
pub mod tagging;
pub mod text;
pub mod worker;

pub use jobs::{lemma_job_lifecycle, TagJob, TagJobStatus};
pub use models::{
    Bookmark, BookmarkFilter, BookmarkInput, BookmarkTag, CoreError, Tag, Workspace, WorkspaceInput,
};
pub use store::{bookmark_query, prepare_bookmark, prepare_tag_job, prepare_workspace, SqliteStore};
pub use sync::{lemma_scan_order_unique, merge_logs, MergeResult, SyncConflict, SyncEnvelope, SyncOp};
pub use sync_laws::{
    lemma_conflict_instants_symmetric, lemma_merge_symmetric, lemma_merge_with_empty,
    lemma_merge_with_itself, lemma_simultaneous_edits_conflict,
};
pub use tagging::{
    host_from_trimmed, lemma_keywords_filtered, lemma_one_domain_suggestion, rescale_for_llm,
    TagSource, TagSuggestion, TaggingRules,
};
pub use text::{chars_lt, compare_text};
pub use worker::{after_batch, after_fetch, plan_job, JobPlan, LoopAction};
