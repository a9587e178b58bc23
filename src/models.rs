//! Records of the bookmark store. Identifiers are UUIDs as 128-bit integers;
//! times are seconds since the epoch.
use vstd::prelude::*;

use crate::tagging::TagSource;

verus! {

#[derive(Clone, Debug, PartialEq, Eq)]
pub struct Workspace {
    pub id: u128,
    pub name: String,
    pub created_at: i64,
}

#[derive(Clone, Debug, PartialEq, Eq)]
pub struct Bookmark {
    pub id: u128,
    pub workspace_id: u128,
    pub url: String,
    pub title: String,
    pub notes: Option<String>,
    pub created_at: i64,
    pub updated_at: i64,
}

#[derive(Clone, Debug, PartialEq, Eq)]
pub struct Tag {
    pub id: u128,
    pub name: String,
    pub created_at: i64,
}

/// A tag attached to a bookmark; `confidence` is in thousandths.
#[derive(Clone, Debug, PartialEq, Eq)]
pub struct BookmarkTag {
    pub bookmark_id: u128,
    pub tag_id: u128,
    pub confidence: u32,
    pub source: TagSource,
    pub created_at: i64,
}

#[derive(Clone, Debug, PartialEq, Eq)]
pub struct BookmarkInput {
    pub workspace_id: u128,
    pub url: String,
    pub title: String,
    pub notes: Option<String>,
}

#[derive(Clone, Debug, PartialEq, Eq)]
pub struct WorkspaceInput {
    pub name: String,
}

/// Which bookmarks to list; an absent part does not filter.
#[derive(Clone, Debug, PartialEq, Eq)]
pub struct BookmarkFilter {
    pub workspace_id: Option<u128>,
    pub tag: Option<String>,
    pub query: Option<String>,
}

/// Errors of the library's operations.
#[derive(Clone, Debug, PartialEq, Eq)]
pub enum CoreError {
    Database(String),
    Serialization(String),
    NotFound,
    InvalidInput(String),
}

} // verus!
