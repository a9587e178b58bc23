//! What the bookmark store decides before it touches the database: input
//! checks, the records it writes, and the query that lists bookmarks.
use vstd::prelude::*;

use crate::jobs::TagJob;
use crate::models::{Bookmark, BookmarkFilter, BookmarkInput, CoreError, Workspace};
use crate::tagging::{trim, trim_of};

verus! {

/// Location of the store's database file.
#[derive(Clone, Debug)]
pub struct SqliteStore {
    path: String,
}

impl SqliteStore {
    pub closed spec fn path_view(&self) -> Seq<char> {
        self.path@
    }

    pub fn new(path: String) -> (r: SqliteStore)
        ensures
            r.path_view() == path@,
    {
        SqliteStore { path }
    }

    pub fn path(&self) -> (r: &str)
        ensures
            r@ == self.path_view(),
    {
        self.path.as_str()
    }
}

/// Name for the hyphenated text of a UUID given as a 128-bit integer.
pub uninterp spec fn uuid_text_of(id: u128) -> Seq<char>;

/// Relies on `uuid::Uuid::from_u128` and its `Display`: the hyphenated form,
/// which depends on the integer alone.
#[verifier::external_body]
pub(crate) fn uuid_text(id: u128) -> (r: String)
    ensures
        r@ == uuid_text_of(id),
{
    uuid::Uuid::from_u128(id).to_string()
}

/// A new workspace, its name trimmed; a blank name is refused.
pub fn prepare_workspace(id: u128, name: &str, now: i64) -> (r: Result<Workspace, CoreError>)
    ensures
        trim_of(name@).len() == 0 <==> r is Err,
        r matches Err(e) ==> e is InvalidInput,
        r matches Ok(w) ==> w.id == id && w.name@ == trim_of(name@) && w.created_at == now,
{
    let trimmed = trim(name);
    if trimmed.unicode_len() == 0 {
        return Err(CoreError::InvalidInput(String::from_str("workspace name is empty")));
    }
    Ok(Workspace { id, name: String::from_str(trimmed), created_at: now })
}

/// A new bookmark, its URL and title trimmed; a blank URL or title is refused.
pub fn prepare_bookmark(id: u128, input: BookmarkInput, now: i64) -> (r: Result<
    Bookmark,
    CoreError,
>)
    ensures
        (trim_of(input.url@).len() == 0 || trim_of(input.title@).len() == 0) <==> r is Err,
        r matches Err(e) ==> e is InvalidInput,
        r matches Ok(b) ==> b.id == id && b.workspace_id == input.workspace_id && b.url@ == trim_of(
            input.url@,
        ) && b.title@ == trim_of(input.title@) && b.notes == input.notes && b.created_at == now
            && b.updated_at == now,
{
    let url = trim(input.url.as_str());
    let title = trim(input.title.as_str());
    if url.unicode_len() == 0 || title.unicode_len() == 0 {
        return Err(CoreError::InvalidInput(String::from_str("bookmark url or title is empty")));
    }
    let url = String::from_str(url);
    let title = String::from_str(title);
    Ok(
        Bookmark {
            id,
            workspace_id: input.workspace_id,
            url,
            title,
            notes: input.notes,
            created_at: now,
            updated_at: now,
        },
    )
}

/// The job queued for a newly created bookmark.
pub fn prepare_tag_job(id: u128, bookmark_id: u128, now: i64) -> (r: TagJob)
    ensures
        r == TagJob::spec_new(id, bookmark_id, now),
{
    TagJob::new(id, bookmark_id, now)
}

pub open spec fn bookmark_select() -> Seq<char> {
    "SELECT DISTINCT b.id, b.workspace_id, b.url, b.title, b.notes, b.created_at, b.updated_at FROM bookmarks b"@
}

pub open spec fn tag_join() -> Seq<char> {
    " INNER JOIN bookmark_tags bt ON b.id = bt.bookmark_id INNER JOIN tags t ON bt.tag_id = t.id"@
}

/// The conditions a filter imposes, in the order tag, workspace, text.
pub open spec fn filter_conditions(f: BookmarkFilter) -> Seq<Seq<char>> {
    (if f.tag is Some {
        seq!["t.name = ?"@]
    } else {
        seq![]
    }) + (if f.workspace_id is Some {
        seq!["b.workspace_id = ?"@]
    } else {
        seq![]
    }) + (if f.query is Some {
        seq!["(b.title LIKE ? OR b.url LIKE ?)"@]
    } else {
        seq![]
    })
}

/// `parts` with `sep` between each two.
pub open spec fn joined(parts: Seq<Seq<char>>, sep: Seq<char>) -> Seq<char>
    decreases parts.len(),
{
    if parts.len() == 0 {
        seq![]
    } else if parts.len() == 1 {
        parts[0]
    } else {
        joined(parts.drop_last(), sep) + sep + parts.last()
    }
}

/// The query that lists the bookmarks a filter admits, most recently updated first.
pub open spec fn bookmark_sql(f: BookmarkFilter) -> Seq<char> {
    let conds = filter_conditions(f);
    bookmark_select() + (if f.tag is Some {
        tag_join()
    } else {
        seq![]
    }) + (if conds.len() > 0 {
        " WHERE "@ + joined(conds, " AND "@)
    } else {
        seq![]
    }) + " ORDER BY b.updated_at DESC"@
}

/// The values bound to the query's placeholders, in order.
pub open spec fn bookmark_params(f: BookmarkFilter) -> Seq<Seq<char>> {
    (match f.tag {
        Some(t) => seq![t@],
        None => seq![],
    }) + (match f.workspace_id {
        Some(w) => seq![uuid_text_of(w)],
        None => seq![],
    }) + (match f.query {
        Some(q) => seq!["%"@ + q@ + "%"@, "%"@ + q@ + "%"@],
        None => seq![],
    })
}

pub open spec fn str_views(v: Seq<&str>) -> Seq<Seq<char>> {
    v.map_values(|s: &str| s@)
}

/// The query text and its bound values that list the bookmarks a filter admits.
pub fn bookmark_query(filter: &BookmarkFilter) -> (r: (String, Vec<String>))
    ensures
        r.0@ == bookmark_sql(*filter),
        r.1@.map_values(|s: String| s@) == bookmark_params(*filter),
{
    let mut sql = String::from_str(
        "SELECT DISTINCT b.id, b.workspace_id, b.url, b.title, b.notes, b.created_at, b.updated_at FROM bookmarks b",
    );
    let mut conds: Vec<&str> = Vec::new();
    let mut params: Vec<String> = Vec::new();
    if let Some(tag) = &filter.tag {
        sql.append(
            " INNER JOIN bookmark_tags bt ON b.id = bt.bookmark_id INNER JOIN tags t ON bt.tag_id = t.id",
        );
        conds.push("t.name = ?");
        params.push(tag.clone());
    }
    if let Some(workspace_id) = filter.workspace_id {
        conds.push("b.workspace_id = ?");
        params.push(uuid_text(workspace_id));
    }
    if let Some(query) = &filter.query {
        let mut needle = String::from_str("%");
        needle.append(query.as_str());
        needle.append("%");
        conds.push("(b.title LIKE ? OR b.url LIKE ?)");
        params.push(needle.clone());
        params.push(needle);
    }
    proof {
        assert(str_views(conds@) =~= filter_conditions(*filter));
        assert(params@.map_values(|s: String| s@) =~= bookmark_params(*filter));
    }
    let ghost head = sql@;
    if conds.len() > 0 {
        sql.append(" WHERE ");
        sql.append(conds[0]);
        proof {
            assert(str_views(conds@.take(1)) =~= seq![conds@[0]@]);
        }
        let mut i: usize = 1;
        while i < conds.len()
            invariant
                1 <= i <= conds.len(),
                sql@ == head + " WHERE "@ + joined(str_views(conds@.take(i as int)), " AND "@),
            decreases conds.len() - i,
        {
            sql.append(" AND ");
            sql.append(conds[i]);
            proof {
                let t = str_views(conds@.take(i + 1));
                assert(t.drop_last() =~= str_views(conds@.take(i as int)));
                assert(t.last() == conds@[i as int]@);
            }
            i = i + 1;
        }
        proof {
            assert(conds@.take(conds.len() as int) =~= conds@);
        }
    }
    sql.append(" ORDER BY b.updated_at DESC");
    proof {
        let conds_v = filter_conditions(*filter);
        if conds_v.len() > 0 {
            assert(sql@ =~= bookmark_sql(*filter));
        } else {
            assert(sql@ =~= bookmark_sql(*filter));
        }
    }
    (sql, params)
}

} // verus!
