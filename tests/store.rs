use lester_core::{bookmark_query, prepare_bookmark, prepare_tag_job, prepare_workspace, BookmarkFilter, BookmarkInput, CoreError, SqliteStore, TagJobStatus};

#[test]
fn store_keeps_its_path() {
    let store = SqliteStore::new("lester.db".to_string());
    assert_eq!(store.path(), "lester.db");
}

#[test]
fn workspace_name_is_trimmed_or_refused() {
    let w = prepare_workspace(5, "  Research \n", 42).unwrap();
    assert_eq!(w.name, "Research");
    assert_eq!(w.id, 5);
    assert_eq!(w.created_at, 42);
    assert!(matches!(prepare_workspace(5, " \t ", 42), Err(CoreError::InvalidInput(_))));
}

#[test]
fn bookmark_fields_are_trimmed_or_refused() {
    let input = BookmarkInput {
        workspace_id: 3,
        url: " https://example.com ".to_string(),
        title: "Example ".to_string(),
        notes: Some("n".to_string()),
    };
    let b = prepare_bookmark(9, input.clone(), 10).unwrap();
    assert_eq!(b.url, "https://example.com");
    assert_eq!(b.title, "Example");
    assert_eq!(b.notes, Some("n".to_string()));
    assert_eq!((b.created_at, b.updated_at), (10, 10));
    let blank = BookmarkInput { title: "  ".to_string(), ..input.clone() };
    assert!(matches!(prepare_bookmark(9, blank, 10), Err(CoreError::InvalidInput(_))));
    let blank = BookmarkInput { url: String::new(), ..input };
    assert!(matches!(prepare_bookmark(9, blank, 10), Err(CoreError::InvalidInput(_))));
}

#[test]
fn new_job_is_pending() {
    let j = prepare_tag_job(1, 2, 3);
    assert_eq!(j.status, TagJobStatus::Pending);
    assert_eq!(j.attempts, 0);
    assert_eq!((j.created_at, j.updated_at), (3, 3));
}

#[test]
fn unfiltered_bookmark_query() {
    let (sql, params) = bookmark_query(&BookmarkFilter { workspace_id: None, tag: None, query: None });
    assert_eq!(
        sql,
        "SELECT DISTINCT b.id, b.workspace_id, b.url, b.title, b.notes, b.created_at, b.updated_at FROM bookmarks b ORDER BY b.updated_at DESC"
    );
    assert!(params.is_empty());
}

#[test]
fn fully_filtered_bookmark_query() {
    let ws = 0x67e5504410b1426f9247bb680e5fe0c8u128;
    let (sql, params) = bookmark_query(&BookmarkFilter {
        workspace_id: Some(ws),
        tag: Some("rust".to_string()),
        query: Some("verus".to_string()),
    });
    assert_eq!(
        sql,
        "SELECT DISTINCT b.id, b.workspace_id, b.url, b.title, b.notes, b.created_at, b.updated_at FROM bookmarks b INNER JOIN bookmark_tags bt ON b.id = bt.bookmark_id INNER JOIN tags t ON bt.tag_id = t.id WHERE t.name = ? AND b.workspace_id = ? AND (b.title LIKE ? OR b.url LIKE ?) ORDER BY b.updated_at DESC"
    );
    assert_eq!(
        params,
        vec!["rust", "67e55044-10b1-426f-9247-bb680e5fe0c8", "%verus%", "%verus%"]
    );
}

#[test]
fn query_only_filter() {
    let (sql, params) = bookmark_query(&BookmarkFilter { workspace_id: None, tag: None, query: Some("x".to_string()) });
    assert!(sql.ends_with(" FROM bookmarks b WHERE (b.title LIKE ? OR b.url LIKE ?) ORDER BY b.updated_at DESC"));
    assert_eq!(params, vec!["%x%", "%x%"]);
}
