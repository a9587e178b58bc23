use lester_core::{compare_text, merge_logs, SyncOp};
use serde_json::Value;

fn op(id: u128, entity: &str, entity_id: u128, field: &str, value: &str, ts: i64, device: u128) -> SyncOp {
    SyncOp {
        id,
        entity: entity.to_string(),
        entity_id,
        field: field.to_string(),
        value: Value::String(value.to_string()),
        timestamp: ts,
        device_id: device,
    }
}

fn ids(ops: &[SyncOp]) -> Vec<u128> {
    ops.iter().map(|o| o.id).collect()
}

fn sorted_ids(ops: &[SyncOp]) -> Vec<u128> {
    let mut v = ids(ops);
    v.sort();
    v
}

#[test]
fn empty_logs_merge_to_nothing() {
    let r = merge_logs(&[], &[]);
    assert!(r.merged_ops.is_empty());
    assert!(r.conflicts.is_empty());
}

#[test]
fn merge_with_empty_keeps_last_per_key() {
    let log = vec![
        op(1, "bookmark", 10, "title", "a", 5, 1),
        op(2, "bookmark", 10, "title", "b", 7, 1),
        op(3, "bookmark", 10, "url", "u", 6, 2),
        op(4, "bookmark", 10, "title", "c", 6, 2),
    ];
    let r = merge_logs(&log, &[]);
    assert_eq!(ids(&r.merged_ops), vec![3, 2]);
    assert_eq!(r.merged_ops[1].value, Value::String("b".to_string()));
    assert!(r.conflicts.is_empty());
}

#[test]
fn merge_is_symmetric_in_kept_ops() {
    let a = vec![op(1, "bookmark", 1, "title", "x", 3, 1), op(2, "tag", 2, "name", "y", 1, 1)];
    let b = vec![op(3, "bookmark", 1, "title", "z", 4, 2), op(4, "tag", 2, "name", "w", 0, 2)];
    let ab = merge_logs(&a, &b);
    let ba = merge_logs(&b, &a);
    assert_eq!(sorted_ids(&ab.merged_ops), vec![2, 3]);
    assert_eq!(sorted_ids(&ab.merged_ops), sorted_ids(&ba.merged_ops));
    assert_eq!(ids(&ab.merged_ops), vec![2, 3]);
}

#[test]
fn equal_timestamps_from_two_devices_conflict() {
    let a = vec![op(1, "bookmark", 99, "title", "from a", 5, 0xA)];
    let b = vec![op(2, "bookmark", 99, "title", "from b", 5, 0xB)];
    let r = merge_logs(&a, &b);
    assert_eq!(r.conflicts.len(), 1);
    let c = &r.conflicts[0];
    assert_eq!((c.entity.as_str(), c.entity_id, c.field.as_str()), ("bookmark", 99, "title"));
    assert_eq!((c.left.id, c.right.id), (1, 2));
    assert_eq!(ids(&r.merged_ops), vec![2]);
    let r = merge_logs(&b, &a);
    assert_eq!(r.conflicts.len(), 1);
    assert_eq!((r.conflicts[0].left.id, r.conflicts[0].right.id), (2, 1));
    assert_eq!(ids(&r.merged_ops), vec![1]);
}

#[test]
fn merging_a_log_with_itself_is_idempotent() {
    let log = vec![
        op(1, "bookmark", 1, "title", "a", 1, 1),
        op(2, "bookmark", 1, "title", "b", 2, 2),
        op(3, "workspace", 4, "name", "n", 2, 1),
    ];
    let alone = merge_logs(&log, &[]);
    let twice = merge_logs(&log, &log);
    assert_eq!(twice.merged_ops, alone.merged_ops);
    assert_eq!(ids(&twice.merged_ops), vec![2, 3]);
    assert!(twice.conflicts.is_empty());
}

#[test]
fn conflicts_come_in_key_order() {
    let a = vec![op(1, "tag", 1, "name", "a", 3, 1), op(2, "bookmark", 2, "url", "b", 9, 1)];
    let b = vec![op(3, "tag", 1, "name", "c", 3, 2), op(4, "bookmark", 2, "url", "d", 9, 2)];
    let r = merge_logs(&a, &b);
    let pairs: Vec<_> = r.conflicts.iter().map(|c| (c.left.id, c.right.id)).collect();
    assert_eq!(pairs, vec![(2, 4), (1, 3)]);
}

#[test]
fn three_way_tie_is_reported_pairwise() {
    let a = vec![op(1, "bookmark", 1, "title", "a", 4, 1), op(2, "bookmark", 1, "title", "b", 4, 2)];
    let b = vec![op(3, "bookmark", 1, "title", "c", 4, 1)];
    let r = merge_logs(&a, &b);
    let pairs: Vec<_> = r.conflicts.iter().map(|c| (c.left.id, c.right.id)).collect();
    assert_eq!(pairs, vec![(1, 2), (2, 3)]);
    assert_eq!(ids(&r.merged_ops), vec![3]);
}

#[test]
fn text_order_is_by_character() {
    assert!(compare_text("apple", "banana") < 0);
    assert!(compare_text("app", "apple") < 0);
    assert_eq!(compare_text("same", "same"), 0);
    assert!(compare_text("é", "z") > 0);
}
