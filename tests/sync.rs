use retlister::sync::{reply_outcome, LocalStore, Resto, SyncCall, SyncOperation, SyncOutcome, UpstreamReply};
use retlister::validation::AppError;

fn row(id: i64, w: i64, h: i64, material: &str, created_at: &str) -> Resto {
    Resto {
        id,
        width_mm: w,
        height_mm: h,
        thickness_mm: 18,
        material: material.to_string(),
        notes: None,
        created_at: created_at.to_string(),
    }
}

fn offline_store() -> LocalStore {
    let mut store = LocalStore::new();
    store.add_offline(600, 400, 18, "oak".to_string(), None, "2024-05-01T10:00:00Z".to_string());
    store
}

#[test]
fn offline_add_then_sync() {
    let mut store = offline_store();
    assert_eq!(store.restos.len(), 1);
    assert_eq!(store.queue.len(), 1);
    assert_eq!(store.queue[0].operation, "INSERT");
    assert!(!store.queue[0].synced);
    let local = store.restos[0].id;
    let calls = store.sync_tick(&vec![UpstreamReply::Created(42)], "2024-05-01T10:00:30Z".to_string());
    assert_eq!(calls.len(), 1);
    assert!(matches!(&calls[0], SyncCall::Insert(r) if r.id == local));
    assert!(store.queue[0].synced);
    assert_eq!(store.restos[0].id, 42);
    assert_eq!(store.last_sync_time, Some("2024-05-01T10:00:30Z".to_string()));
}

#[test]
fn id_remap_leaves_one_row_with_upstream_id() {
    let mut store = offline_store();
    store.save_row(row(100, 900, 900, "pine", "2024-04-01T00:00:00Z"));
    let local = store.queue[0].resto_id;
    store.replay(0, &UpstreamReply::Created(77));
    assert_eq!(store.restos.iter().filter(|r| r.id == 77).count(), 1);
    assert_eq!(store.restos.iter().filter(|r| r.id == local).count(), 0);
    assert_eq!(store.restos.len(), 2);
}

#[test]
fn replaying_an_insert_twice_is_idempotent() {
    let mut store = offline_store();
    store.replay(0, &UpstreamReply::Created(42));
    let first = store.restos.len();
    let retries = store.queue[0].retry_count;
    let call = store.replay(0, &UpstreamReply::Created(42));
    assert!(matches!(call, SyncCall::Skip));
    assert_eq!(store.restos.len(), first);
    assert_eq!(store.restos.iter().filter(|r| r.id == 42).count(), 1);
    assert!(store.queue[0].synced);
    assert_eq!(store.queue[0].retry_count, retries);
}

#[test]
fn retries_stop_after_three_failures() {
    let mut store = offline_store();
    for n in 1..=3 {
        let calls = store.sync_tick(&vec![UpstreamReply::Unreachable("connection refused".to_string())], "t".to_string());
        assert_eq!(calls.len(), 1);
        assert_eq!(store.queue[0].retry_count, n);
        assert_eq!(store.queue[0].last_error, Some("connection refused".to_string()));
    }
    let calls = store.sync_tick(&vec![UpstreamReply::Created(9)], "t".to_string());
    assert!(calls.is_empty());
    assert_eq!(store.queue[0].retry_count, 3);
    assert!(!store.queue[0].synced);
    assert!(store.pending().is_empty());
}

#[test]
fn server_error_status_is_a_failure_with_its_code() {
    let mut store = offline_store();
    store.replay(0, &UpstreamReply::Status(500));
    assert_eq!(store.queue[0].retry_count, 1);
    assert_eq!(store.queue[0].last_error, Some("Server returned 500".to_string()));
}

#[test]
fn delete_treats_not_found_as_done() {
    let call = SyncCall::Delete(5);
    assert!(matches!(reply_outcome(&call, &UpstreamReply::Status(404)), SyncOutcome::Done));
    assert!(matches!(reply_outcome(&call, &UpstreamReply::Status(204)), SyncOutcome::Done));
    assert!(matches!(reply_outcome(&call, &UpstreamReply::Status(503)), SyncOutcome::Failed(_)));
    let insert = SyncCall::Insert(row(3, 10, 10, "oak", ""));
    assert!(matches!(reply_outcome(&insert, &UpstreamReply::Status(404)), SyncOutcome::Failed(_)));
    assert!(matches!(reply_outcome(&insert, &UpstreamReply::Created(3)), SyncOutcome::Done));
    assert!(matches!(reply_outcome(&insert, &UpstreamReply::Created(4)), SyncOutcome::Renamed(4)));
}

#[test]
fn offline_remove_queues_a_delete() {
    let mut store = LocalStore::new();
    store.save_row(row(10, 500, 500, "oak", "2024-01-01"));
    assert!(store.remove(10, false, "now".to_string()).is_ok());
    assert!(store.restos.is_empty());
    assert_eq!(store.queue.len(), 1);
    assert_eq!(store.queue[0].operation, "DELETE");
    assert_eq!(store.queue[0].resto_id, 10);
    assert!(matches!(store.remove(10, false, "now".to_string()), Err(AppError::NotFound(_))));
    assert_eq!(store.queue.len(), 1);
}

#[test]
fn online_remove_queues_nothing() {
    let mut store = LocalStore::new();
    store.save_row(row(10, 500, 500, "oak", "2024-01-01"));
    assert!(store.remove(10, true, "now".to_string()).is_ok());
    assert!(store.restos.is_empty());
    assert!(store.queue.is_empty());
    assert!(store.remove(11, true, "now".to_string()).is_ok());
}

#[test]
fn delete_replay_is_issued_by_local_id() {
    let mut store = LocalStore::new();
    store.save_row(row(10, 500, 500, "oak", "2024-01-01"));
    store.remove(10, false, "now".to_string()).unwrap();
    let calls = store.sync_tick(&vec![UpstreamReply::Status(404)], "later".to_string());
    assert!(matches!(calls[0], SyncCall::Delete(10)));
    assert!(store.queue[0].synced);
}

#[test]
fn cache_warming_keeps_rows_with_pending_work() {
    let mut store = offline_store();
    let local = store.restos[0].id;
    store.save_row(row(50, 100, 100, "oak", "2024-01-01"));
    store.warm_cache(&vec![row(60, 700, 700, "birch", "2024-02-01")], "now".to_string());
    let ids: Vec<i64> = store.restos.iter().map(|r| r.id).collect();
    assert!(ids.contains(&local));
    assert!(!ids.contains(&50));
    assert!(ids.contains(&60));
    assert_eq!(store.last_cache_warm, Some("now".to_string()));
}

#[test]
fn local_list_is_newest_first() {
    let mut store = LocalStore::new();
    store.save_row(row(1, 100, 100, "oak", "2024-01-01T00:00:00Z"));
    store.save_row(row(2, 100, 100, "oak", "2024-03-01T00:00:00Z"));
    store.save_row(row(3, 100, 100, "oak", "2024-02-01T00:00:00Z"));
    let ids: Vec<i64> = store.list_local().iter().map(|r| r.id).collect();
    assert_eq!(ids, vec![2, 3, 1]);
}

#[test]
fn local_search_filters_and_orders_by_area() {
    let mut store = LocalStore::new();
    store.save_row(row(1, 1000, 1000, "Oak", ""));
    store.save_row(row(2, 600, 500, "oak", ""));
    store.save_row(row(3, 300, 300, "oak", ""));
    store.save_row(row(4, 800, 800, "pine", ""));
    let ids: Vec<i64> = store.search_local(400, 400, 18, &"OAK".to_string()).iter().map(|r| r.id).collect();
    assert_eq!(ids, vec![2, 1]);
}

#[test]
fn synced_entries_are_pruned_to_the_newest() {
    let mut store = LocalStore::new();
    for i in 0..1005 {
        store.enqueue(SyncOperation::Delete, i, format!("t{}", i));
        store.queue[i as usize].synced = true;
    }
    store.enqueue(SyncOperation::Insert, 5000, "t-last".to_string());
    store.finish_tick("now".to_string());
    assert_eq!(store.queue.len(), 1001);
    assert_eq!(store.queue[0].resto_id, 5);
    assert!(!store.queue[1000].synced);
}

#[test]
fn operation_names_round_trip() {
    assert_eq!(SyncOperation::Insert.name(), "INSERT");
    assert!(matches!(SyncOperation::parse(&"DELETE".to_string()), Some(SyncOperation::Delete)));
    assert!(SyncOperation::parse(&"UPSERT".to_string()).is_none());
}

#[test]
fn unknown_operation_is_skipped_and_marked_done() {
    let mut store = offline_store();
    store.queue[0].operation = "UPSERT".to_string();
    let calls = store.sync_tick(&Vec::new(), "t".to_string());
    assert!(matches!(calls[0], SyncCall::Skip));
    assert!(store.queue[0].synced);
}

#[test]
fn tick_replays_only_the_first_fifty_pending_entries() {
    let mut store = LocalStore::new();
    for i in 0..60 {
        store.enqueue(SyncOperation::Delete, i, format!("t{}", i));
    }
    let calls = store.sync_tick(&Vec::new(), "now".to_string());
    assert_eq!(calls.len(), 50);
    assert_eq!(store.queue[49].retry_count, 1);
    assert_eq!(store.queue[49].last_error, Some("no reply".to_string()));
    assert_eq!(store.queue[50].retry_count, 0);
}
