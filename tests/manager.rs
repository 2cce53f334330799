use yellow::layout::SurfaceMove;
use yellow::manager::{Config, NotificationManager, NotifyError};
use yellow::notification::Notification;
use yellow::orchestrator::Action;

fn config(max_windows: usize) -> Config {
    Config {
        max_windows,
        width: 400,
        height: 500,
        margin: 10,
        max_history_size: 100,
        cleanup_interval_ms: 60000,
        purge_undisplayed: false,
    }
}

fn record(id: &str) -> Notification {
    Notification::new(id.to_string(), "title".to_string(), "body".to_string(), 5, "info".to_string())
}

fn placed_surface(a: &Action) -> String {
    match a {
        Action::Create { surface, .. } | Action::Show { surface, .. } => surface.clone(),
        _ => panic!("expected a surface to be placed"),
    }
}

fn created_surface(a: &Action) -> String {
    match a {
        Action::Create { surface, .. } => surface.clone(),
        _ => panic!("expected a Create action"),
    }
}

#[test]
fn cap_of_two_leaves_one_pending() {
    let mut m = NotificationManager::with_config(config(2));
    let mut created = 0;
    for _ in 0..3 {
        m.create("t".to_string(), "m".to_string(), None, None, 1).unwrap();
        if let Action::Create { .. } = m.on_new_notification(1000) {
            created += 1;
        }
    }
    assert_eq!(created, 2);
    assert_eq!(m.pending.len(), 3);
    let waiting = m.next_unassigned().expect("one record waits");
    assert_eq!(waiting.id, m.pending[2].id);
    let status = m.pool_status();
    assert_eq!(status.pooled_count, 0);
    assert_eq!(status.total_count, 2);
    assert_eq!(status.max_windows, 2);
    assert!(matches!(m.on_new_notification(1000), Action::Wait));
}

#[test]
fn close_hands_surface_to_next_pending() {
    let mut m = NotificationManager::with_config(config(1));
    m.enqueue(record("x"), 1).unwrap();
    let surface = created_surface(&m.on_new_notification(1000));
    assert_eq!(surface, "x");
    m.enqueue(record("y"), 2).unwrap();
    assert!(matches!(m.on_new_notification(1000), Action::Wait));
    match m.close(&surface).unwrap() {
        Action::Refresh { surface: s } => assert_eq!(s, surface),
        _ => panic!("expected the same surface to be refreshed"),
    }
    assert_eq!(m.get_notification(&surface).unwrap().id, "y");
    assert_eq!(m.pool_status().total_count, 1);
    assert_eq!(m.history().len(), 1);
    assert_eq!(m.history()[0].id, "x");
}

#[test]
fn last_close_pools_surface() {
    let mut m = NotificationManager::new();
    m.enqueue(record("only"), 1).unwrap();
    let surface = created_surface(&m.on_new_notification(1000));
    let shown = m.surface_ready(&surface, 7000).unwrap();
    assert_eq!(shown.id, "only");
    assert_eq!(shown.timestamp, Some(7));
    match m.close(&surface).unwrap() {
        Action::Hide { surface: s, moves } => {
            assert_eq!(s, surface);
            assert!(moves.is_empty());
        }
        _ => panic!("expected the surface to be hidden"),
    }
    let status = m.pool_status();
    assert_eq!(status.pooled_count, 1);
    assert_eq!(status.total_count, 1);
    assert_eq!(status.pooled_ids, vec!["only".to_string()]);
    assert!(m.pending.is_empty());
}

#[test]
fn next_position_stacks_down() {
    let mut m = NotificationManager::new();
    assert_eq!(m.get_next_position(1000), (1000 - 400 - 10, 10));
    m.register("s".to_string(), 590, 10, 480).unwrap();
    assert_eq!(m.get_next_position(1000), (590, 10 + 480 + 10));
}

#[test]
fn next_position_on_narrow_screen_clamps_to_zero() {
    let m = NotificationManager::new();
    assert_eq!(m.get_next_position(300), (0, 10));
}

#[test]
fn second_ready_keeps_first_timestamp() {
    let mut m = NotificationManager::new();
    m.enqueue(record("n"), 1).unwrap();
    let surface = created_surface(&m.on_new_notification(1000));
    let first = m.surface_ready(&surface, 3000).unwrap();
    let second = m.surface_ready(&surface, 9000).unwrap();
    assert_eq!(first.timestamp, Some(3));
    assert_eq!(second.timestamp, Some(3));
    assert_eq!(m.pending[0].timestamp, Some(3));
    assert_eq!(second.window_label, Some(surface));
}

#[test]
fn next_unassigned_is_first_in_first_out() {
    let mut m = NotificationManager::new();
    m.enqueue(record("a"), 1).unwrap();
    m.enqueue(record("b"), 2).unwrap();
    m.enqueue(record("c"), 3).unwrap();
    assert_eq!(m.next_unassigned().unwrap().id, "a");
    m.register("s1".to_string(), 0, 0, 100).unwrap();
    m.assign(&"s1".to_string(), &"b".to_string()).unwrap();
    assert_eq!(m.next_unassigned().unwrap().id, "a");
    m.assign(&"s1".to_string(), &"a".to_string()).unwrap();
    assert_eq!(m.next_unassigned().unwrap().id, "b");
}

#[test]
fn create_assign_close_archives_once() {
    let mut m = NotificationManager::new();
    let id = m.create("hello".to_string(), "world".to_string(), Some(9), Some("alert".to_string()), 1).unwrap();
    assert_eq!(m.pending[0].duration, 9);
    assert_eq!(m.pending[0].kind, "alert");
    m.register("s".to_string(), 0, 10, 500).unwrap();
    m.assign(&"s".to_string(), &id).unwrap();
    assert_eq!(m.pending[0].window_label, Some("s".to_string()));
    m.close(&"s".to_string()).unwrap();
    assert!(m.pending.iter().all(|n| n.id != id));
    assert_eq!(m.history().iter().filter(|n| n.id == id).count(), 1);
    let again = Notification::new(id.clone(), "t".to_string(), "m".to_string(), 5, String::new());
    assert_eq!(m.enqueue(again, 2), Err(NotifyError::StateConflict));
    assert!(m.pending.iter().all(|n| n.id != id));
}

#[test]
fn create_draws_distinct_uuid_ids() {
    let mut m = NotificationManager::new();
    let a = m.create("t".to_string(), "m".to_string(), None, None, 1).unwrap();
    let b = m.create("t".to_string(), "m".to_string(), None, None, 1).unwrap();
    assert_eq!(a.len(), 36);
    assert_eq!(a.matches('-').count(), 4);
    assert_ne!(a, b);
    assert_eq!(m.pending[0].duration, 5);
    assert_eq!(m.pending[0].kind, "");
}

#[test]
fn assign_errors() {
    let mut m = NotificationManager::new();
    m.enqueue(record("a"), 1).unwrap();
    m.register("s1".to_string(), 0, 0, 100).unwrap();
    m.register("s2".to_string(), 0, 110, 100).unwrap();
    assert_eq!(m.assign(&"nope".to_string(), &"a".to_string()), Err(NotifyError::NotFound));
    assert_eq!(m.assign(&"s1".to_string(), &"nope".to_string()), Err(NotifyError::NotFound));
    m.assign(&"s1".to_string(), &"a".to_string()).unwrap();
    assert_eq!(m.assign(&"s2".to_string(), &"a".to_string()), Err(NotifyError::StateConflict));
    assert_eq!(m.assign(&"s1".to_string(), &"a".to_string()), Ok(()));
}

#[test]
fn register_errors() {
    let mut m = NotificationManager::with_config(config(1));
    m.register("s".to_string(), 0, 0, 10).unwrap();
    assert_eq!(m.register("t".to_string(), 0, 0, 10), Err(NotifyError::CapacityExceeded));
    let mut m = NotificationManager::with_config(config(3));
    m.register("s".to_string(), 0, 0, 10).unwrap();
    assert_eq!(m.register("s".to_string(), 0, 0, 10), Err(NotifyError::StateConflict));
    assert!(m.has_capacity());
}

#[test]
fn pool_errors_and_reuse() {
    let mut m = NotificationManager::new();
    m.enqueue(record("a"), 1).unwrap();
    m.register("s".to_string(), 0, 0, 120).unwrap();
    assert_eq!(m.pool(&"zz".to_string()), Err(NotifyError::NotFound));
    m.assign(&"s".to_string(), &"a".to_string()).unwrap();
    assert_eq!(m.pool(&"s".to_string()), Err(NotifyError::StateConflict));
    let removed = m.remove_notification(&"s".to_string()).unwrap();
    assert_eq!(removed.id, "a");
    assert!(m.remove_notification(&"s".to_string()).is_none());
    m.pool(&"s".to_string()).unwrap();
    assert_eq!(m.pool_status().pooled_count, 1);
    m.enqueue(record("b"), 2).unwrap();
    match m.on_new_notification(1000) {
        Action::Show { surface, x, y } => {
            assert_eq!(surface, "s");
            assert_eq!((x, y), (590, 10));
        }
        _ => panic!("expected the pooled surface to be shown"),
    }
    assert_eq!(m.pool_status().pooled_count, 0);
    assert_eq!(m.slots[0].height, 120);
    assert_eq!(m.get_notification(&"s".to_string()).unwrap().id, "b");
}

#[test]
fn reuse_one_on_empty_pool() {
    let mut m = NotificationManager::new();
    assert_eq!(m.reuse_one(1000), None);
}

#[test]
fn free_active_surface_gets_the_next_record() {
    let mut m = NotificationManager::with_config(config(1));
    m.register("s".to_string(), 590, 10, 500).unwrap();
    assert_eq!(m.find_unassigned_active(), Some("s".to_string()));
    m.enqueue(record("a"), 1).unwrap();
    match m.on_new_notification(1000) {
        Action::Refresh { surface } => assert_eq!(surface, "s"),
        _ => panic!("expected the free surface to be refreshed"),
    }
    assert_eq!(m.find_unassigned_active(), None);
}

#[test]
fn ready_errors_and_fallback() {
    let mut m = NotificationManager::new();
    assert_eq!(m.surface_ready(&"none".to_string(), 0).unwrap_err(), NotifyError::NotFound);
    m.register("s".to_string(), 0, 0, 10).unwrap();
    assert_eq!(m.surface_ready(&"s".to_string(), 0).unwrap_err(), NotifyError::NotFound);
    m.enqueue(record("a"), 1).unwrap();
    let got = m.surface_ready(&"s".to_string(), 2000).unwrap();
    assert_eq!(got.id, "a");
    assert_eq!(got.timestamp, Some(2));
    assert_eq!(got.window_label, Some("s".to_string()));
}

#[test]
fn close_unknown_surface_is_not_found() {
    let mut m = NotificationManager::new();
    assert_eq!(m.close(&"none".to_string()).unwrap_err(), NotifyError::NotFound);
}

#[test]
fn close_restacks_remaining_surfaces() {
    let mut m = NotificationManager::new();
    for id in ["a", "b", "c"] {
        m.enqueue(record(id), 1).unwrap();
        created_surface(&m.on_new_notification(1000));
    }
    m.set_measured_height(&"b".to_string(), 300).unwrap();
    assert_eq!(m.set_measured_height(&"q".to_string(), 3), Err(NotifyError::NotFound));
    match m.close(&"a".to_string()).unwrap() {
        Action::Hide { surface, moves } => {
            assert_eq!(surface, "a");
            let got: Vec<(String, u32, u32)> = moves.into_iter().map(|SurfaceMove { label, x, y }| (label, x, y)).collect();
            assert_eq!(got, vec![("b".to_string(), 590, 10), ("c".to_string(), 590, 10 + 300 + 10)]);
        }
        _ => panic!("expected a hide"),
    }
    assert_eq!(m.slots[0].y, 10);
    assert_eq!(m.slots[1].y, 320);
}

#[test]
fn discard_surface_leaves_record_pending() {
    let mut m = NotificationManager::new();
    m.enqueue(record("a"), 1).unwrap();
    let surface = created_surface(&m.on_new_notification(1000));
    m.discard_surface(&surface).unwrap();
    assert_eq!(m.discard_surface(&surface), Err(NotifyError::NotFound));
    assert_eq!(m.pool_status().total_count, 0);
    assert_eq!(m.next_unassigned().unwrap().id, "a");
}

#[test]
fn cleanup_trims_history_and_drops_expired() {
    let mut cfg = config(4);
    cfg.max_history_size = 1;
    let mut m = NotificationManager::with_config(cfg);
    for id in ["h1", "h2"] {
        m.enqueue(record(id), 1).unwrap();
        let s = placed_surface(&m.on_new_notification(1000));
        m.surface_ready(&s, 1000).unwrap();
        m.close(&s).unwrap();
    }
    assert_eq!(m.history().len(), 2);
    m.enqueue(record("old"), 2).unwrap();
    m.set_displayed_timestamp(&"old".to_string(), 1).unwrap();
    m.set_displayed_timestamp(&"old".to_string(), 500).unwrap();
    assert_eq!(m.pending.iter().find(|n| n.id == "old").unwrap().timestamp, Some(1));
    m.enqueue(record("never"), 3).unwrap();
    assert_eq!(m.set_displayed_timestamp(&"zz".to_string(), 1), Err(NotifyError::NotFound));
    let late = 1000 * (86400 + 10);
    m.enqueue(record("new"), late).unwrap();
    assert_eq!(m.last_cleanup_ms, late);
    assert_eq!(m.history().len(), 1);
    assert_eq!(m.history()[0].id, "h2");
    let ids: Vec<&str> = m.pending.iter().map(|n| n.id.as_str()).collect();
    assert_eq!(ids, vec!["never", "new"]);
}

#[test]
fn cleanup_keeps_a_record_still_shown() {
    let mut m = NotificationManager::new();
    m.enqueue(record("shown"), 1).unwrap();
    let s = created_surface(&m.on_new_notification(1000));
    m.surface_ready(&s, 1000).unwrap();
    m.cleanup(1000 * (86400 + 100));
    assert_eq!(m.pending.len(), 1);
}

#[test]
fn enqueue_refuses_duplicate_pending_id() {
    let mut m = NotificationManager::new();
    m.enqueue(record("a"), 1).unwrap();
    assert_eq!(m.enqueue(record("a"), 2), Err(NotifyError::StateConflict));
    assert_eq!(m.pending.len(), 1);
}

#[test]
fn enqueue_clears_surface_and_timestamp() {
    let mut m = NotificationManager::new();
    let mut r = record("a");
    r.window_label = Some("w".to_string());
    r.timestamp = Some(4);
    m.enqueue(r, 1).unwrap();
    assert_eq!(m.pending[0].window_label, None);
    assert_eq!(m.pending[0].timestamp, None);
}

#[test]
fn defaults_and_dimensions() {
    let m = NotificationManager::new();
    assert_eq!(m.get_dimensions(), (400, 500));
    assert_eq!(m.config.max_windows, 4);
    assert_eq!(m.config.margin, 10);
    assert!(m.history().is_empty());
}

#[test]
fn error_messages() {
    assert_eq!(NotifyError::NotFound.message(), "unknown surface or notification");
    assert_eq!(NotifyError::Unavailable.message(), "display or surface provider unavailable");
    assert_eq!(NotifyError::CapacityExceeded.message(), "surface cap reached");
    assert_eq!(NotifyError::StateConflict.message(), "notification is not in a state that allows this");
}

#[test]
fn create_on_fresh_manager_succeeds() {
    let mut m = NotificationManager::new();
    let id = m.create("t".to_string(), "m".to_string(), None, None, 61000).unwrap();
    assert_eq!(m.pending.len(), 1);
    assert_eq!(m.pending[0].id, id);
    assert_eq!(m.pending[0].enqueued_at, 61);
    assert_eq!(m.last_cleanup_ms, 61000);
}

#[test]
fn undisplayed_records_kept_or_purged_by_policy() {
    let late = 1000 * (86400 + 100);
    let mut keep = NotificationManager::new();
    keep.enqueue(record("a"), 1000).unwrap();
    keep.cleanup(late);
    assert_eq!(keep.pending.len(), 1);
    let mut cfg = config(4);
    cfg.purge_undisplayed = true;
    let mut purge = NotificationManager::with_config(cfg);
    purge.enqueue(record("a"), 1000).unwrap();
    purge.enqueue(record("b"), late - 5000).unwrap();
    purge.cleanup(late);
    let ids: Vec<&str> = purge.pending.iter().map(|n| n.id.as_str()).collect();
    assert_eq!(ids, vec!["b"]);
}

#[test]
fn return_to_pool_undoes_a_reuse() {
    let mut m = NotificationManager::new();
    m.register("s".to_string(), 0, 10, 120).unwrap();
    m.pool(&"s".to_string()).unwrap();
    m.enqueue(record("a"), 1).unwrap();
    assert!(matches!(m.on_new_notification(1000), Action::Show { .. }));
    m.return_to_pool(&"s".to_string()).unwrap();
    assert_eq!(m.pool_status().pooled_ids, vec!["s".to_string()]);
    assert!(m.slots.is_empty());
    assert_eq!(m.next_unassigned().unwrap().id, "a");
    assert_eq!(m.return_to_pool(&"s".to_string()), Err(NotifyError::NotFound));
}

#[test]
fn unpool_undoes_a_pooling() {
    let mut m = NotificationManager::new();
    m.enqueue(record("a"), 1).unwrap();
    let s = created_surface(&m.on_new_notification(1000));
    assert!(matches!(m.close(&s).unwrap(), Action::Hide { .. }));
    m.unpool(&s).unwrap();
    assert_eq!(m.pool_status().pooled_count, 0);
    assert_eq!(m.slots.len(), 1);
    assert_eq!((m.slots[0].x, m.slots[0].y, m.slots[0].height), (590, 10, 500));
    assert_eq!(m.find_unassigned_active(), Some(s.clone()));
    assert_eq!(m.unpool(&s), Err(NotifyError::NotFound));
}

#[test]
fn prune_idle_drops_lost_surfaces() {
    let mut m = NotificationManager::new();
    for l in ["a", "b", "c"] {
        m.register(l.to_string(), 0, 0, 10).unwrap();
        m.pool(&l.to_string()).unwrap();
    }
    m.prune_idle(&vec!["c".to_string(), "a".to_string(), "zz".to_string()]);
    assert_eq!(m.pool_status().pooled_ids, vec!["a".to_string(), "c".to_string()]);
}
