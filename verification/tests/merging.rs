use toggl_sync::merge::merge_filter_entries;
use toggl_sync::records::EntryTag;
use toggl_sync::records::TimeEntry;
use toggl_sync::records::add_tag;
use toggl_sync::registry::KeyRegistry;
use toggl_sync::timefmt::Timestamp;
use toggl_sync::timefmt::datetime_to_date_and_time;
use toggl_sync::worklog::total_duration;

fn ts(hour: u8, minute: u8) -> Timestamp {
    Timestamp { year: 2024, month: 3, day: 5, hour, minute, second: 0 }
}

fn entry(id: i64, desc: &str, duration: i64, start: Option<Timestamp>) -> TimeEntry {
    TimeEntry {
        id,
        user_id: 7,
        workspace_id: 9,
        at: String::new(),
        description: desc.to_string(),
        duration,
        duronly: false,
        start,
        stop: None,
        server_deleted_at: None,
        tags: None,
    }
}

#[test]
fn merge_drops_running_deleted_and_startless_records() {
    let mut deleted = entry(1, "work", 100, Some(ts(9, 0)));
    deleted.server_deleted_at = Some("2024-03-05T10:00:00Z".to_string());
    let running = entry(2, "work", -50, Some(ts(9, 30)));
    let zero = entry(3, "work", 0, Some(ts(9, 40)));
    let startless = entry(4, "work", 60, None);
    let kept = entry(5, "work", 30, Some(ts(10, 0)));
    let merged = merge_filter_entries(vec![deleted, running, zero, startless, kept]);
    assert_eq!(merged.len(), 1);
    assert_eq!(merged[0].duration, 30, "only the surviving record contributes");
    assert_eq!(merged[0].tags.len(), 1);
    assert_eq!(merged[0].tags[0].id, 5);
}

#[test]
fn merge_sums_durations_and_takes_earliest_start() {
    let a = entry(1, "task", 3600, Some(ts(10, 0)));
    let b = entry(2, "task", 1800, Some(ts(9, 15)));
    let c = entry(3, "task", 600, Some(ts(11, 45)));
    let merged = merge_filter_entries(vec![a, b, c]);
    assert_eq!(merged.len(), 1);
    assert_eq!(merged[0].duration, 6000);
    assert_eq!(merged[0].start, ts(9, 15));
    assert_eq!(merged[0].tags.len(), 3);
}

#[test]
fn merge_groups_by_exact_description() {
    let a = entry(1, "alpha", 10, Some(ts(8, 0)));
    let b = entry(2, "beta", 20, Some(ts(8, 10)));
    let c = entry(3, "alpha", 30, Some(ts(7, 50)));
    let d = entry(4, "Alpha", 40, Some(ts(8, 20)));
    let merged = merge_filter_entries(vec![a, b, c, d]);
    assert_eq!(merged.len(), 3, "matching is case-sensitive");
    let alpha = merged.iter().find(|m| m.description == "alpha").unwrap();
    assert_eq!(alpha.duration, 40);
    assert_eq!(alpha.start, ts(7, 50));
    let beta = merged.iter().find(|m| m.description == "beta").unwrap();
    assert_eq!(beta.duration, 20);
}

#[test]
fn merge_of_nothing_is_empty() {
    let merged = merge_filter_entries(vec![]);
    assert_eq!(merged.len(), 0);
}

#[test]
fn merged_total_duration_is_the_sum() {
    let a = entry(1, "x", 100, Some(ts(9, 0)));
    let b = entry(2, "y", 200, Some(ts(9, 5)));
    let merged = merge_filter_entries(vec![a, b]);
    assert_eq!(total_duration(&merged), 300);
}

#[test]
fn timestamps_render_zero_padded() {
    let t = Timestamp { year: 987, month: 3, day: 5, hour: 7, minute: 4, second: 9 };
    let (d, tm) = datetime_to_date_and_time(&t);
    assert_eq!(d, "0987-03-05");
    assert_eq!(tm, "07:04:09");
    let t2 = Timestamp { year: 2024, month: 12, day: 31, hour: 23, minute: 59, second: 58 };
    let (d2, tm2) = datetime_to_date_and_time(&t2);
    assert_eq!(d2, "2024-12-31");
    assert_eq!(tm2, "23:59:58");
}

#[test]
fn marking_adds_the_key_without_duplicates() {
    let carrier = EntryTag {
        id: 1,
        user_id: 7,
        workspace_id: 9,
        tags: Some(vec!["billable".to_string(), "AB-1".to_string(), "billable".to_string()]),
    };
    let req = add_tag(&carrier, "AB-1");
    assert_eq!(req.tags, vec!["AB-1".to_string(), "billable".to_string()]);

    let untagged = EntryTag { id: 2, user_id: 7, workspace_id: 9, tags: None };
    let req2 = add_tag(&untagged, "AB-1");
    assert_eq!(req2.tags, vec!["AB-1".to_string()]);
}

#[test]
fn marking_twice_yields_the_same_tag_set() {
    let carrier = EntryTag {
        id: 1,
        user_id: 7,
        workspace_id: 9,
        tags: Some(vec!["billable".to_string()]),
    };
    let once = add_tag(&carrier, "AB-1");
    let remarked = EntryTag { id: 1, user_id: 7, workspace_id: 9, tags: Some(once.tags.clone()) };
    let twice = add_tag(&remarked, "AB-1");
    assert_eq!(twice.tags, once.tags);
}

#[test]
fn registry_insert_is_last_writer_wins() {
    let mut reg = KeyRegistry::new();
    reg.insert("AB-1".to_string(), "first".to_string());
    reg.insert("CD-2".to_string(), "other".to_string());
    reg.insert("AB-1".to_string(), "second".to_string());
    assert_eq!(reg.len(), 2);
    assert!(reg.contains("AB-1"));
    assert_eq!(reg.get("AB-1"), Some(&"second".to_string()));
    assert_eq!(reg.get("CD-2"), Some(&"other".to_string()));
    assert_eq!(reg.get("EF-3"), None);
    assert!(!reg.contains("EF-3"));
}

#[test]
fn registry_removal_goes_by_the_rendered_pair() {
    let mut reg = KeyRegistry::new();
    reg.insert("AB-1".to_string(), "one".to_string());
    reg.insert("CD-2".to_string(), "two".to_string());
    reg.remove_rendered(&vec!["AB-1: one".to_string()]);
    assert!(!reg.contains("AB-1"));
    assert!(reg.contains("CD-2"));
}
