use toggl_sync::merge::merge_filter_entries;
use toggl_sync::records::MergedEntry;
use toggl_sync::records::TimeEntry;
use toggl_sync::registry::KeyRegistry;
use toggl_sync::resolver::ResolveAction;
use toggl_sync::resolver::ResolveEvent;
use toggl_sync::resolver::resolve_start;
use toggl_sync::resolver::resolve_step;
use toggl_sync::session::SyncAction;
use toggl_sync::session::SyncEvent;
use toggl_sync::session::SyncSession;
use toggl_sync::timefmt::Timestamp;

fn ts(hour: u8, minute: u8) -> Timestamp {
    Timestamp { year: 2024, month: 3, day: 5, hour, minute, second: 0 }
}

fn entry(id: i64, desc: &str, duration: i64, start: Timestamp) -> TimeEntry {
    TimeEntry {
        id,
        user_id: 7,
        workspace_id: 9,
        at: String::new(),
        description: desc.to_string(),
        duration,
        duronly: false,
        start: Some(start),
        stop: None,
        server_deleted_at: None,
        tags: None,
    }
}

fn tagged(id: i64, desc: &str, duration: i64, start: Timestamp, tags: &[&str]) -> TimeEntry {
    let mut e = entry(id, desc, duration, start);
    e.tags = Some(tags.iter().map(|t| t.to_string()).collect());
    e
}

#[test]
fn resolution_extracts_key_from_description_without_key_prompt() {
    // two same-description records merge; the key comes from the text alone
    let records = vec![
        entry(1, "Fix PROJ-5 login bug", 3600, ts(10, 0)),
        entry(2, "Fix PROJ-5 login bug", 1800, ts(9, 0)),
    ];
    let merged = merge_filter_entries(records);
    assert_eq!(merged.len(), 1);
    assert_eq!(merged[0].duration, 5400);
    assert_eq!(merged[0].start, ts(9, 0));

    let (resolver, action) = resolve_start(&merged[0]);
    match action {
        ResolveAction::AskConfirmEdit { key, desc } => {
            assert_eq!(key, "PROJ-5");
            assert_eq!(desc, "Fix  login bug");
        },
        _ => panic!("expected the confirm prompt, not a key prompt"),
    }
    // declining the edit finishes the resolution as proposed
    let (_, action2) = resolve_step(resolver, ResolveEvent::Confirmed(false));
    match action2 {
        ResolveAction::Finished { key, desc } => {
            assert_eq!(key, "PROJ-5");
            assert_eq!(desc, "Fix  login bug");
        },
        _ => panic!("expected the resolution to finish"),
    }
}

#[test]
fn resolution_prefers_a_tag_key() {
    let records = vec![tagged(1, "maintenance", 600, ts(8, 0), &["billable", "OPS-3"])];
    let merged = merge_filter_entries(records);
    let (_, action) = resolve_start(&merged[0]);
    match action {
        ResolveAction::AskConfirmEdit { key, desc } => {
            assert_eq!(key, "OPS-3");
            assert_eq!(desc, "maintenance");
        },
        _ => panic!("expected the confirm prompt"),
    }
}

#[test]
fn resolution_retries_until_a_key_is_given() {
    let records = vec![entry(1, "unlabeled work", 300, ts(8, 0))];
    let merged = merge_filter_entries(records);
    let (r0, a0) = resolve_start(&merged[0]);
    match a0 {
        ResolveAction::AskKeyInput { desc, duration } => {
            assert_eq!(desc, "unlabeled work");
            assert_eq!(duration, 300);
        },
        _ => panic!("expected the key prompt"),
    }
    // an empty key is rejected: after the dialogue ends the whole
    // resolution starts over with the key prompt
    let (r1, _) = resolve_step(r0, ResolveEvent::TextEntered("   ".to_string()));
    let (r2, a2) = resolve_step(r1, ResolveEvent::Confirmed(false));
    match a2 {
        ResolveAction::AskKeyInput { .. } => {},
        _ => panic!("expected a restarted key prompt"),
    }
    // typing a pasted suggestion normalizes to the bare key
    let (r3, a3) = resolve_step(r2, ResolveEvent::TextEntered("AB-9: something".to_string()));
    match a3 {
        ResolveAction::AskEditPlain => {},
        _ => panic!("expected the edit question"),
    }
    let (r4, a4) = resolve_step(r3, ResolveEvent::Confirmed(true));
    match a4 {
        ResolveAction::AskDescription { default_text } => {
            assert_eq!(default_text, "unlabeled work");
        },
        _ => panic!("expected the description prompt"),
    }
    let (_, a5) = resolve_step(r4, ResolveEvent::TextEntered("replacement".to_string()));
    match a5 {
        ResolveAction::Finished { key, desc } => {
            assert_eq!(key, "AB-9");
            assert_eq!(desc, "replacement");
        },
        _ => panic!("expected the resolution to finish"),
    }
}

#[test]
fn run_builds_worklog_and_marks_only_successes() {
    let records = vec![tagged(1, "Fix PROJ-5 login bug", 3600, ts(10, 0), &["billable"])];
    let merged = merge_filter_entries(records);
    let mut registry = KeyRegistry::new();
    registry.insert("PROJ-5".to_string(), "login".to_string());

    let (s, a) = SyncSession::new("acct".to_string(), registry, merged);
    match a {
        SyncAction::Prompt(ResolveAction::AskConfirmEdit { .. }) => {},
        _ => panic!("expected the confirm prompt"),
    }
    let (s, a) = s.step(SyncEvent::Resolver(ResolveEvent::Confirmed(false)));
    match a {
        SyncAction::SubmitAll => {},
        _ => panic!("expected submission after the only entry"),
    }
    assert_eq!(s.worklogs.len(), 1);
    assert_eq!(s.worklogs[0].issue_key, "PROJ-5");
    assert_eq!(s.worklogs[0].description, "Fix  login bug");
    assert_eq!(s.worklogs[0].author_account_id, "acct");
    assert_eq!(s.worklogs[0].time_spent_seconds, 3600);
    assert_eq!(s.worklogs[0].start_date, "2024-03-05");
    assert_eq!(s.worklogs[0].start_time, "10:00:00");

    let (s, a) = s.step(SyncEvent::Submitted(vec![true]));
    match a {
        SyncAction::MarkAll => {},
        _ => panic!("expected the marking phase"),
    }
    assert_eq!(s.report.len(), 1);
    assert!(s.report[0].ok);
    assert_eq!(s.mark_requests.len(), 1);
    assert_eq!(s.mark_requests[0].id, 1);
    assert_eq!(s.mark_requests[0].workspace_id, 9);
    assert_eq!(
        s.mark_requests[0].request.tags,
        vec!["PROJ-5".to_string(), "billable".to_string()],
    );
}

#[test]
fn failed_submission_marks_nothing() {
    let records = vec![tagged(1, "Fix PROJ-5 login bug", 3600, ts(10, 0), &["billable"])];
    let merged = merge_filter_entries(records);
    let mut registry = KeyRegistry::new();
    registry.insert("PROJ-5".to_string(), "login".to_string());
    let (s, _) = SyncSession::new("acct".to_string(), registry, merged);
    let (s, _) = s.step(SyncEvent::Resolver(ResolveEvent::Confirmed(false)));
    let (s, _) = s.step(SyncEvent::Submitted(vec![false]));
    assert_eq!(s.report.len(), 1);
    assert!(!s.report[0].ok);
    assert_eq!(s.mark_requests.len(), 0);
}

#[test]
fn registry_keeps_new_key_even_when_submission_fails() {
    // the operator confirms a previously-unseen key; its pair must survive
    // to the save step although the submission fails
    let records = vec![entry(1, "NEW-1: setup", 900, ts(9, 0))];
    let merged = merge_filter_entries(records);
    let registry = KeyRegistry::new();
    let (s, a) = SyncSession::new("acct".to_string(), registry, merged);
    match a {
        SyncAction::Prompt(ResolveAction::AskConfirmEdit { key, desc }) => {
            assert_eq!(key, "NEW-1");
            assert_eq!(desc, "setup");
        },
        _ => panic!("expected the confirm prompt"),
    }
    let (s, a) = s.step(SyncEvent::Resolver(ResolveEvent::Confirmed(false)));
    match a {
        SyncAction::AskKeyDesc { key, default_text } => {
            assert_eq!(key, "NEW-1");
            assert_eq!(default_text, "setup");
        },
        _ => panic!("expected the new-key description prompt"),
    }
    let (s, a) = s.step(SyncEvent::KeyDescEntered("setup".to_string()));
    match a {
        SyncAction::SubmitAll => {},
        _ => panic!("expected submission"),
    }
    let (s, _) = s.step(SyncEvent::Submitted(vec![false]));
    let (s, a) = s.step(SyncEvent::Marked);
    match a {
        SyncAction::SaveRegistry => {},
        _ => panic!("expected the save step"),
    }
    // what the caller persists still holds the confirmed pair
    assert!(s.registry.contains("NEW-1"));
    assert_eq!(s.registry.get("NEW-1"), Some(&"setup".to_string()));
    let (_, a) = s.step(SyncEvent::Saved(true));
    match a {
        SyncAction::Finished { save_failed } => assert!(!save_failed),
        _ => panic!("expected the run to finish"),
    }
}

#[test]
fn a_key_confirmed_earlier_in_the_run_is_known_to_later_entries() {
    let records = vec![
        entry(1, "alpha ONE-1 work", 600, ts(9, 0)),
        entry(2, "beta", 300, ts(10, 0)),
    ];
    let merged = merge_filter_entries(records);
    assert_eq!(merged.len(), 2);
    let registry = KeyRegistry::new();
    let (s, a) = SyncSession::new("acct".to_string(), registry, merged);
    match a {
        SyncAction::Prompt(ResolveAction::AskConfirmEdit { ref key, .. }) => {
            assert_eq!(key, "ONE-1");
        },
        _ => panic!("expected the confirm prompt for the first entry"),
    }
    let (s, a) = s.step(SyncEvent::Resolver(ResolveEvent::Confirmed(false)));
    match a {
        SyncAction::AskKeyDesc { ref key, .. } => assert_eq!(key, "ONE-1"),
        _ => panic!("expected the new-key description prompt"),
    }
    let (s, a) = s.step(SyncEvent::KeyDescEntered("first".to_string()));
    // the pair registered for the first entry is already visible while the
    // second entry is being resolved
    assert!(s.registry.contains("ONE-1"));
    match a {
        SyncAction::Prompt(ResolveAction::AskKeyInput { ref desc, .. }) => {
            assert_eq!(desc, "beta");
        },
        _ => panic!("expected the key prompt for the second entry"),
    }
    let (s, _) = s.step(SyncEvent::Resolver(ResolveEvent::TextEntered("ONE-1".to_string())));
    let (s, a) = s.step(SyncEvent::Resolver(ResolveEvent::Confirmed(false)));
    match a {
        SyncAction::SubmitAll => {},
        _ => panic!("expected submission after the last entry"),
    }
    assert_eq!(s.worklogs.len(), 2);
    assert_eq!(s.worklogs[0].issue_key, "ONE-1");
    assert_eq!(s.worklogs[1].issue_key, "ONE-1");
    assert_eq!(s.worklogs[1].description, "beta");
}

#[test]
fn rerun_on_a_source_that_excludes_handled_records_submits_nothing() {
    // first run: the record resolves and submits successfully, so its
    // source record is marked with the key
    let first_fetch = vec![tagged(1, "Fix PROJ-5 login bug", 3600, ts(10, 0), &["billable"])];
    let merged = merge_filter_entries(first_fetch);
    let mut registry = KeyRegistry::new();
    registry.insert("PROJ-5".to_string(), "login".to_string());
    let (s, _) = SyncSession::new("acct".to_string(), registry, merged);
    let (s, _) = s.step(SyncEvent::Resolver(ResolveEvent::Confirmed(false)));
    let (s, _) = s.step(SyncEvent::Submitted(vec![true]));
    assert_eq!(s.mark_requests.len(), 1);
    let marker_tags = s.mark_requests[0].request.tags.clone();
    let (s, _) = s.step(SyncEvent::Marked);
    let (s, _) = s.step(SyncEvent::Saved(true));

    // the record source is defined to exclude records that carry the
    // marker, so the second fetch of the same day returns nothing new
    let second_fetch: Vec<TimeEntry> = vec![
        tagged(
            1,
            "Fix PROJ-5 login bug",
            3600,
            ts(10, 0),
            &marker_tags.iter().map(|t| t.as_str()).collect::<Vec<&str>>(),
        ),
    ]
        .into_iter()
        .filter(|e| match &e.tags {
            Some(tags) => !tags.iter().any(|t| t == "PROJ-5"),
            None => true,
        })
        .collect();
    assert_eq!(second_fetch.len(), 0);

    let merged2: Vec<MergedEntry> = merge_filter_entries(second_fetch);
    let (s2, a2) = SyncSession::new("acct".to_string(), s.registry, merged2);
    match a2 {
        SyncAction::SubmitAll => {},
        _ => panic!("nothing to resolve on the second run"),
    }
    assert_eq!(s2.worklogs.len(), 0, "no new work-log is submitted");
    let (s2, _) = s2.step(SyncEvent::Submitted(vec![]));
    assert_eq!(s2.mark_requests.len(), 0);
}
