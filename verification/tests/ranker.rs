use toggl_sync::completer::IssueCompleter;
use toggl_sync::completer::extract_key;
use toggl_sync::completer::order_of_key;
use toggl_sync::registry::KeyRegistry;
use toggl_sync::registry::format_key;

fn registry_of(pairs: &[(&str, &str)]) -> KeyRegistry {
    let mut reg = KeyRegistry::new();
    for (k, d) in pairs {
        reg.insert(k.to_string(), d.to_string());
    }
    reg
}

#[test]
fn order_comes_from_the_numeric_suffix() {
    assert_eq!(order_of_key("KEY-10"), 10);
    assert_eq!(order_of_key("KEY-2"), 2);
    assert_eq!(order_of_key("A_B-0"), 0);
    assert_eq!(order_of_key("nodash"), 0);
    assert_eq!(order_of_key("K-1-25"), 25, "the last dash counts");
    assert_eq!(order_of_key("KEY-xyz"), 0, "unparsable suffix");
    assert_eq!(order_of_key("KEY-99999999999999999999"), 0, "overflow");
}

#[test]
fn suggestions_are_ranked_by_ticket_number() {
    let reg = registry_of(&[("KEY-10", "a"), ("KEY-2", "b")]);
    let completer = IssueCompleter::new(&reg);
    let s = completer.get_suggestions("");
    assert_eq!(s, vec!["KEY-2: b".to_string(), "KEY-10: a".to_string()]);
}

#[test]
fn suggestions_filter_matches_key_or_description() {
    let reg = registry_of(&[("AA-1", "database work"), ("BB-2", "frontend"), ("CC-3", "more db")]);
    let completer = IssueCompleter::new(&reg);
    assert_eq!(
        completer.get_suggestions("db"),
        vec!["CC-3: more db".to_string()],
    );
    assert_eq!(
        completer.get_suggestions("bb"),
        vec!["BB-2: frontend".to_string()],
    );
    assert_eq!(completer.get_suggestions("nothing"), Vec::<String>::new());
}

#[test]
fn suggestions_match_case_insensitively() {
    // would fail if lowercasing handed its input back unchanged
    let reg = registry_of(&[("ABC-1", "Hello World")]);
    let completer = IssueCompleter::new(&reg);
    assert_eq!(
        completer.get_suggestions("HELLO"),
        vec!["ABC-1: Hello World".to_string()],
    );
    assert_eq!(
        completer.get_suggestions("hello"),
        vec!["ABC-1: Hello World".to_string()],
    );
}

#[test]
fn suggestions_stop_at_twenty() {
    let mut reg = KeyRegistry::new();
    let mut i: u32 = 1;
    while i <= 25 {
        reg.insert(format!("AB-{}", i), "x".to_string());
        i += 1;
    }
    let completer = IssueCompleter::new(&reg);
    let s = completer.get_suggestions("");
    assert_eq!(s.len(), 20);
    assert_eq!(s[0], "AB-1: x");
    assert_eq!(s[19], "AB-20: x");
}

#[test]
fn extract_key_takes_text_before_the_first_colon() {
    assert_eq!(extract_key("KEY-7: fix bug"), Some("KEY-7".to_string()));
    assert_eq!(extract_key("no colon here"), None);
    assert_eq!(extract_key(":x"), Some("".to_string()));
}

#[test]
fn completion_parses_the_highlighted_suggestion() {
    let reg = registry_of(&[("KEY-1", "a")]);
    let completer = IssueCompleter::new(&reg);
    assert_eq!(
        completer.get_completion("ignored", Some("KEY-1: a".to_string())),
        Some("KEY-1".to_string()),
    );
    assert_eq!(completer.get_completion("ignored", Some("plain".to_string())), None);
    assert_eq!(completer.get_completion("ignored", None), None);
}

#[test]
fn rendering_joins_key_and_description() {
    assert_eq!(format_key("AB-1", "desc"), "AB-1: desc");
}
