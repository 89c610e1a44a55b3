use toggl_sync::keyshape::KeyExtraction;
use toggl_sync::keyshape::extract_from_description;
use toggl_sync::keyshape::find_key;
use toggl_sync::keyshape::has_match;
use toggl_sync::keyshape::is_ticket_key;

#[test]
fn key_shape_accepts_well_formed_keys() {
    assert!(is_ticket_key("ABC-123"));
    assert!(is_ticket_key("AB_C-1"));
    assert!(is_ticket_key("AB-1"));
    assert!(is_ticket_key("A9-10"));
}

#[test]
fn key_shape_rejects_malformed_keys() {
    assert!(!is_ticket_key("abc-123"), "lowercase prefix");
    assert!(!is_ticket_key("ABC-0"), "zero ticket number");
    assert!(!is_ticket_key("ABC123"), "no dash");
    assert!(!is_ticket_key("ABC-012"), "leading zero");
    assert!(!is_ticket_key("A-1"), "prefix too short");
    assert!(!is_ticket_key("ABC-"), "no number");
    assert!(!is_ticket_key("ABC-1x"), "trailing text");
    assert!(!is_ticket_key(""), "empty");
}

#[test]
fn scanning_respects_word_boundaries() {
    assert!(has_match("see ABC-12 here"));
    assert!(has_match("ABC-12"));
    assert!(has_match("(ABC-12)"));
    assert!(!has_match("xABC-12"), "preceded by a word character");
    assert!(!has_match("no key in sight"));
}

#[test]
fn find_key_returns_leftmost_greedy_match() {
    let s = "AA-1 and BB-2";
    let r = find_key(s).expect("match expected");
    assert_eq!(r, (0, 4));
    // greedy: the match takes all trailing digits
    let t = "pick XY-1234z";
    let r2 = find_key(t).expect("match expected");
    assert_eq!(&t[r2.0..r2.1], "XY-1234");
}

#[test]
fn extraction_cuts_key_and_cleans_residual() {
    match extract_from_description("Fix PROJ-5 login bug") {
        KeyExtraction::Found { key, residual } => {
            assert_eq!(key, "PROJ-5");
            assert_eq!(residual, "Fix  login bug");
        },
        KeyExtraction::NotFound => panic!("expected a key"),
    }
}

#[test]
fn extraction_handles_key_prefix_form() {
    match extract_from_description("NEW-1: setup") {
        KeyExtraction::Found { key, residual } => {
            assert_eq!(key, "NEW-1");
            assert_eq!(residual, "setup");
        },
        KeyExtraction::NotFound => panic!("expected a key"),
    }
}

#[test]
fn extraction_reports_missing_key() {
    match extract_from_description("just some work") {
        KeyExtraction::Found { .. } => panic!("no key expected"),
        KeyExtraction::NotFound => {},
    }
}
