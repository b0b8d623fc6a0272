use arcade_guess::store::{parse_score_line, parse_user_line, RecordStore, ScoreRecord};
use arcade_guess::text::{parse_u32, split_commas, trim_text};

#[test]
fn malformed_user_lines_are_skipped() {
    let mut store = RecordStore::new();
    store.users.push("AAA,one".to_string());
    store.users.push("garbage".to_string());
    store.users.push("B,two,three".to_string());
    store.users.push("CCC,three".to_string());
    let users = store.load_users();
    assert_eq!(users.lookup("AAA"), Some(&"one".to_string()));
    assert_eq!(users.lookup("CCC"), Some(&"three".to_string()));
    assert_eq!(users.lookup("B"), None);
    assert_eq!(users.lookup("garbage"), None);
}

#[test]
fn later_user_line_wins() {
    let mut store = RecordStore::new();
    store.append_user("AAA", "first");
    store.append_user("AAA", "second");
    let users = store.load_users();
    assert_eq!(users.lookup("AAA"), Some(&"second".to_string()));
}

#[test]
fn malformed_score_lines_are_skipped() {
    let mut store = RecordStore::new();
    store.scores.push("AAA,7,2024-01-01T00:00:00Z".to_string());
    store.scores.push("AAA,seven,2024-01-01T00:00:00Z".to_string());
    store.scores.push("AAA,7".to_string());
    store.scores.push("AAA,-3,x".to_string());
    store.scores.push("".to_string());
    store.scores.push("BBB,4,2024-01-02T00:00:00Z\r".to_string());
    let scores = store.load_scores();
    assert_eq!(
        scores,
        vec![
            ScoreRecord {
                initials: "AAA".to_string(),
                guess_count: 7,
                timestamp: "2024-01-01T00:00:00Z".to_string(),
            },
            ScoreRecord {
                initials: "BBB".to_string(),
                guess_count: 4,
                timestamp: "2024-01-02T00:00:00Z".to_string(),
            },
        ]
    );
}

#[test]
fn empty_store_loads_nothing() {
    let store = RecordStore::new();
    assert!(store.load_scores().is_empty());
    assert_eq!(store.load_users().lookup("AAA"), None);
}

#[test]
fn score_line_format() {
    let mut store = RecordStore::new();
    let line = store.append_score("AAA", 42, "2024-01-01T00:00:00Z");
    assert_eq!(line, "AAA,42,2024-01-01T00:00:00Z");
    assert_eq!(store.scores, vec![line.clone()]);
    let rec = parse_score_line(&line).unwrap();
    assert_eq!(rec.guess_count, 42);
    let line = store.append_score("B", 4294967295, "t");
    assert_eq!(line, "B,4294967295,t");
}

#[test]
fn login_line_format() {
    let mut store = RecordStore::new();
    let line = store.append_login("ABC", "2024-05-06T07:08:09+00:00");
    assert_eq!(line, "ABC,2024-05-06T07:08:09+00:00");
    assert_eq!(store.logins, vec![line]);
    assert!(store.users.is_empty() && store.scores.is_empty());
}

#[test]
fn user_line_parsing() {
    assert_eq!(
        parse_user_line("  AB,pw  "),
        Some(("AB".to_string(), "pw".to_string()))
    );
    assert_eq!(parse_user_line("AB"), None);
    assert_eq!(parse_user_line("A,b,c"), None);
    assert_eq!(parse_user_line(","), Some((String::new(), String::new())));
}

#[test]
fn number_parsing_matches_std() {
    for s in ["0", "7", "+7", "007", "4294967295", "4294967296", "", "+", "-1", "1 2", "x", "-0", "99999999999"] {
        assert_eq!(parse_u32(s), s.parse::<u32>().ok(), "input {:?}", s);
    }
}

#[test]
fn trimming_and_splitting() {
    assert_eq!(trim_text("  a b \t\n"), "a b");
    assert_eq!(trim_text("\u{3000}x\u{a0}"), "x");
    assert_eq!(trim_text("   "), "");
    assert_eq!(split_commas("a,,b"), vec!["a", "", "b"]);
    assert_eq!(split_commas(""), vec![""]);
    assert_eq!(split_commas(","), vec!["", ""]);
}
