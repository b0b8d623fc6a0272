use arcade_guess::ledger::{
    get_personal_best, leaderboard, leaderboard_rows, personal_best, save_score,
    LEADERBOARD_SIZE,
};
use arcade_guess::store::{RecordStore, ScoreRecord};

fn rec(initials: &str, guess_count: u32, timestamp: &str) -> ScoreRecord {
    ScoreRecord {
        initials: initials.to_string(),
        guess_count,
        timestamp: timestamp.to_string(),
    }
}

#[test]
fn scores_end_to_end() {
    let mut store = RecordStore::new();
    store.append_score("AAA", 7, "2024-01-01T00:00:00Z");
    store.append_score("AAA", 3, "2024-01-02T00:00:00Z");
    store.append_score("BBB", 5, "2024-01-03T00:00:00Z");
    let top = leaderboard(&store.load_scores(), 10);
    assert_eq!(
        top,
        vec![
            rec("AAA", 3, "2024-01-02T00:00:00Z"),
            rec("BBB", 5, "2024-01-03T00:00:00Z"),
            rec("AAA", 7, "2024-01-01T00:00:00Z"),
        ]
    );
    assert_eq!(get_personal_best(&store, "AAA"), Some(3));
    assert_eq!(get_personal_best(&store, "BBB"), Some(5));
    assert_eq!(get_personal_best(&store, "CCC"), None);
    let rows = leaderboard_rows(&store);
    assert_eq!(rows.len(), 3);
    assert_eq!(rows[0].initials, "AAA");
    assert_eq!(rows[0].guess_count, 3);
    assert_eq!(rows[0].date, "2024-01-02");
    assert_eq!(rows[2].date, "2024-01-01");
}

#[test]
fn personal_best_is_minimum_of_appended() {
    let mut store = RecordStore::new();
    store.append_score("ZZ", 1, "2024-01-01T00:00:00Z");
    for (i, n) in [9u32, 4, 12, 4, 6].iter().enumerate() {
        store.append_score("AB", *n, &format!("2024-02-0{}T00:00:00Z", i + 1));
    }
    assert_eq!(get_personal_best(&store, "AB"), Some(4));
    assert_eq!(personal_best(&store.load_scores(), "ZZ"), Some(1));
}

#[test]
fn leaderboard_is_stable_and_limited() {
    let mut records = Vec::new();
    for i in 0..15u32 {
        records.push(rec(&format!("U{}", i), 5 - (i % 3), &format!("t{}", i)));
    }
    let top = leaderboard(&records, LEADERBOARD_SIZE);
    assert_eq!(top.len(), 10);
    for w in top.windows(2) {
        assert!(w[0].guess_count <= w[1].guess_count);
    }
    let threes: Vec<&str> = top
        .iter()
        .filter(|r| r.guess_count == 3)
        .map(|r| r.initials.as_str())
        .collect();
    assert_eq!(threes, vec!["U2", "U5", "U8", "U11", "U14"]);
    let fours: Vec<&str> = top
        .iter()
        .filter(|r| r.guess_count == 4)
        .map(|r| r.initials.as_str())
        .collect();
    assert_eq!(fours, vec!["U1", "U4", "U7", "U10", "U13"]);
    assert!(leaderboard(&records, 0).is_empty());
    assert!(leaderboard(&Vec::new(), 10).is_empty());
}

#[test]
fn leaderboard_date_falls_back() {
    let mut store = RecordStore::new();
    store.append_score("AAA", 2, "not a time");
    store.append_score("BBB", 1, "2023-12-31T23:30:00-02:00");
    let rows = leaderboard_rows(&store);
    assert_eq!(rows[0].initials, "BBB");
    assert_eq!(rows[0].date, "2024-01-01");
    assert_eq!(rows[1].date, "N/A");
}

#[test]
fn save_score_appends_with_current_time() {
    let mut store = RecordStore::new();
    let ts = save_score(&mut store, "AAA", 8);
    assert_eq!(store.scores, vec![format!("AAA,8,{}", ts)]);
    assert!(ts.starts_with("20"));
    assert_eq!(get_personal_best(&store, "AAA"), Some(8));
}

#[test]
fn saved_timestamps_are_plain_and_read_back() {
    let mut store = RecordStore::new();
    let first = save_score(&mut store, "QQ", 9);
    let second = save_score(&mut store, "QQ", 4);
    let third = save_score(&mut store, "QQ", 6);
    for ts in [&first, &second, &third] {
        assert!(!ts.is_empty());
        assert!(!ts.contains(','));
        assert!(!ts.chars().any(char::is_whitespace));
    }
    assert_eq!(store.load_scores().len(), 3);
    assert_eq!(get_personal_best(&store, "QQ"), Some(4));
}
