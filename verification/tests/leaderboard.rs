use scan::leaderboard::{
    entry_at, make_entry, new_entry, timestamp_at, rank_submission, requested_category, sanitize_player_name, GetParams,
    LeaderboardData, LeaderboardEntry, SubmitRequest,
};

fn entry(name: &str, score: u32) -> LeaderboardEntry {
    LeaderboardEntry { name: name.to_string(), score, date: String::new() }
}

fn submit(data: &mut LeaderboardData, name: &str, score: u32, category: &str) -> Vec<LeaderboardEntry> {
    let req = SubmitRequest { name: name.to_string(), score, category: category.to_string() };
    let e = make_entry(&req, "2026-01-01T00:00:00+00:00".to_string());
    data.submit(&req.category, e)
}

#[test]
fn leaderboard_get_returns_empty_when_no_file() {
    let data = LeaderboardData::new();
    let list = data.entries_for("Alpha");
    assert_eq!(list.len(), 0);
}

#[test]
fn leaderboard_post_persists_and_get_returns_same() {
    let mut data = LeaderboardData::new();
    let returned = submit(&mut data, "ALI", 100, "Alpha");
    assert_eq!(returned.len(), 1);
    assert_eq!(returned[0].name, "ALI");
    assert_eq!(returned[0].score, 100);
    let stored = data.entries_for("Alpha");
    assert_eq!(stored.len(), 1);
    assert_eq!(stored[0].name, "ALI");
    assert_eq!(stored[0].score, 100);
}

#[test]
fn leaderboard_post_sanitizes_player_name() {
    let mut data = LeaderboardData::new();
    let returned = submit(&mut data, "  xyz123  ", 5, "Alpha");
    assert_eq!(returned.len(), 1);
    assert_eq!(returned[0].name, "XYZ");
}

#[test]
fn sanitize_examples() {
    assert_eq!(sanitize_player_name("ab"), "AB");
    assert_eq!(sanitize_player_name("abcdef"), "ABC");
    assert_eq!(sanitize_player_name("a1b2c3d4"), "ABC");
    assert_eq!(sanitize_player_name("123"), "AAA");
    assert_eq!(sanitize_player_name(""), "AAA");
    assert_eq!(sanitize_player_name("éa"), "A");
    assert_eq!(sanitize_player_name(&sanitize_player_name("q r s t")), "QRS");
}

#[test]
fn ranking_is_ascending_stable_and_capped() {
    let mut data = LeaderboardData::new();
    for (i, score) in [50u32, 20, 70, 20, 10, 90, 30, 40, 60, 80, 100, 5].iter().enumerate() {
        let name = ["AAA", "BBB", "CCC", "DDD", "EEE", "FFF", "GGG", "HHH", "III", "JJJ", "KKK", "LLL"][i];
        submit(&mut data, name, *score, "Beta");
    }
    let list = data.entries_for("Beta");
    assert_eq!(list.len(), 10);
    let scores: Vec<u32> = list.iter().map(|e| e.score).collect();
    assert_eq!(scores, vec![5, 10, 20, 20, 30, 40, 50, 60, 70, 80]);
    // equal scores keep submission order
    assert_eq!(list[2].name, "BBB");
    assert_eq!(list[3].name, "DDD");
}

#[test]
fn categories_are_independent() {
    let mut data = LeaderboardData::new();
    submit(&mut data, "AAA", 3, "Alpha");
    submit(&mut data, "BBB", 1, "Gamma");
    assert_eq!(data.entries_for("Alpha").len(), 1);
    assert_eq!(data.entries_for("Gamma")[0].name, "BBB");
    assert_eq!(data.entries_for("Beta").len(), 0);
    assert_eq!(data.entry_count(), 2);
}

#[test]
fn unsorted_stored_list_is_sorted_on_submit() {
    let list = vec![entry("CCC", 30), entry("AAA", 10), entry("BBB", 30), entry("DDD", 20)];
    let ranked = rank_submission(list, entry("EEE", 30));
    let names: Vec<&str> = ranked.iter().map(|e| e.name.as_str()).collect();
    assert_eq!(names, vec!["AAA", "DDD", "CCC", "BBB", "EEE"]);
}

#[test]
fn full_list_drops_worse_submission() {
    let list: Vec<LeaderboardEntry> = (1..=10).map(|s| entry("AAA", s)).collect();
    let ranked = rank_submission(list, entry("ZZZ", 11));
    assert_eq!(ranked.len(), 10);
    assert!(ranked.iter().all(|e| e.name != "ZZZ"));
}

#[test]
fn category_defaults_to_alpha() {
    assert_eq!(requested_category(&GetParams { category: None }), "Alpha");
    assert_eq!(requested_category(&GetParams { category: Some("Gamma".to_string()) }), "Gamma");
}

#[test]
fn new_entry_is_stamped_and_sanitized() {
    let req = SubmitRequest { name: "zed!".to_string(), score: 42, category: "Alpha".to_string() };
    let e = new_entry(&req).expect("the clock is after the Unix epoch");
    assert_eq!(e.name, "ZED");
    assert_eq!(e.score, 42);
    assert!(!e.date.is_empty());
    assert!(e.date.ends_with("+00:00"));
}

#[test]
fn entry_at_writes_rfc3339_utc() {
    let req = SubmitRequest { name: "ab1".to_string(), score: 7, category: "Beta".to_string() };
    let e = entry_at(&req, Some((1431648000, 0))).unwrap();
    assert_eq!(e.name, "AB");
    assert_eq!(e.score, 7);
    assert_eq!(e.date, "2015-05-15T00:00:00+00:00");
    let e = entry_at(&req, Some((1431648000, 500_000_000))).unwrap();
    assert_eq!(e.date, "2015-05-15T00:00:00.500+00:00");
    assert_eq!(timestamp_at(Some((0, 0))), Some("1970-01-01T00:00:00+00:00".to_string()));
    assert!(entry_at(&req, None).is_none());
    assert!(entry_at(&req, Some((u64::MAX, 0))).is_none());
    assert!(timestamp_at(Some((i64::MAX as u64, 0))).is_none());
}
