use termsweeper::ledger::{insert, is_before, merge, query};
use termsweeper::{parse_line, read_leaderboard, write_leaderboard, Difficulty, Score};

fn score(d: Difficulty, secs: u64) -> Score {
    Score::new(d, secs)
}

#[test]
fn score_accessors() {
    let s = Score::new(Difficulty::Medium, 75);
    assert_eq!(s.difficulty(), Difficulty::Medium);
    assert_eq!(s.time(), 75);
}

#[test]
fn score_as_string() {
    assert_eq!(score(Difficulty::Easy, 0).as_string(), "Easy: 0");
    assert_eq!(score(Difficulty::Medium, 9).as_string(), "Medium: 9");
    assert_eq!(score(Difficulty::Hard, 10).as_string(), "Hard: 10");
    assert_eq!(score(Difficulty::Easy, 12345).as_string(), "Easy: 12345");
    assert_eq!(score(Difficulty::Hard, u64::MAX).as_string(), "Hard: 18446744073709551615");
}

#[test]
fn parse_line_reads_scores() {
    assert_eq!(parse_line("Easy: 12"), Some(score(Difficulty::Easy, 12)));
    assert_eq!(parse_line("Medium: 0"), Some(score(Difficulty::Medium, 0)));
    assert_eq!(parse_line("Hard: 18446744073709551615"), Some(score(Difficulty::Hard, u64::MAX)));
    assert_eq!(parse_line("Easy: 007"), Some(score(Difficulty::Easy, 7)));
    assert_eq!(parse_line("Easy: +7"), Some(score(Difficulty::Easy, 7)));
    assert_eq!(
        parse_line("Easy: 000000000000000000000000000000018446744073709551615"),
        Some(score(Difficulty::Easy, u64::MAX))
    );
}

#[test]
fn parse_line_skips_malformed_lines() {
    for line in [
        "",
        "Easy",
        "Easy:",
        "Easy: ",
        "Easy:12",
        "Easy : 12",
        "easy: 12",
        "Expert: 12",
        " Easy: 12",
        "Easy: 12 ",
        "Easy:  12",
        "Easy: -1",
        "Easy: +",
        "Easy: ++1",
        "Easy: 1.5",
        "Easy: 12s",
        "Easy: 0x10",
        "Easy: 18446744073709551616",
        "Easy: 99999999999999999999999",
        "Medium: twelve",
        "Hard: 1:2",
        ": 12",
        "Easy: Medium: 12",
        "Easy: ١٢",
        "Éasy: 12",
        "Easy: 12\r",
    ] {
        assert_eq!(parse_line(line), None, "line {:?}", line);
    }
}

#[test]
fn text_round_trip_keeps_the_score() {
    for d in [Difficulty::Easy, Difficulty::Medium, Difficulty::Hard] {
        for secs in [0, 1, 9, 10, 11, 99, 100, 12345, 4294967296, u64::MAX - 1, u64::MAX] {
            let s = score(d, secs);
            assert_eq!(parse_line(&s.as_string()), Some(s));
        }
    }
}

#[test]
fn order_is_by_seconds_then_by_preset() {
    assert!(is_before(&score(Difficulty::Hard, 5), &score(Difficulty::Easy, 6)));
    assert!(!is_before(&score(Difficulty::Easy, 6), &score(Difficulty::Hard, 5)));
    assert!(is_before(&score(Difficulty::Easy, 5), &score(Difficulty::Medium, 5)));
    assert!(is_before(&score(Difficulty::Medium, 5), &score(Difficulty::Hard, 5)));
    assert!(!is_before(&score(Difficulty::Hard, 5), &score(Difficulty::Hard, 5)));
}

#[test]
fn insert_keeps_order_and_drops_duplicates() {
    let mut ledger = Vec::new();
    insert(&mut ledger, score(Difficulty::Easy, 30));
    insert(&mut ledger, score(Difficulty::Easy, 10));
    insert(&mut ledger, score(Difficulty::Hard, 20));
    insert(&mut ledger, score(Difficulty::Easy, 20));
    insert(&mut ledger, score(Difficulty::Easy, 30));
    insert(&mut ledger, score(Difficulty::Easy, 40));
    assert_eq!(
        ledger,
        vec![
            score(Difficulty::Easy, 10),
            score(Difficulty::Easy, 20),
            score(Difficulty::Hard, 20),
            score(Difficulty::Easy, 30),
            score(Difficulty::Easy, 40),
        ]
    );
}

#[test]
fn merge_sorts_by_time_and_removes_duplicates() {
    let existing = vec![score(Difficulty::Easy, 100), score(Difficulty::Medium, 20), score(Difficulty::Easy, 100)];
    let new_scores = vec![score(Difficulty::Hard, 3), score(Difficulty::Medium, 20), score(Difficulty::Easy, 20)];
    assert_eq!(
        merge(&existing, &new_scores),
        vec![
            score(Difficulty::Hard, 3),
            score(Difficulty::Easy, 20),
            score(Difficulty::Medium, 20),
            score(Difficulty::Easy, 100),
        ]
    );
    assert_eq!(merge(&Vec::new(), &Vec::new()), Vec::new());
}

#[test]
fn merge_is_idempotent() {
    let a = vec![score(Difficulty::Easy, 9), score(Difficulty::Hard, 100), score(Difficulty::Easy, 20)];
    let b = vec![score(Difficulty::Medium, 9), score(Difficulty::Easy, 9)];
    let once = merge(&a, &b);
    assert_eq!(merge(&once, &once), once);
    assert_eq!(merge(&once, &Vec::new()), once);
    assert_eq!(merge(&Vec::new(), &once), once);
    assert_eq!(merge(&once, &a), once);
    assert_eq!(merge(&b, &a), once);
}

#[test]
fn query_filters_and_keeps_order() {
    let ledger = merge(
        &vec![
            score(Difficulty::Easy, 50),
            score(Difficulty::Hard, 10),
            score(Difficulty::Easy, 5),
            score(Difficulty::Medium, 7),
            score(Difficulty::Easy, 7),
        ],
        &Vec::new(),
    );
    assert_eq!(
        query(&ledger, Difficulty::Easy),
        vec![score(Difficulty::Easy, 5), score(Difficulty::Easy, 7), score(Difficulty::Easy, 50)]
    );
    assert_eq!(query(&ledger, Difficulty::Hard), vec![score(Difficulty::Hard, 10)]);
    assert_eq!(query(&Vec::new(), Difficulty::Hard), Vec::new());
}

#[test]
fn read_leaderboard_skips_bad_lines() {
    let lines: Vec<String> =
        ["Easy: 12", "garbage", "", "Hard: 7", "Medium: x", "Easy: 12"].iter().map(|l| l.to_string()).collect();
    assert_eq!(
        read_leaderboard(&lines),
        Some(vec![score(Difficulty::Easy, 12), score(Difficulty::Hard, 7), score(Difficulty::Easy, 12)])
    );
}

#[test]
fn read_leaderboard_without_scores_is_none() {
    assert_eq!(read_leaderboard(&Vec::new()), None);
    let lines: Vec<String> = ["nothing", "Easy 12"].iter().map(|l| l.to_string()).collect();
    assert_eq!(read_leaderboard(&lines), None);
}

#[test]
fn write_leaderboard_merges_with_what_is_there() {
    let existing = Some(vec![score(Difficulty::Easy, 100), score(Difficulty::Hard, 20)]);
    let lines = write_leaderboard(existing, &vec![score(Difficulty::Easy, 30), score(Difficulty::Hard, 20)]);
    assert_eq!(lines, vec!["Hard: 20", "Easy: 30", "Easy: 100"]);
    let lines = write_leaderboard(None, &vec![score(Difficulty::Easy, 30), score(Difficulty::Easy, 3)]);
    assert_eq!(lines, vec!["Easy: 3", "Easy: 30"]);
    assert_eq!(write_leaderboard(None, &Vec::new()), Vec::<String>::new());
}

#[test]
fn written_lines_read_back() {
    let scores = vec![score(Difficulty::Medium, 61), score(Difficulty::Easy, 5), score(Difficulty::Hard, 600)];
    let lines = write_leaderboard(None, &scores);
    assert_eq!(read_leaderboard(&lines), Some(merge(&scores, &Vec::new())));
}
