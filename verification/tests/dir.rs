use zoxide::dir::{Dir, DirList, DAY, HOUR, MAX_DISPLAY_SCORE, RANK_ONE, SCORE_ONE, WEEK};

fn dir(path: &str, rank: u64, last_accessed: u64) -> Dir<'static> {
    Dir { path: path.to_string().into(), rank, last_accessed }
}

#[test]
fn score_is_four_times_the_rank_within_the_hour() {
    let d = dir("/a", 2 * RANK_ONE, 1_000);
    assert_eq!(d.score(1_000), 8 * SCORE_ONE);
    assert_eq!(d.score(1_000 + HOUR - 1), 8 * SCORE_ONE);
}

#[test]
fn score_is_twice_the_rank_within_the_day() {
    let d = dir("/a", 2 * RANK_ONE, 1_000);
    assert_eq!(d.score(1_000 + HOUR), 4 * SCORE_ONE);
    assert_eq!(d.score(1_000 + DAY - 1), 4 * SCORE_ONE);
}

#[test]
fn score_is_half_the_rank_within_the_week() {
    let d = dir("/a", 2 * RANK_ONE, 1_000);
    assert_eq!(d.score(1_000 + DAY), SCORE_ONE);
    assert_eq!(d.score(1_000 + WEEK - 1), SCORE_ONE);
}

#[test]
fn score_is_a_quarter_of_the_rank_after_a_week() {
    let d = dir("/a", 2 * RANK_ONE, 1_000);
    assert_eq!(d.score(1_000 + WEEK), SCORE_ONE / 2);
    assert_eq!(d.score(u64::MAX), SCORE_ONE / 2);
}

#[test]
fn a_visit_in_the_future_counts_as_one_just_now() {
    let d = dir("/a", 3 * RANK_ONE, 5_000_000);
    assert_eq!(d.score(0), 12 * SCORE_ONE);
    assert_eq!(d.score(4_999_999), 12 * SCORE_ONE);
}

#[test]
fn score_of_the_highest_rank_does_not_wrap() {
    let d = dir("/a", u64::MAX, 0);
    assert_eq!(d.score(0), 16 * (u64::MAX as u128));
    assert_eq!(d.score(HOUR), 8 * (u64::MAX as u128));
}

#[test]
fn score_keeps_the_quarters_of_a_unit() {
    assert_eq!(SCORE_ONE, 4 * RANK_ONE as u128);
    let d = dir("/a", 7, 0);
    assert_eq!(d.score(0), 112);
    assert_eq!(d.score(HOUR), 56);
    assert_eq!(d.score(DAY), 14);
    assert_eq!(d.score(WEEK), 7);
}

#[test]
fn score_drops_at_every_boundary() {
    for rank in [1, 2, 3, RANK_ONE, u64::MAX] {
        let d = dir("/a", rank, 50);
        assert!(d.score(50 + HOUR - 1) > d.score(50 + HOUR));
        assert!(d.score(50 + DAY - 1) > d.score(50 + DAY));
        assert!(d.score(50 + WEEK - 1) > d.score(50 + WEEK));
        assert!(d.score(50 + WEEK) > 0);
    }
    assert_eq!(dir("/a", 0, 50).score(50), 0);
}

#[test]
fn score_falls_as_the_visit_gets_older() {
    let d = dir("/a", 5 * RANK_ONE + 3, 10);
    let times = [0, 10, 11, 10 + HOUR - 1, 10 + HOUR, 10 + DAY - 1, 10 + DAY, 10 + WEEK - 1, 10 + WEEK, u64::MAX];
    for pair in times.windows(2) {
        assert!(d.score(pair[0]) >= d.score(pair[1]));
    }
}

#[test]
fn shown_score_is_in_whole_visits() {
    assert_eq!(dir("/a", 2 * RANK_ONE, 0).shown_score(10), 8);
    assert_eq!(dir("/a", RANK_ONE / 2, 0).shown_score(10), 2);
    assert_eq!(dir("/a", RANK_ONE / 8, 0).shown_score(10), 0);
    assert_eq!(dir("/a", RANK_ONE - 1, 0).shown_score(WEEK), 0);
    assert_eq!(dir("/a", 0, 0).shown_score(0), 0);
}

#[test]
fn shown_score_stops_at_its_maximum() {
    assert_eq!(MAX_DISPLAY_SCORE, 9_999);
    assert_eq!(dir("/a", 2_500 * RANK_ONE, 0).shown_score(0), 9_999);
    assert_eq!(dir("/a", 2_500 * RANK_ONE - 1, 0).shown_score(0), 9_999);
    assert_eq!(dir("/a", 2_499 * RANK_ONE + 3 * RANK_ONE / 4, 0).shown_score(0), 9_999);
    assert_eq!(dir("/a", 2_499 * RANK_ONE, 0).shown_score(0), 9_996);
    assert_eq!(dir("/a", u64::MAX, 0).shown_score(0), 9_999);
}

#[test]
fn shown_score_leaves_the_rank_alone() {
    let d = dir("/a", u64::MAX, 3);
    let _ = d.shown_score(3);
    let _ = d.display_score(3).to_string();
    assert_eq!(d.rank, u64::MAX);
    assert_eq!(d.last_accessed, 3);
}

#[test]
fn display_is_the_path() {
    assert_eq!(dir("/home/a b", RANK_ONE, 0).display().to_string(), "/home/a b");
    assert_eq!(dir("", RANK_ONE, 0).display().to_string(), "");
}

#[test]
fn display_score_is_the_score_a_space_and_the_path() {
    let entry = Dir { path: "/home/a".into(), rank: 2 * RANK_ONE, last_accessed: 10 };
    assert_eq!(entry.display_score(10).to_string(), "8 /home/a");
    assert_eq!(dir("/home/a", 2 * RANK_ONE, 0).display_score(10).to_string(), "8 /home/a");
    assert_eq!(dir("/x", 0, 0).display_score(10).to_string(), "0 /x");
    assert_eq!(dir("/x", 3 * RANK_ONE, 0).display_score(10).to_string(), "12 /x");
    assert_eq!(dir("/x", 30 * RANK_ONE, 0).display_score(10).to_string(), "120 /x");
    assert_eq!(dir("/x", 300 * RANK_ONE, 0).display_score(10).to_string(), "1200 /x");
    assert_eq!(dir("/x", 3_000 * RANK_ONE, 0).display_score(10).to_string(), "9999 /x");
    assert_eq!(dir("/x", 40 * RANK_ONE, 0).display_score(WEEK).to_string(), "10 /x");
    assert_eq!(dir(" /x y", RANK_ONE, 0).display_score(0).to_string(), "4  /x y");
    assert_eq!(dir("", RANK_ONE, 0).display_score(0).to_string(), "4 ");
}

#[test]
fn a_copy_has_the_same_fields() {
    let d = dir("/a/b", 7, 9);
    let copy = d.clone();
    assert_eq!(copy.path, d.path);
    assert_eq!(copy.rank, 7);
    assert_eq!(copy.last_accessed, 9);
    let borrowed = Dir { path: "/c".into(), rank: 1, last_accessed: 2 };
    assert!(matches!(borrowed.clone().path, std::borrow::Cow::Borrowed("/c")));
    assert_eq!(borrowed.path_str(), "/c");
}

#[test]
fn a_list_is_made_from_a_vector_and_used_as_one() {
    let mut dirs = DirList::from(vec![dir("/a", 1, 2)]);
    assert_eq!(dirs.len(), 1);
    dirs.push(dir("/b", 3, 4));
    assert_eq!(dirs.len(), 2);
    assert_eq!(dirs[1].path, "/b");
    dirs[0].rank = 9;
    assert_eq!(dirs.0[0].rank, 9);
    assert!(DirList::new().is_empty());
}
