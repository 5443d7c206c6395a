use gh_stats::{count_by_pr, PRInfo, PRStats, RepoCounts};

fn records(repos: &[&str]) -> Vec<PRInfo> {
    repos.iter().map(|repo| PRInfo::new(repo.to_string())).collect()
}

#[test]
fn new_stats_are_zero() {
    let stats = PRStats::new();
    assert_eq!(stats.approved, 0);
    assert_eq!(stats.not_approved, 0);
    assert_eq!(stats.total(), 0);
}

#[test]
fn new_with_keeps_the_counts() {
    let stats = PRStats::new_with(3, 4);
    assert_eq!(stats.approved, 3);
    assert_eq!(stats.not_approved, 4);
    assert_eq!(stats.total(), 7);
}

#[test]
fn update_from_adds_both_counts() {
    let mut stats = PRStats::new_with(1, 2);
    stats.update_from(&PRStats::new_with(10, 20));
    assert_eq!(stats, PRStats::new_with(11, 22));
}

#[test]
fn total_does_not_overflow() {
    let stats = PRStats::new_with(usize::MAX, usize::MAX);
    assert_eq!(stats.total(), 2 * (usize::MAX as u128));
    assert_eq!(stats.rate(), Some(50));
}

#[test]
fn rate_is_in_hundredths() {
    assert_eq!(PRStats::new_with(1, 1).rate(), Some(50));
    assert_eq!(PRStats::new_with(1, 0).rate(), Some(100));
    assert_eq!(PRStats::new_with(0, 1).rate(), Some(0));
    assert_eq!(PRStats::new_with(2, 1).rate(), Some(67));
    assert_eq!(PRStats::new_with(1, 2).rate(), Some(33));
    assert_eq!(PRStats::new_with(0, 0).rate(), None);
}

#[test]
fn rate_halfway_goes_to_the_even_hundredth() {
    assert_eq!(PRStats::new_with(1, 7).rate(), Some(12));
    assert_eq!(PRStats::new_with(3, 5).rate(), Some(38));
    assert_eq!(PRStats::new_with(5, 3).rate(), Some(62));
    assert_eq!(PRStats::new_with(7, 1).rate(), Some(88));
    assert_eq!(PRStats::new_with(1, 199).rate(), Some(0));
    assert_eq!(PRStats::new_with(3, 197).rate(), Some(2));
}

#[test]
fn rate_stays_within_zero_and_one() {
    for approved in 0usize..40 {
        for not_approved in 0usize..40 {
            if approved + not_approved > 0 {
                let rate = PRStats::new_with(approved, not_approved).rate().unwrap();
                assert!(rate <= 100);
                let exact = 100.0 * approved as f64 / (approved + not_approved) as f64;
                assert!((rate as f64 - exact).abs() <= 0.5);
            }
        }
    }
}

#[test]
fn stats_render_with_two_decimals() {
    assert_eq!(
        PRStats::new_with(2, 1).render(),
        "total: 3, approved: 2, not approved: 1, rate: 0.67"
    );
    assert_eq!(
        PRStats::new_with(1, 1).render(),
        "total: 2, approved: 1, not approved: 1, rate: 0.50"
    );
    assert_eq!(
        PRStats::new_with(12, 0).render(),
        "total: 12, approved: 12, not approved: 0, rate: 1.00"
    );
    assert_eq!(
        PRStats::new_with(0, 5).render(),
        "total: 5, approved: 0, not approved: 5, rate: 0.00"
    );
    assert_eq!(
        PRStats::new_with(1, 19).render(),
        "total: 20, approved: 1, not approved: 19, rate: 0.05"
    );
}

#[test]
fn stats_without_counts_render_a_marker() {
    assert_eq!(
        PRStats::new().render(),
        "total: 0, approved: 0, not approved: 0, rate: NaN"
    );
    assert_eq!(
        PRStats::new().render_total(),
        "Total: 0 total, 0 approved, 0 not approved, rate: NaN"
    );
}

#[test]
fn totals_render_as_a_sentence() {
    assert_eq!(
        PRStats::new_with(2, 1).render_total(),
        "Total: 3 total, 2 approved, 1 not approved, rate: 0.67"
    );
}

#[test]
fn push_to_appends() {
    let mut text = String::from("repo: ");
    PRStats::new_with(1, 3).push_to(&mut text);
    assert_eq!(text, "repo: total: 4, approved: 1, not approved: 3, rate: 0.25");
}

#[test]
fn count_of_no_records_is_empty() {
    let counts = count_by_pr(&[]);
    assert_eq!(counts.entries().len(), 0);
    assert_eq!(counts.get("R"), 0);
    assert!(!counts.contains("R"));
}

#[test]
fn count_of_records_of_one_repository() {
    for n in 1usize..6 {
        let prs = records(&vec!["R"; n]);
        let counts = count_by_pr(&prs);
        assert_eq!(counts.entries().len(), 1);
        assert_eq!(counts.entries()[0].repo, "R");
        assert_eq!(counts.entries()[0].count, n);
        assert_eq!(counts.get("R"), n);
        assert!(counts.contains("R"));
    }
}

#[test]
fn count_by_repository() {
    let prs = records(&["b", "a", "b", "c", "b", "a"]);
    let counts = count_by_pr(&prs);
    assert_eq!(counts.entries().len(), 3);
    assert_eq!(counts.get("a"), 2);
    assert_eq!(counts.get("b"), 3);
    assert_eq!(counts.get("c"), 1);
    assert_eq!(counts.get("d"), 0);
    assert!(!counts.contains("d"));
    let mut repos: Vec<&str> = counts.entries().iter().map(|e| e.repo.as_str()).collect();
    repos.sort();
    assert_eq!(repos, vec!["a", "b", "c"]);
}

#[test]
fn counts_built_by_hand() {
    let mut counts = RepoCounts::new();
    assert_eq!(counts.entries().len(), 0);
    assert!(counts.add("x", 2));
    assert!(counts.add("y", 0));
    assert!(counts.add("x", 3));
    assert_eq!(counts.get("x"), 5);
    assert_eq!(counts.get("y"), 0);
    assert!(counts.contains("y"));
    assert!(!counts.contains("z"));
    assert_eq!(counts.entries().len(), 2);
}

#[test]
fn counts_refuse_what_does_not_fit() {
    let mut counts = RepoCounts::new();
    assert!(counts.add("x", usize::MAX - 1));
    assert!(!counts.add("y", 2));
    assert!(!counts.contains("y"));
    assert!(!counts.add("x", 2));
    assert_eq!(counts.get("x"), usize::MAX - 1);
    assert!(counts.add("y", 1));
    assert_eq!(counts.get("y"), 1);
}
