use gh_stats::{
    approved_query, count_by_pr, not_approved_query, pr_stats, report, FetchAction, PRInfo, PRList,
    PRStats, PagedFetch, RepoCounts, StatsMap,
};

fn records(repos: &[&str]) -> Vec<PRInfo> {
    repos.iter().map(|repo| PRInfo::new(repo.to_string())).collect()
}

fn counts(pairs: &[(&str, usize)]) -> RepoCounts {
    let mut counts = RepoCounts::new();
    for (repo, n) in pairs {
        assert!(counts.add(repo, *n));
    }
    counts
}

#[test]
fn combine_covers_the_union_of_keys() {
    let approved = counts(&[("a", 1), ("b", 2)]);
    let not_approved = counts(&[("b", 3), ("c", 4)]);
    let merged = StatsMap::combine(&approved, &not_approved);
    assert_eq!(merged.len(), 3);
    assert_eq!(merged.get("a"), Some(PRStats::new_with(1, 0)));
    assert_eq!(merged.get("b"), Some(PRStats::new_with(2, 3)));
    assert_eq!(merged.get("c"), Some(PRStats::new_with(0, 4)));
    assert_eq!(merged.get("d"), None);
}

#[test]
fn combine_with_sides_swapped_swaps_the_counts() {
    let first = counts(&[("a", 1), ("b", 2)]);
    let second = counts(&[("b", 3), ("c", 4)]);
    let merged = StatsMap::combine(&second, &first);
    assert_eq!(merged.len(), 3);
    assert_eq!(merged.get("a"), Some(PRStats::new_with(0, 1)));
    assert_eq!(merged.get("b"), Some(PRStats::new_with(3, 2)));
    assert_eq!(merged.get("c"), Some(PRStats::new_with(4, 0)));
}

#[test]
fn combine_of_nothing_is_empty() {
    let merged = StatsMap::combine(&RepoCounts::new(), &RepoCounts::new());
    assert_eq!(merged.len(), 0);
    assert_eq!(merged.get("a"), None);
    assert_eq!(merged.render(), "Total: 0 total, 0 approved, 0 not approved, rate: NaN\n");
}

#[test]
fn combine_with_one_side_empty() {
    let only = counts(&[("a", 2)]);
    let merged = StatsMap::combine(&RepoCounts::new(), &only);
    assert_eq!(merged.len(), 1);
    assert_eq!(merged.get("a"), Some(PRStats::new_with(0, 2)));
    assert_eq!(merged.get("a").unwrap().rate(), Some(0));
}

#[test]
fn combine_keeps_a_repository_without_counts() {
    let approved = counts(&[("idle", 0)]);
    let not_approved = counts(&[("idle", 0), ("busy", 1)]);
    let merged = StatsMap::combine(&approved, &not_approved);
    assert_eq!(merged.get("idle"), Some(PRStats::new_with(0, 0)));
    assert_eq!(
        merged.render(),
        "busy: total: 1, approved: 0, not approved: 1, rate: 0.00\n\
         idle: total: 0, approved: 0, not approved: 0, rate: NaN\n\
         Total: 1 total, 0 approved, 1 not approved, rate: 0.00\n"
    );
}

#[test]
fn combine_takes_large_counts() {
    let approved = counts(&[("a", usize::MAX)]);
    let not_approved = counts(&[("a", usize::MAX - 1), ("b", 1)]);
    let merged = StatsMap::combine(&approved, &not_approved);
    assert_eq!(merged.get("a"), Some(PRStats::new_with(usize::MAX, usize::MAX - 1)));
    let text = merged.render();
    let total = 2 * (usize::MAX as u128);
    assert!(text.ends_with(&format!(
        "Total: {} total, {} approved, {} not approved, rate: 0.50\n",
        total,
        usize::MAX,
        usize::MAX
    )));
}

#[test]
fn entries_are_sorted_by_name() {
    let approved = counts(&[("zeta", 1), ("alpha", 1), ("Beta", 1), ("alp", 1), ("émile", 1)]);
    let not_approved = counts(&[("mid", 1), ("alpha/x", 1), ("", 1)]);
    let merged = StatsMap::combine(&approved, &not_approved);
    let sorted = merged.sorted_entries();
    let names: Vec<&str> = sorted.iter().map(|e| e.repo.as_str()).collect();
    assert_eq!(names, vec!["", "Beta", "alp", "alpha", "alpha/x", "mid", "zeta", "émile"]);
    assert_eq!(sorted[0].stats, PRStats::new_with(0, 1));
    assert_eq!(sorted[1].stats, PRStats::new_with(1, 0));
}

#[test]
fn report_lines_are_sorted_and_totalled() {
    let approved = records(&["https://api/repos/o/b", "https://api/repos/o/a", "https://api/repos/o/b"]);
    let not_approved = records(&["https://api/repos/o/c", "https://api/repos/o/b"]);
    assert_eq!(
        report(&approved, &not_approved),
        "https://api/repos/o/a: total: 1, approved: 1, not approved: 0, rate: 1.00\n\
         https://api/repos/o/b: total: 3, approved: 2, not approved: 1, rate: 0.67\n\
         https://api/repos/o/c: total: 1, approved: 0, not approved: 1, rate: 0.00\n\
         Total: 5 total, 3 approved, 2 not approved, rate: 0.60\n"
    );
}

#[test]
fn report_of_nothing_has_the_total_line_only() {
    assert_eq!(report(&[], &[]), "Total: 0 total, 0 approved, 0 not approved, rate: NaN\n");
}

#[test]
fn pr_stats_counts_then_combines() {
    let approved = records(&["a", "a", "b"]);
    let not_approved = records(&["b", "c", "c", "c"]);
    let stats = pr_stats(&approved, &not_approved);
    let by_hand = StatsMap::combine(&count_by_pr(&approved), &count_by_pr(&not_approved));
    assert_eq!(stats.len(), 3);
    for repo in ["a", "b", "c", "d"] {
        assert_eq!(stats.get(repo), by_hand.get(repo));
    }
    assert_eq!(stats.get("a"), Some(PRStats::new_with(2, 0)));
    assert_eq!(stats.get("b"), Some(PRStats::new_with(1, 1)));
    assert_eq!(stats.get("c"), Some(PRStats::new_with(0, 3)));
}

fn fetch_all(query: &str, pages: Vec<PRList>) -> Vec<PRInfo> {
    let (mut fetch, _) = PagedFetch::start(query.to_string());
    for page in pages {
        match fetch.step(Ok(page)) {
            FetchAction::Finish(all) => return all,
            FetchAction::Request(_) | FetchAction::Wait => {}
            other => panic!("unexpected {:?}", other),
        }
    }
    panic!("the fetch did not finish");
}

#[test]
fn end_to_end_two_queries() {
    let approved = fetch_all(&approved_query("o"), vec![PRList::new(2, records(&["A", "B"]))]);
    let not_approved = fetch_all(&not_approved_query("o"), vec![PRList::new(1, records(&["A"]))]);
    let stats = pr_stats(&approved, &not_approved);
    assert_eq!(stats.len(), 2);
    let a = stats.get("A").unwrap();
    assert_eq!((a.approved, a.not_approved, a.rate()), (1, 1, Some(50)));
    let b = stats.get("B").unwrap();
    assert_eq!((b.approved, b.not_approved, b.rate()), (1, 0, Some(100)));
    let text = stats.render();
    assert_eq!(
        text.lines().last(),
        Some("Total: 3 total, 2 approved, 1 not approved, rate: 0.67")
    );
    assert_eq!(
        text,
        "A: total: 2, approved: 1, not approved: 1, rate: 0.50\n\
         B: total: 1, approved: 1, not approved: 0, rate: 1.00\n\
         Total: 3 total, 2 approved, 1 not approved, rate: 0.67\n"
    );
    assert_eq!(report(&approved, &not_approved), text);
}
