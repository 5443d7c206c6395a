use gh_stats::{check_status, FetchAction, FetchError, PRInfo, PRList, PagedFetch, Phase};

fn records(repo: &str, n: usize) -> Vec<PRInfo> {
    (0..n).map(|_| PRInfo::new(repo.to_string())).collect()
}

fn url(query: &str, page: u32) -> String {
    format!("https://api.github.com/search/issues?q={}&per_page=100&page={}", query, page)
}

#[test]
fn fetch_starts_with_page_one() {
    let (fetch, first) = PagedFetch::start("org:acme".to_string());
    assert_eq!(first, url("org:acme", 1));
    assert_eq!(fetch.phase, Phase::First);
    assert_eq!(fetch.outstanding, 0);
    assert!(fetch.items.is_empty());
    assert!(!fetch.is_over());
}

#[test]
fn empty_query_takes_one_request() {
    let (mut fetch, first) = PagedFetch::start("org:none".to_string());
    assert_eq!(first, url("org:none", 1));
    let action = fetch.step(Ok(PRList::new(0, Vec::new())));
    assert_eq!(action, FetchAction::Finish(Vec::new()));
    assert_eq!(fetch.phase, Phase::Done);
    assert!(fetch.is_over());
}

#[test]
fn single_page_is_handed_out_at_once() {
    let (mut fetch, _) = PagedFetch::start("org:acme".to_string());
    let items = records("A", 100);
    let action = fetch.step(Ok(PRList::new(100, items.clone())));
    assert_eq!(action, FetchAction::Finish(items));
    assert_eq!(fetch.phase, Phase::Done);
}

#[test]
fn three_pages_for_two_hundred_and_fifty() {
    let (mut fetch, first) = PagedFetch::start("org:acme".to_string());
    let mut requests = vec![first];
    let action = fetch.step(Ok(PRList::new(250, records("A", 100))));
    match action {
        FetchAction::Request(urls) => requests.extend(urls),
        other => panic!("expected a request, got {:?}", other),
    }
    assert_eq!(requests, vec![url("org:acme", 1), url("org:acme", 2), url("org:acme", 3)]);
    assert_eq!(fetch.phase, Phase::Rest);
    assert_eq!(fetch.outstanding, 2);

    // page three arrives before page two
    assert_eq!(fetch.step(Ok(PRList::new(250, records("C", 50)))), FetchAction::Wait);
    assert_eq!(fetch.outstanding, 1);
    assert!(!fetch.is_over());
    let action = fetch.step(Ok(PRList::new(250, records("B", 100))));
    let mut expected = records("A", 100);
    expected.extend(records("C", 50));
    expected.extend(records("B", 100));
    match action {
        FetchAction::Finish(all) => {
            assert_eq!(all.len(), 100 + 50 + 100);
            assert_eq!(all, expected);
        }
        other => panic!("expected the records, got {:?}", other),
    }
    assert_eq!(fetch.phase, Phase::Done);
    assert!(fetch.items.is_empty());
}

#[test]
fn later_pages_do_not_change_the_page_count() {
    let (mut fetch, _) = PagedFetch::start("q".to_string());
    let action = fetch.step(Ok(PRList::new(101, records("A", 100))));
    assert_eq!(action, FetchAction::Request(vec![url("q", 2)]));
    // the second page declares another total: it is not looked at
    let action = fetch.step(Ok(PRList::new(900, records("B", 1))));
    let mut expected = records("A", 100);
    expected.extend(records("B", 1));
    assert_eq!(action, FetchAction::Finish(expected));
}

#[test]
fn failure_of_page_one_fails_the_fetch() {
    let (mut fetch, _) = PagedFetch::start("q".to_string());
    let action = fetch.step(Err(FetchError::Transport("connection refused".to_string())));
    assert_eq!(action, FetchAction::Fail(FetchError::Transport("connection refused".to_string())));
    assert_eq!(fetch.phase, Phase::Failed);
    assert!(fetch.is_over());
}

#[test]
fn failure_of_page_two_of_three_fails_the_fetch() {
    let (mut fetch, _) = PagedFetch::start("q".to_string());
    let action = fetch.step(Ok(PRList::new(250, records("A", 100))));
    assert!(matches!(action, FetchAction::Request(ref urls) if urls.len() == 2));
    let action = fetch.step(Err(FetchError::Api(403)));
    assert_eq!(action, FetchAction::Fail(FetchError::Api(403)));
    assert_eq!(fetch.phase, Phase::Failed);
    assert!(fetch.items.is_empty());
    // page three still arrives: nothing is handed out
    let action = fetch.step(Ok(PRList::new(250, records("C", 50))));
    assert_eq!(action, FetchAction::Ignore);
    assert_eq!(fetch.phase, Phase::Failed);
}

#[test]
fn failure_after_a_good_page_discards_it() {
    let (mut fetch, _) = PagedFetch::start("q".to_string());
    fetch.step(Ok(PRList::new(300, records("A", 100))));
    assert_eq!(fetch.step(Ok(PRList::new(300, records("B", 100)))), FetchAction::Wait);
    let action = fetch.step(Err(FetchError::Decode("missing field".to_string())));
    assert_eq!(action, FetchAction::Fail(FetchError::Decode("missing field".to_string())));
    assert!(fetch.items.is_empty());
}

#[test]
fn finished_fetch_ignores_answers() {
    let (mut fetch, _) = PagedFetch::start("q".to_string());
    fetch.step(Ok(PRList::new(1, records("A", 1))));
    assert_eq!(fetch.step(Ok(PRList::new(1, records("A", 1)))), FetchAction::Ignore);
    assert_eq!(fetch.step(Err(FetchError::Api(500))), FetchAction::Ignore);
    assert_eq!(fetch.phase, Phase::Done);
}

#[test]
fn status_codes_are_classified() {
    assert_eq!(check_status(200), Ok(()));
    assert_eq!(check_status(204), Ok(()));
    assert_eq!(check_status(299), Ok(()));
    assert_eq!(check_status(199), Err(FetchError::Api(199)));
    assert_eq!(check_status(300), Err(FetchError::Api(300)));
    assert_eq!(check_status(403), Err(FetchError::Api(403)));
    assert_eq!(check_status(422), Err(FetchError::Api(422)));
    assert_eq!(check_status(500), Err(FetchError::Api(500)));
}
