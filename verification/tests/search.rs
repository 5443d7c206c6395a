use gh_stats::text::push_decimal;
use gh_stats::{approved_query, not_approved_query, num_pages, search_url, PER_PAGE};

#[test]
fn search_url_embeds_query_and_page() {
    assert_eq!(
        search_url("org:rust-lang", 1),
        "https://api.github.com/search/issues?q=org:rust-lang&per_page=100&page=1"
    );
}

#[test]
fn search_url_encodes_spaces() {
    assert_eq!(
        search_url("is:pr is:merged review:approved org:acme", 3),
        "https://api.github.com/search/issues?q=is:pr%20is:merged%20review:approved%20org:acme&per_page=100&page=3"
    );
}

#[test]
fn search_url_keeps_other_characters() {
    assert_eq!(
        search_url("-review:approved  é", 12),
        "https://api.github.com/search/issues?q=-review:approved%20%20é&per_page=100&page=12"
    );
}

#[test]
fn search_url_of_empty_query() {
    assert_eq!(
        search_url("", 4294967295),
        "https://api.github.com/search/issues?q=&per_page=100&page=4294967295"
    );
}

#[test]
fn page_size_is_one_hundred() {
    assert_eq!(PER_PAGE, 100);
}

#[test]
fn queries_follow_the_templates() {
    assert_eq!(approved_query("acme"), "is:pr is:merged review:approved org:acme");
    assert_eq!(not_approved_query("acme"), "is:pr is:merged -review:approved org:acme");
}

#[test]
fn queries_differ_only_in_the_review_filter() {
    let org = "rust-lang";
    assert_eq!(
        search_url(&approved_query(org), 1),
        "https://api.github.com/search/issues?q=is:pr%20is:merged%20review:approved%20org:rust-lang&per_page=100&page=1"
    );
    assert_eq!(
        search_url(&not_approved_query(org), 2),
        "https://api.github.com/search/issues?q=is:pr%20is:merged%20-review:approved%20org:rust-lang&per_page=100&page=2"
    );
}

#[test]
fn num_pages_rounds_up() {
    assert_eq!(num_pages(0), 0);
    assert_eq!(num_pages(1), 1);
    assert_eq!(num_pages(99), 1);
    assert_eq!(num_pages(100), 1);
    assert_eq!(num_pages(101), 2);
    assert_eq!(num_pages(200), 2);
    assert_eq!(num_pages(250), 3);
    assert_eq!(num_pages(1000), 10);
}

#[test]
fn num_pages_is_exact_for_large_counts() {
    assert_eq!(num_pages(16_777_217), 167_773);
    assert_eq!(num_pages(u32::MAX), 42_949_673);
}

fn decimal_string(n: u128) -> String {
    let mut text = String::new();
    push_decimal(&mut text, n);
    text
}

#[test]
fn decimal_numerals() {
    assert_eq!(decimal_string(0), "0");
    assert_eq!(decimal_string(7), "7");
    assert_eq!(decimal_string(10), "10");
    assert_eq!(decimal_string(1234567890), "1234567890");
    assert_eq!(decimal_string(u128::MAX), "340282366920938463463374607431768211455");
}

#[test]
fn decimal_is_appended() {
    let mut text = String::from("page=");
    push_decimal(&mut text, 42);
    assert_eq!(text, "page=42");
}

#[test]
fn authorization_carries_the_token() {
    assert_eq!(gh_stats::authorization_value("s3cr3t"), "Bearer s3cr3t");
    assert_eq!(gh_stats::authorization_value(""), "Bearer ");
}
