//! How the search endpoint is addressed: the two queries, the address of a
//! page, and the number of pages that a query needs.

use vstd::prelude::*;
use crate::text::{decimal, push_char, push_decimal};

verus! {

/// The number of records that the endpoint is asked to put on one page.
pub const PER_PAGE: u32 = 100;

/// What stands for the character `c` of a query inside an address: a space
/// is percent-encoded, every other character stands for itself.
pub open spec fn encoded_char(c: char) -> Seq<char> {
    if c == ' ' {
        seq!['%', '2', '0']
    } else {
        seq![c]
    }
}

/// A query as it stands inside an address: its characters in order, each
/// one encoded by `encoded_char`.
pub open spec fn encoded_query(query: Seq<char>) -> Seq<char>
    decreases query.len(),
{
    if query.len() == 0 {
        Seq::empty()
    } else {
        encoded_query(query.drop_last()) + encoded_char(query.last())
    }
}

/// The address of page `page` of the search for `query`.
pub open spec fn search_url_text(query: Seq<char>, page: nat) -> Seq<char> {
    "https://api.github.com/search/issues?q="@ + encoded_query(query)
        + "&per_page=100&page="@ + decimal(page)
}

/// The number of pages that hold `total_count` records: the quotient by the
/// page size, rounded up.
pub open spec fn pages_for(total_count: nat) -> nat {
    (total_count + 99) / 100
}

/// The query for the merged pull requests of `org` that were approved.
pub open spec fn approved_query_text(org: Seq<char>) -> Seq<char> {
    "is:pr is:merged review:approved org:"@ + org
}

/// The query for the merged pull requests of `org` that were not approved.
pub open spec fn not_approved_query_text(org: Seq<char>) -> Seq<char> {
    "is:pr is:merged -review:approved org:"@ + org
}

/// The value of the `Authorization` header that carries `token`.
pub open spec fn authorization_text(token: Seq<char>) -> Seq<char> {
    "Bearer "@ + token
}

/// The value of the `Authorization` header that carries `token`.
pub fn authorization_value(token: &str) -> (value: String)
    ensures
        value@ == authorization_text(token@),
{
    let mut value = String::new();
    value.append("Bearer ");
    value.append(token);
    value
}

/// Appends `query` to `out` as it stands inside an address.
pub fn push_encoded_query(out: &mut String, query: &str)
    ensures
        final(out)@ == old(out)@ + encoded_query(query@),
{
    for c in it: query.chars()
        invariant
            it.seq() == query@,
            out@ == old(out)@ + encoded_query(query@.take(it.index())),
    {
        proof {
            let before = query@.take(it.index());
            let after = query@.take(it.index() + 1);
            assert(after.drop_last() == before);
            assert(after.last() == c);
        }
        if c == ' ' {
            push_char(out, '%');
            push_char(out, '2');
            push_char(out, '0');
        } else {
            push_char(out, c);
        }
        assert(out@ == old(out)@ + encoded_query(query@.take(it.index() + 1)));
    }
    assert(query@.take(query@.len() as int) == query@);
}

/// The address of page `page` of the search for `query`, with a hundred
/// records to the page. Pages are counted from one.
pub fn search_url(query: &str, page: u32) -> (url: String)
    ensures
        url@ == search_url_text(query@, page as nat),
{
    let mut url = String::new();
    url.append("https://api.github.com/search/issues?q=");
    push_encoded_query(&mut url, query);
    url.append("&per_page=100&page=");
    push_decimal(&mut url, page as u128);
    url
}

/// The number of pages to fetch for a query that matches `total_count`
/// records.
pub fn num_pages(total_count: u32) -> (pages: u32)
    ensures
        pages == pages_for(total_count as nat),
        pages * 100 >= total_count,
        total_count > 0 ==> (pages - 1) * 100 < total_count,
{
    let full: u32 = total_count / PER_PAGE;
    if total_count % PER_PAGE > 0 {
        full + 1
    } else {
        full
    }
}

/// The query for the merged pull requests of `org` that were approved.
pub fn approved_query(org: &str) -> (query: String)
    ensures
        query@ == approved_query_text(org@),
{
    let mut query = String::new();
    query.append("is:pr is:merged review:approved org:");
    query.append(org);
    query
}

/// The query for the merged pull requests of `org` that were not approved.
pub fn not_approved_query(org: &str) -> (query: String)
    ensures
        query@ == not_approved_query_text(org@),
{
    let mut query = String::new();
    query.append("is:pr is:merged -review:approved org:");
    query.append(org);
    query
}

} // verus!
