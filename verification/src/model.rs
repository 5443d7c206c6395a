//! What a search answers: records of pull requests, one page at a time.

use vstd::prelude::*;

verus! {

/// One pull request that a search matched. All that is kept of it is the
/// repository it belongs to.
#[derive(Debug, Clone, PartialEq, Eq)]
pub struct PRInfo {
    pub repository_url: String,
}

impl View for PRInfo {
    type V = Seq<char>;

    open spec fn view(&self) -> Seq<char> {
        self.repository_url@
    }
}

impl PRInfo {
    /// A record of a pull request in the repository `repository_url`.
    pub fn new(repository_url: String) -> (pr: PRInfo)
        ensures
            pr.repository_url == repository_url,
    {
        PRInfo { repository_url }
    }
}

/// One page of a search's answer: how many pull requests the whole query
/// matches, and the records on this page.
#[derive(Debug, Clone, PartialEq, Eq)]
pub struct PRList {
    pub total_count: u32,
    pub items: Vec<PRInfo>,
}

impl PRList {
    /// A page that declares `total_count` matches and carries `items`.
    pub fn new(total_count: u32, items: Vec<PRInfo>) -> (page: PRList)
        ensures
            page.total_count == total_count,
            page.items == items,
    {
        PRList { total_count, items }
    }
}

/// The repositories of a sequence of records, in the records' order.
pub open spec fn repo_urls(prs: Seq<PRInfo>) -> Seq<Seq<char>> {
    Seq::new(prs.len(), |i: int| prs[i]@)
}

} // verus!
