//! Fetching every page of a query.
//!
//! The pages are requested by the caller; what is decided here is which
//! pages to request and what becomes of each answer. A fetch begins with the
//! request for page one. The answer to it tells how many pages there are;
//! the others are then requested all at once, and their answers are taken in
//! whatever order they arrive. The first failure ends the fetch.

use vstd::prelude::*;
use crate::model::{PRInfo, PRList};
use crate::search::{num_pages, pages_for, search_url, search_url_text};

verus! {

/// Why a page could not be had.
#[derive(Debug, Clone, PartialEq, Eq)]
pub enum FetchError {
    /// The request did not get through, or no answer came back.
    Transport(String),
    /// The answer's body is not a page of search results.
    Decode(String),
    /// The endpoint answered with this status, which is not a success.
    Api(u16),
}

/// Whether an HTTP status reports success.
pub open spec fn is_success(status: u16) -> bool {
    200 <= status <= 299
}

/// Accepts a status that reports success and turns any other into an error,
/// so that a refusal is never taken for an empty page.
pub fn check_status(status: u16) -> (outcome: Result<(), FetchError>)
    ensures
        is_success(status) ==> outcome == Ok::<(), FetchError>(()),
        !is_success(status) ==> outcome == Err::<(), FetchError>(FetchError::Api(status)),
{
    if 200 <= status && status <= 299 {
        Ok(())
    } else {
        Err(FetchError::Api(status))
    }
}

/// Where a fetch stands.
#[derive(Debug, Clone, Copy, PartialEq, Eq, Structural)]
pub enum Phase {
    /// Page one was requested and has not been answered.
    First,
    /// The pages after the first were requested, and some are not answered.
    Rest,
    /// Every page arrived and the records were handed out.
    Done,
    /// A page failed.
    Failed,
}

/// What the caller is to do after an answer was taken.
#[derive(Debug, Clone, PartialEq, Eq)]
pub enum FetchAction {
    /// Request these addresses, all of them, in any order.
    Request(Vec<String>),
    /// Nothing yet: more answers are outstanding.
    Wait,
    /// The fetch is complete, with these records.
    Finish(Vec<PRInfo>),
    /// The fetch failed, with this error; no records are handed out.
    Fail(FetchError),
    /// The fetch had ended before; the answer was dropped.
    Ignore,
}

/// The fetch of all pages of one query.
#[derive(Debug)]
pub struct PagedFetch {
    pub query: String,
    pub phase: Phase,
    /// How many requested pages are not answered yet, page one left aside.
    pub outstanding: u32,
    /// The records of the pages that arrived, until they are handed out.
    pub items: Vec<PRInfo>,
}

/// A fetch as a mathematical value.
pub struct FetchModel {
    pub query: Seq<char>,
    pub phase: Phase,
    pub outstanding: nat,
    pub items: Seq<PRInfo>,
}

/// An action as a mathematical value.
pub enum ActionModel {
    Request(Seq<Seq<char>>),
    Wait,
    Finish(Seq<PRInfo>),
    Fail(FetchError),
    Ignore,
}

impl View for PagedFetch {
    type V = FetchModel;

    open spec fn view(&self) -> FetchModel {
        FetchModel {
            query: self.query@,
            phase: self.phase,
            outstanding: self.outstanding as nat,
            items: self.items@,
        }
    }
}

/// The texts of a sequence of strings.
pub open spec fn texts(strings: Seq<String>) -> Seq<Seq<char>> {
    Seq::new(strings.len(), |i: int| strings[i]@)
}

impl View for FetchAction {
    type V = ActionModel;

    open spec fn view(&self) -> ActionModel {
        match *self {
            FetchAction::Request(urls) => ActionModel::Request(texts(urls@)),
            FetchAction::Wait => ActionModel::Wait,
            FetchAction::Finish(items) => ActionModel::Finish(items@),
            FetchAction::Fail(error) => ActionModel::Fail(error),
            FetchAction::Ignore => ActionModel::Ignore,
        }
    }
}

/// The addresses of the pages `first`, `first + 1`, and so on, `count` of
/// them.
pub open spec fn page_urls_text(query: Seq<char>, first: nat, count: nat) -> Seq<Seq<char>> {
    Seq::new(count, |i: int| search_url_text(query, (first + i) as nat))
}

/// The fetch that begins for `query`: page one is requested.
pub open spec fn initial(query: Seq<char>) -> FetchModel {
    FetchModel { query, phase: Phase::First, outstanding: 0, items: Seq::empty() }
}

/// A fetch that has ended in phase `phase`: nothing is outstanding and no
/// records are kept.
pub open spec fn ended(query: Seq<char>, phase: Phase) -> FetchModel {
    FetchModel { query, phase, outstanding: 0, items: Seq::empty() }
}

/// The fetch after `event`, the answer to one of the requests, was taken.
pub open spec fn next_state(s: FetchModel, event: Result<PRList, FetchError>) -> FetchModel {
    match s.phase {
        Phase::First => match event {
            Ok(page) => {
                let pages = pages_for(page.total_count as nat);
                if pages <= 1 {
                    ended(s.query, Phase::Done)
                } else {
                    FetchModel {
                        query: s.query,
                        phase: Phase::Rest,
                        outstanding: (pages - 1) as nat,
                        items: page.items@,
                    }
                }
            },
            Err(_) => ended(s.query, Phase::Failed),
        },
        Phase::Rest => match event {
            Ok(page) => {
                if s.outstanding <= 1 {
                    ended(s.query, Phase::Done)
                } else {
                    FetchModel {
                        query: s.query,
                        phase: Phase::Rest,
                        outstanding: (s.outstanding - 1) as nat,
                        items: s.items + page.items@,
                    }
                }
            },
            Err(_) => ended(s.query, Phase::Failed),
        },
        Phase::Done => s,
        Phase::Failed => s,
    }
}

/// What the caller is told when `event` is taken in the state `s`.
pub open spec fn action_for(s: FetchModel, event: Result<PRList, FetchError>) -> ActionModel {
    match s.phase {
        Phase::First => match event {
            Ok(page) => {
                let pages = pages_for(page.total_count as nat);
                if pages <= 1 {
                    ActionModel::Finish(page.items@)
                } else {
                    ActionModel::Request(page_urls_text(s.query, 2, (pages - 1) as nat))
                }
            },
            Err(error) => ActionModel::Fail(error),
        },
        Phase::Rest => match event {
            Ok(page) => {
                if s.outstanding <= 1 {
                    ActionModel::Finish(s.items + page.items@)
                } else {
                    ActionModel::Wait
                }
            },
            Err(error) => ActionModel::Fail(error),
        },
        Phase::Done => ActionModel::Ignore,
        Phase::Failed => ActionModel::Ignore,
    }
}

/// The addresses of `count` pages of the search for `query`, from page
/// `first` on.
fn page_urls(query: &str, first: u32, count: u32) -> (urls: Vec<String>)
    requires
        first + count <= u32::MAX,
    ensures
        texts(urls@) == page_urls_text(query@, first as nat, count as nat),
{
    let mut urls: Vec<String> = Vec::new();
    let mut i: u32 = 0;
    while i < count
        invariant
            i <= count,
            first + count <= u32::MAX,
            urls@.len() == i,
            forall|j: int| 0 <= j < i ==> (#[trigger] urls@[j])@ == search_url_text(query@, (first + j) as nat),
        decreases count - i,
    {
        urls.push(search_url(query, first + i));
        i = i + 1;
    }
    assert(texts(urls@) =~= page_urls_text(query@, first as nat, count as nat));
    urls
}

/// The fetch after the answers `events` were taken one after the other.
pub open spec fn run(s: FetchModel, events: Seq<Result<PRList, FetchError>>) -> FetchModel
    decreases events.len(),
{
    if events.len() == 0 {
        s
    } else {
        next_state(run(s, events.drop_last()), events.last())
    }
}

/// What the caller is told on the answer `events[i]`, when the answers
/// before it were taken first.
pub open spec fn action_at(
    s: FetchModel,
    events: Seq<Result<PRList, FetchError>>,
    i: int,
) -> ActionModel {
    action_for(run(s, events.take(i)), events[i])
}

/// How many requests an action asks for.
pub open spec fn requests_in(action: ActionModel) -> nat {
    match action {
        ActionModel::Request(urls) => urls.len(),
        _ => 0,
    }
}

/// How many requests the first `n` answers of `events` lead to.
pub open spec fn requests_after(
    s: FetchModel,
    events: Seq<Result<PRList, FetchError>>,
    n: nat,
) -> nat
    decreases n,
{
    if n == 0 {
        0
    } else {
        requests_after(s, events, (n - 1) as nat) + requests_in(action_at(s, events, n - 1))
    }
}

/// The records of the pages among `events`, in the order of `events`.
pub open spec fn all_items(events: Seq<Result<PRList, FetchError>>) -> Seq<PRInfo>
    decreases events.len(),
{
    if events.len() == 0 {
        Seq::empty()
    } else {
        all_items(events.drop_last()) + match events.last() {
            Ok(page) => page.items@,
            Err(_) => Seq::empty(),
        }
    }
}

/// The number of records on the pages among `events`, page by page.
pub open spec fn item_count(events: Seq<Result<PRList, FetchError>>) -> nat
    decreases events.len(),
{
    if events.len() == 0 {
        0
    } else {
        item_count(events.drop_last()) + match events.last() {
            Ok(page) => page.items@.len(),
            Err(_) => 0,
        }
    }
}

/// The number of requests that a query needs when page one declares
/// `total_count` records: one for each page, and one where there is none.
pub open spec fn requests_needed(total_count: nat) -> nat {
    if pages_for(total_count) <= 1 {
        1
    } else {
        pages_for(total_count)
    }
}

/// A query that matches nothing is done with its first page: the answer to
/// page one ends the fetch with no records, and asks for no further request.
pub proof fn empty_query_ends_with_page_one(query: Seq<char>, page: PRList)
    requires
        page.total_count == 0,
        page.items@.len() == 0,
    ensures
        action_for(initial(query), Ok(page)) == ActionModel::Finish(Seq::empty()),
        requests_in(action_for(initial(query), Ok(page))) == 0,
        next_state(initial(query), Ok(page)) == ended(query, Phase::Done),
{
    assert(page.items@ =~= Seq::empty());
}

/// While every answer is a page, the fetch stays in its second phase until
/// the last page, keeps the records of all pages so far, and asks for
/// nothing more.
proof fn lemma_pages_accumulate(query: Seq<char>, events: Seq<Result<PRList, FetchError>>, j: int)
    requires
        1 <= j < events.len(),
        forall|i: int| 0 <= i < events.len() ==> (#[trigger] events[i]) is Ok,
        events.len() == requests_needed(events[0]->Ok_0.total_count as nat),
    ensures
        run(initial(query), events.take(j)) == (FetchModel {
            query,
            phase: Phase::Rest,
            outstanding: (events.len() - j) as nat,
            items: all_items(events.take(j)),
        }),
        requests_after(initial(query), events, j as nat) == events.len() - 1,
    decreases j,
{
    let s = initial(query);
    let prefix = events.take(j);
    assert(prefix.drop_last() == events.take(j - 1));
    assert(prefix.last() == events[j - 1]);
    if j == 1 {
        assert(events.take(0) =~= Seq::empty());
        assert(run(s, events.take(0)) == s);
        assert(all_items(events.take(0)) =~= Seq::empty());
        assert(all_items(prefix) =~= events[0]->Ok_0.items@);
        assert(requests_after(s, events, 0) == 0);
        assert(action_at(s, events, 0) == ActionModel::Request(
            page_urls_text(query, 2, (events.len() - 1) as nat),
        ));
    } else {
        lemma_pages_accumulate(query, events, j - 1);
        assert(action_at(s, events, j - 1) == ActionModel::Wait);
    }
}

/// Completeness. When every request is answered by a page, the fetch makes
/// one request for each page that the first answer calls for, stays silent
/// until the last answer is in, and then hands out the records of all
/// pages, none lost and none added.
pub proof fn complete_fetch_keeps_every_page(
    query: Seq<char>,
    events: Seq<Result<PRList, FetchError>>,
)
    requires
        events.len() >= 1,
        forall|i: int| 0 <= i < events.len() ==> (#[trigger] events[i]) is Ok,
        events.len() == requests_needed(events[0]->Ok_0.total_count as nat),
    ensures
        run(initial(query), events) == ended(query, Phase::Done),
        action_at(initial(query), events, events.len() - 1) == ActionModel::Finish(
            all_items(events),
        ),
        forall|i: int|
            0 <= i < events.len() - 1 ==> !(#[trigger] action_at(initial(query), events, i)
                is Finish),
        all_items(events).len() == item_count(events),
        1 + requests_after(initial(query), events, events.len()) == events.len(),
{
    let s = initial(query);
    let n = events.len() as int;
    lemma_item_count(events);
    assert(events.take(n) == events);
    assert(events.drop_last() == events.take(n - 1));
    if n == 1 {
        assert(events.take(0) =~= Seq::empty());
        assert(run(s, events.take(0)) == s);
        assert(all_items(events.take(0)) =~= Seq::empty());
        assert(all_items(events) =~= events[0]->Ok_0.items@);
        assert(requests_after(s, events, 0) == 0);
    } else {
        lemma_pages_accumulate(query, events, n - 1);
        assert forall|i: int| 0 <= i < n - 1 implies !(#[trigger] action_at(s, events, i)
            is Finish) by {
            if i == 0 {
                assert(events.take(0) =~= Seq::empty());
                assert(run(s, events.take(0)) == s);
            } else {
                lemma_pages_accumulate(query, events, i);
            }
        }
    }
}

/// The records of some answers are as many as their pages hold together.
pub proof fn lemma_item_count(events: Seq<Result<PRList, FetchError>>)
    ensures
        all_items(events).len() == item_count(events),
    decreases events.len(),
{
    if events.len() > 0 {
        lemma_item_count(events.drop_last());
    }
}

/// A fetch that has ended takes no further answer: it stays as it is and
/// every answer is dropped.
pub proof fn ended_fetch_ignores_answers(
    s: FetchModel,
    events: Seq<Result<PRList, FetchError>>,
    i: int,
)
    requires
        s.phase == Phase::Done || s.phase == Phase::Failed,
        0 <= i <= events.len(),
    ensures
        run(s, events.take(i)) == s,
        i < events.len() ==> action_at(s, events, i) == ActionModel::Ignore,
    decreases i,
{
    if i > 0 {
        ended_fetch_ignores_answers(s, events, i - 1);
        assert(events.take(i).drop_last() == events.take(i - 1));
    }
}

/// The answers of `events` from the `k`-th on.
proof fn lemma_run_split(s: FetchModel, events: Seq<Result<PRList, FetchError>>, k: int, i: int)
    requires
        0 <= k <= i <= events.len(),
    ensures
        run(s, events.take(i)) == run(run(s, events.take(k)), events.skip(k).take(i - k)),
    decreases i - k,
{
    if i == k {
        assert(events.skip(k).take(0) =~= Seq::empty());
    } else {
        lemma_run_split(s, events, k, i - 1);
        assert(events.take(i).drop_last() == events.take(i - 1));
        assert(events.skip(k).take(i - k).drop_last() == events.skip(k).take(i - 1 - k));
        assert(events.skip(k).take(i - k).last() == events.take(i).last());
    }
}

/// Fail-fast. The first failure among the answers, come while pages are
/// still outstanding, ends the fetch with that error. No records are handed
/// out, neither before the failure nor after it, and whatever arrives later
/// is dropped.
pub proof fn first_failure_ends_fetch(
    query: Seq<char>,
    events: Seq<Result<PRList, FetchError>>,
    k: int,
)
    requires
        0 <= k < events.len(),
        events[k] is Err,
        forall|i: int| 0 <= i < k ==> (#[trigger] events[i]) is Ok,
        k > 0 ==> k < requests_needed(events[0]->Ok_0.total_count as nat),
    ensures
        action_at(initial(query), events, k) == ActionModel::Fail(events[k]->Err_0),
        run(initial(query), events.take(k + 1)) == ended(query, Phase::Failed),
        run(initial(query), events) == ended(query, Phase::Failed),
        forall|i: int|
            k < i < events.len() ==> #[trigger] action_at(initial(query), events, i)
                == ActionModel::Ignore,
        forall|i: int|
            0 <= i < events.len() ==> !(#[trigger] action_at(initial(query), events, i)
                is Finish),
{
    let s = initial(query);
    let failed = ended(query, Phase::Failed);
    assert(events.take(k + 1).drop_last() == events.take(k));
    assert(events.take(k + 1).last() == events[k]);
    if k == 0 {
        assert(events.take(0) =~= Seq::empty());
        assert(run(s, events.take(0)) == s);
    } else {
        lemma_failure_in_second_phase(query, events, k, k);
    }
    assert(run(s, events.take(k + 1)) == failed);
    assert forall|i: int| k < i <= events.len() implies run(s, events.take(i)) == failed by {
        lemma_run_split(s, events, k + 1, i);
        ended_fetch_ignores_answers(failed, events.skip(k + 1), i - (k + 1));
    }
    assert(events.take(events.len() as int) == events);
    assert forall|i: int| 0 <= i < events.len() implies !(#[trigger] action_at(s, events, i)
        is Finish) by {
        if i < k {
            if i == 0 {
                assert(events.take(0) =~= Seq::empty());
                assert(run(s, events.take(0)) == s);
            } else {
                lemma_failure_in_second_phase(query, events, k, i);
            }
        }
    }
}

/// Before the first failure, which comes while pages are outstanding, the
/// fetch is in its second phase with at least two answers outstanding.
proof fn lemma_failure_in_second_phase(
    query: Seq<char>,
    events: Seq<Result<PRList, FetchError>>,
    k: int,
    j: int,
)
    requires
        1 <= j <= k < events.len(),
        forall|i: int| 0 <= i < k ==> (#[trigger] events[i]) is Ok,
        k < requests_needed(events[0]->Ok_0.total_count as nat),
    ensures
        run(initial(query), events.take(j)).phase == Phase::Rest,
        run(initial(query), events.take(j)).query == query,
        run(initial(query), events.take(j)).outstanding == requests_needed(
            events[0]->Ok_0.total_count as nat,
        ) - j,
    decreases j,
{
    let s = initial(query);
    assert(events.take(j).drop_last() == events.take(j - 1));
    assert(events.take(j).last() == events[j - 1]);
    if j == 1 {
        assert(events.take(0) =~= Seq::empty());
        assert(run(s, events.take(0)) == s);
    } else {
        lemma_failure_in_second_phase(query, events, k, j - 1);
    }
}


impl PagedFetch {
    /// Begins the fetch of all pages of `query`. The second part of the
    /// result is the address to request first, that of page one.
    pub fn start(query: String) -> (begun: (PagedFetch, String))
        ensures
            begun.0@ == initial(query@),
            begun.1@ == search_url_text(query@, 1),
    {
        let url = search_url(query.as_str(), 1);
        (PagedFetch { query, phase: Phase::First, outstanding: 0, items: Vec::new() }, url)
    }

    /// Takes the answer to one of the requests, a page or a failure, and
    /// says what to do next.
    pub fn step(&mut self, event: Result<PRList, FetchError>) -> (action: FetchAction)
        ensures
            final(self)@ == next_state(old(self)@, event),
            action@ == action_for(old(self)@, event),
    {
        match self.phase {
            Phase::First => match event {
                Ok(page) => {
                    let pages = num_pages(page.total_count);
                    if pages <= 1 {
                        self.end(Phase::Done);
                        FetchAction::Finish(page.items)
                    } else {
                        self.phase = Phase::Rest;
                        self.outstanding = pages - 1;
                        self.items = page.items;
                        FetchAction::Request(page_urls(self.query.as_str(), 2, pages - 1))
                    }
                },
                Err(error) => {
                    self.end(Phase::Failed);
                    FetchAction::Fail(error)
                },
            },
            Phase::Rest => match event {
                Ok(page) => {
                    let mut page = page;
                    self.items.append(&mut page.items);
                    if self.outstanding <= 1 {
                        let mut all: Vec<PRInfo> = Vec::new();
                        std::mem::swap(&mut all, &mut self.items);
                        self.end(Phase::Done);
                        FetchAction::Finish(all)
                    } else {
                        self.outstanding = self.outstanding - 1;
                        FetchAction::Wait
                    }
                },
                Err(error) => {
                    self.end(Phase::Failed);
                    FetchAction::Fail(error)
                },
            },
            Phase::Done => FetchAction::Ignore,
            Phase::Failed => FetchAction::Ignore,
        }
    }

    /// Ends the fetch in `phase`, dropping what was kept.
    fn end(&mut self, phase: Phase)
        ensures
            final(self)@ == ended(old(self)@.query, phase),
    {
        self.phase = phase;
        self.outstanding = 0;
        self.items = Vec::new();
    }

    /// Whether the fetch has ended, complete or failed.
    pub fn is_over(&self) -> (over: bool)
        ensures
            over == (self@.phase == Phase::Done || self@.phase == Phase::Failed),
    {
        match self.phase {
            Phase::Done => true,
            Phase::Failed => true,
            _ => false,
        }
    }
}

} // verus!
