//! Counting pull requests by repository.

use itertools::Itertools;
use vstd::prelude::*;
use crate::model::{repo_urls, PRInfo};

verus! {

/// How often `repo` occurs in `urls`.
pub open spec fn occurrences(urls: Seq<Seq<char>>, repo: Seq<char>) -> nat
    decreases urls.len(),
{
    if urls.len() == 0 {
        0
    } else {
        occurrences(urls.drop_last(), repo) + if urls.last() == repo {
            1nat
        } else {
            0nat
        }
    }
}

/// The count of each repository that occurs in `urls`: the repositories
/// that occur are the keys, and each one's value is how often it occurs.
pub open spec fn repo_counts(urls: Seq<Seq<char>>) -> Map<Seq<char>, nat> {
    Map::new(|repo: Seq<char>| urls.contains(repo), |repo: Seq<char>| occurrences(urls, repo))
}

/// The count that `counts` holds for `repo`: zero where it holds none.
pub open spec fn count_of(counts: Map<Seq<char>, nat>, repo: Seq<char>) -> nat {
    if counts.dom().contains(repo) {
        counts[repo]
    } else {
        0
    }
}

/// A repository and the number of pull requests counted for it.
#[derive(Debug, Clone, PartialEq, Eq)]
pub struct RepoCount {
    pub repo: String,
    pub count: usize,
}

/// A count of pull requests for each of some repositories. No repository is
/// listed twice, and the counts together fit in a `usize`.
#[derive(Debug)]
pub struct RepoCounts {
    entries: Vec<RepoCount>,
}

/// Whether `entries` lists `repo`.
pub open spec fn lists(entries: Seq<RepoCount>, repo: Seq<char>) -> bool {
    exists|i: int| 0 <= i < entries.len() && (#[trigger] entries[i]).repo@ == repo
}

/// A place at which `entries` lists `repo`.
pub open spec fn place_of(entries: Seq<RepoCount>, repo: Seq<char>) -> int {
    choose|i: int| 0 <= i < entries.len() && (#[trigger] entries[i]).repo@ == repo
}

/// Whether no repository is listed twice in `entries`.
pub open spec fn distinct(entries: Seq<RepoCount>) -> bool {
    forall|i: int, j: int|
        0 <= i < j < entries.len() ==> (#[trigger] entries[i]).repo@ != (#[trigger] entries[j]).repo@
}

/// The counts of `entries` as a map.
pub open spec fn listed(entries: Seq<RepoCount>) -> Map<Seq<char>, nat> {
    Map::new(
        |repo: Seq<char>| lists(entries, repo),
        |repo: Seq<char>| entries[place_of(entries, repo)].count as nat,
    )
}

/// The counts of `entries` added up.
pub open spec fn sum_counts(entries: Seq<RepoCount>) -> nat
    decreases entries.len(),
{
    if entries.len() == 0 {
        0
    } else {
        sum_counts(entries.drop_last()) + entries.last().count as nat
    }
}

/// For each entry, how often its repository occurs in `urls`, added up.
spec fn sum_occurrences(urls: Seq<Seq<char>>, entries: Seq<RepoCount>) -> nat
    decreases entries.len(),
{
    if entries.len() == 0 {
        0
    } else {
        sum_occurrences(urls, entries.drop_last()) + occurrences(urls, entries.last().repo@)
    }
}

/// In a list without repetition, the map holds for each entry its count.
pub proof fn lemma_listed_at(entries: Seq<RepoCount>, i: int)
    requires
        distinct(entries),
        0 <= i < entries.len(),
    ensures
        listed(entries).dom().contains(entries[i].repo@),
        listed(entries)[entries[i].repo@] == entries[i].count,
        place_of(entries, entries[i].repo@) == i,
{
    let repo = entries[i].repo@;
    assert(lists(entries, repo));
    let p = place_of(entries, repo);
    assert(0 <= p < entries.len() && entries[p].repo@ == repo);
    if p < i {
        assert(entries[p].repo@ != entries[i].repo@);
    } else if i < p {
        assert(entries[i].repo@ != entries[p].repo@);
    }
}

/// The sum of a list's first entries is at most the sum of all.
pub proof fn lemma_sum_prefix(entries: Seq<RepoCount>, n: int)
    requires
        0 <= n <= entries.len(),
    ensures
        sum_counts(entries.take(n)) <= sum_counts(entries),
        n < entries.len() ==> sum_counts(entries.take(n + 1)) == sum_counts(entries.take(n))
            + entries[n].count,
    decreases entries.len() - n,
{
    if n < entries.len() {
        lemma_sum_prefix(entries, n + 1);
        assert(entries.take(n + 1).drop_last() == entries.take(n));
    } else {
        assert(entries.take(n) == entries);
    }
}

/// Replacing one entry changes the sum by the difference of the counts.
proof fn lemma_sum_update(entries: Seq<RepoCount>, i: int, entry: RepoCount)
    requires
        0 <= i < entries.len(),
    ensures
        sum_counts(entries.update(i, entry)) + entries[i].count == sum_counts(entries)
            + entry.count,
    decreases entries.len(),
{
    let updated = entries.update(i, entry);
    if i == entries.len() - 1 {
        assert(updated.drop_last() == entries.drop_last());
    } else {
        lemma_sum_update(entries.drop_last(), i, entry);
        assert(updated.drop_last() == entries.drop_last().update(i, entry));
    }
}

/// Nothing occurs in no records.
proof fn lemma_sum_occurrences_of_none(entries: Seq<RepoCount>)
    ensures
        sum_occurrences(Seq::empty(), entries) == 0,
    decreases entries.len(),
{
    if entries.len() > 0 {
        lemma_sum_occurrences_of_none(entries.drop_last());
    }
}

/// One more record adds one to the sum where its repository is listed,
/// and nothing where it is not.
proof fn lemma_sum_occurrences_push(urls: Seq<Seq<char>>, repo: Seq<char>, entries: Seq<RepoCount>)
    requires
        distinct(entries),
    ensures
        sum_occurrences(urls.push(repo), entries) == sum_occurrences(urls, entries) + if lists(
            entries,
            repo,
        ) {
            1nat
        } else {
            0nat
        },
    decreases entries.len(),
{
    assert(urls.push(repo).drop_last() == urls);
    if entries.len() > 0 {
        let rest = entries.drop_last();
        let last = entries.last();
        lemma_sum_occurrences_push(urls, repo, rest);
        if lists(rest, repo) {
            let p = choose|i: int| 0 <= i < rest.len() && (#[trigger] rest[i]).repo@ == repo;
            assert(entries[p].repo@ == repo);
            assert(entries[p].repo@ != entries[entries.len() - 1].repo@);
            assert(lists(entries, repo));
        } else if last.repo@ == repo {
            assert(entries[entries.len() - 1].repo@ == repo);
            assert(lists(entries, repo));
        } else {
            if lists(entries, repo) {
                let p = choose|i: int| 0 <= i < entries.len() && (#[trigger] entries[i]).repo@ == repo;
                assert(rest[p].repo@ == repo);
            }
        }
    }
}

/// Where every record's repository is listed, and none twice, the
/// occurrences of the listed repositories add up to the number of records.
proof fn lemma_sum_occurrences_covers(urls: Seq<Seq<char>>, entries: Seq<RepoCount>)
    requires
        distinct(entries),
        forall|k: int| 0 <= k < urls.len() ==> lists(entries, #[trigger] urls[k]),
    ensures
        sum_occurrences(urls, entries) == urls.len(),
    decreases urls.len(),
{
    if urls.len() == 0 {
        assert(urls =~= Seq::empty());
        lemma_sum_occurrences_of_none(entries);
    } else {
        let rest = urls.drop_last();
        assert forall|k: int| 0 <= k < rest.len() implies lists(entries, #[trigger] rest[k]) by {
            assert(rest[k] == urls[k]);
        }
        lemma_sum_occurrences_covers(rest, entries);
        lemma_sum_occurrences_push(rest, urls.last(), entries);
        assert(rest.push(urls.last()) == urls);
        assert(lists(entries, urls[urls.len() - 1]));
    }
}

/// Where each entry's count is the number of its repository's occurrences,
/// the counts add up to the occurrences.
proof fn lemma_sum_counts_are_occurrences(urls: Seq<Seq<char>>, entries: Seq<RepoCount>)
    requires
        forall|i: int|
            0 <= i < entries.len() ==> (#[trigger] entries[i]).count == occurrences(
                urls,
                entries[i].repo@,
            ),
    ensures
        sum_counts(entries) == sum_occurrences(urls, entries),
    decreases entries.len(),
{
    if entries.len() > 0 {
        let rest = entries.drop_last();
        assert forall|i: int| 0 <= i < rest.len() implies (#[trigger] rest[i]).count
            == occurrences(urls, rest[i].repo@) by {
            assert(rest[i] == entries[i]);
        }
        lemma_sum_counts_are_occurrences(urls, rest);
        assert(entries.last() == entries[entries.len() - 1]);
    }
}

/// A repository that does not occur in `urls` occurs there zero times, and
/// one that occurs does so at least once.
pub proof fn lemma_occurs_iff_counted(urls: Seq<Seq<char>>, repo: Seq<char>)
    ensures
        urls.contains(repo) <==> occurrences(urls, repo) > 0,
    decreases urls.len(),
{
    if urls.len() > 0 {
        let rest = urls.drop_last();
        lemma_occurs_iff_counted(rest, repo);
        if rest.contains(repo) {
            let k = choose|k: int| 0 <= k < rest.len() && rest[k] == repo;
            assert(urls[k] == repo);
        }
        if urls.contains(repo) && urls.last() != repo {
            let k = choose|k: int| 0 <= k < urls.len() && urls[k] == repo;
            assert(rest[k] == repo);
        }
    }
}

/// Records that all belong to one repository are counted under it alone:
/// `n` such records give the one count `n`, and no records give no count.
pub proof fn uniform_records_have_one_count(urls: Seq<Seq<char>>, repo: Seq<char>)
    requires
        forall|i: int| 0 <= i < urls.len() ==> #[trigger] urls[i] == repo,
    ensures
        occurrences(urls, repo) == urls.len(),
        urls.len() == 0 ==> repo_counts(urls) == Map::<Seq<char>, nat>::empty(),
        urls.len() > 0 ==> repo_counts(urls) == Map::<Seq<char>, nat>::empty().insert(
            repo,
            urls.len(),
        ),
    decreases urls.len(),
{
    if urls.len() == 0 {
        assert(repo_counts(urls) =~= Map::<Seq<char>, nat>::empty());
    } else {
        let rest = urls.drop_last();
        assert forall|i: int| 0 <= i < rest.len() implies #[trigger] rest[i] == repo by {
            assert(rest[i] == urls[i]);
        }
        uniform_records_have_one_count(rest, repo);
        assert(urls.last() == urls[urls.len() - 1]);
        assert(urls[0] == repo);
        assert(urls.contains(repo));
        assert(repo_counts(urls) =~= Map::<Seq<char>, nat>::empty().insert(repo, urls.len()));
    }
}

/// Counting goes record by record: one more record adds one to the count
/// of its repository and leaves the other counts as they were.
pub proof fn one_more_record_counts_once(urls: Seq<Seq<char>>, repo: Seq<char>)
    ensures
        repo_counts(urls.push(repo)) == repo_counts(urls).insert(
            repo,
            count_of(repo_counts(urls), repo) + 1,
        ),
{
    let more = urls.push(repo);
    assert(more.drop_last() == urls);
    assert(more[urls.len() as int] == repo);
    lemma_occurs_iff_counted(urls, repo);
    assert forall|r: Seq<char>| more.contains(r) <==> (urls.contains(r) || r == repo) by {
        if urls.contains(r) {
            let k = choose|k: int| 0 <= k < urls.len() && urls[k] == r;
            assert(more[k] == r);
        }
        if more.contains(r) && r != repo {
            let k = choose|k: int| 0 <= k < more.len() && more[k] == r;
            assert(urls[k] == r);
        }
    }
    assert(repo_counts(more) =~= repo_counts(urls).insert(
        repo,
        count_of(repo_counts(urls), repo) + 1,
    ));
}

/// The map of a list's first entries, one entry more: the next entry's
/// repository is new to the map and enters it with its count.
pub proof fn lemma_listed_next(entries: Seq<RepoCount>, n: int)
    requires
        distinct(entries),
        0 <= n < entries.len(),
    ensures
        !listed(entries.take(n)).dom().contains(entries[n].repo@),
        listed(entries.take(n + 1)) == listed(entries.take(n)).insert(
            entries[n].repo@,
            entries[n].count as nat,
        ),
{
    let before = entries.take(n);
    let after = entries.take(n + 1);
    let repo = entries[n].repo@;
    if lists(before, repo) {
        let p = place_of(before, repo);
        assert(entries[p].repo@ != entries[n].repo@);
    }
    assert forall|r: Seq<char>| lists(after, r) <==> (lists(before, r) || r == repo) by {
        if lists(after, r) {
            let p = place_of(after, r);
            if p < n {
                assert(before[p].repo@ == r);
            }
        }
        if lists(before, r) {
            let p = place_of(before, r);
            assert(after[p].repo@ == r);
        }
        if r == repo {
            assert(after[n].repo@ == r);
        }
    }
    assert forall|r: Seq<char>| lists(after, r) implies #[trigger] listed(after)[r] == listed(
        before,
    ).insert(repo, entries[n].count as nat)[r] by {
        let p = place_of(after, r);
        lemma_listed_at(after, p);
        if p < n {
            assert(before[p] == after[p]);
            lemma_listed_at(before, p);
        }
    }
    assert(listed(after) =~= listed(before).insert(repo, entries[n].count as nat));
}

/// Counts the records of `prs` by repository, and hands out one entry for
/// each repository that occurs, in no particular order.
///
/// Trusted: calls `Itertools::counts` on the records' repositories. Its
/// documentation says that the map it returns contains each item that
/// appears and the number of times it appears; its source adds one to an
/// item's entry for each occurrence. The map's keys are distinct, so no
/// repository is handed out twice. The order in which the map is walked is
/// not fixed, and nothing is claimed of it.
#[verifier::external_body]
fn tally(prs: &[PRInfo]) -> (entries: Vec<RepoCount>)
    ensures
        forall|i: int, j: int|
            0 <= i < j < entries@.len() ==> (#[trigger] entries@[i]).repo@ != (
            #[trigger] entries@[j]).repo@,
        forall|i: int|
            0 <= i < entries@.len() ==> (#[trigger] entries@[i]).count == occurrences(
                repo_urls(prs@),
                entries@[i].repo@,
            ),
        forall|i: int|
            0 <= i < entries@.len() ==> repo_urls(prs@).contains((#[trigger] entries@[i]).repo@),
        forall|k: int|
            0 <= k < prs@.len() ==> lists(entries@, (#[trigger] prs@[k]).repository_url@),
{
    prs.iter()
        .map(|pr| pr.repository_url.as_str())
        .counts()
        .into_iter()
        .map(|(repo, count)| RepoCount { repo: repo.to_string(), count })
        .collect()
}

/// Counts the records of `prs` by repository: the result holds each
/// repository that occurs among them, with the number of its records.
pub fn count_by_pr(prs: &[PRInfo]) -> (counts: RepoCounts)
    ensures
        counts@ == repo_counts(repo_urls(prs@)),
{
    let entries = tally(prs);
    let records = prs.len();
    proof {
        let urls = repo_urls(prs@);
        assert forall|k: int| 0 <= k < urls.len() implies lists(entries@, #[trigger] urls[k]) by {
            assert(urls[k] == prs@[k].repository_url@);
        }
        lemma_sum_occurrences_covers(urls, entries@);
        lemma_sum_counts_are_occurrences(urls, entries@);
        assert(sum_counts(entries@) == records);
        assert(distinct(entries@));
        assert forall|repo: Seq<char>| lists(entries@, repo) <==> urls.contains(repo) by {
            if urls.contains(repo) {
                let k = choose|k: int| 0 <= k < urls.len() && urls[k] == repo;
                assert(lists(entries@, urls[k]));
            }
        }
        assert forall|repo: Seq<char>| lists(entries@, repo) implies #[trigger] listed(
            entries@,
        )[repo] == occurrences(urls, repo) by {
            let p = place_of(entries@, repo);
            lemma_listed_at(entries@, p);
        }
        assert(listed(entries@) =~= repo_counts(urls));
    }
    RepoCounts { entries }
}

impl View for RepoCounts {
    type V = Map<Seq<char>, nat>;

    closed spec fn view(&self) -> Map<Seq<char>, nat> {
        listed(self.entries@)
    }
}

impl RepoCounts {
    #[verifier::type_invariant]
    spec fn well_formed(&self) -> bool {
        distinct(self.entries@) && sum_counts(self.entries@) <= usize::MAX
    }

    /// The counts as a list, in the order in which they are kept.
    pub closed spec fn listing(&self) -> Seq<RepoCount> {
        self.entries@
    }

    /// Counts with no repository in them: the map is empty and so is the
    /// list, so that nothing is counted yet and any count can be added.
    pub fn new() -> (counts: RepoCounts)
        ensures
            counts@ == Map::<Seq<char>, nat>::empty(),
            counts.listing() == Seq::<RepoCount>::empty(),
            sum_counts(counts.listing()) == 0,
    {
        let counts = RepoCounts { entries: Vec::new() };
        assert(listed(counts.entries@) =~= Map::<Seq<char>, nat>::empty());
        assert(counts.entries@ =~= Seq::<RepoCount>::empty());
        counts
    }

    /// The entries, in the order in which they are kept: no repository is
    /// listed twice, the counts together fit in a `usize`, and the map is
    /// that of the list.
    pub fn entries(&self) -> (entries: &Vec<RepoCount>)
        ensures
            entries@ == self.listing(),
            self@ == listed(entries@),
            distinct(entries@),
            sum_counts(entries@) <= usize::MAX,
    {
        proof {
            use_type_invariant(self);
        }
        &self.entries
    }

    /// The place of `repo` in the list, if it is listed.
    fn position(&self, repo: &String) -> (place: Option<usize>)
        ensures
            match place {
                Some(i) => i < self.entries@.len() && self.entries@[i as int].repo@ == repo@,
                None => !lists(self.entries@, repo@),
            },
    {
        let mut i: usize = 0;
        while i < self.entries.len()
            invariant
                i <= self.entries@.len(),
                forall|j: int| 0 <= j < i ==> (#[trigger] self.entries@[j]).repo@ != repo@,
            decreases self.entries@.len() - i,
        {
            if self.entries[i].repo == *repo {
                return Some(i);
            }
            i = i + 1;
        }
        None
    }

    /// The count held for `repo`: zero where none is held.
    pub fn get(&self, repo: &str) -> (count: usize)
        ensures
            count == count_of(self@, repo@),
    {
        proof {
            use_type_invariant(self);
        }
        let key = repo.to_owned();
        match self.position(&key) {
            Some(i) => {
                proof {
                    lemma_listed_at(self.entries@, i as int);
                }
                self.entries[i].count
            },
            None => 0,
        }
    }

    /// Whether a count is held for `repo`.
    pub fn contains(&self, repo: &str) -> (held: bool)
        ensures
            held == self@.dom().contains(repo@),
    {
        let key = repo.to_owned();
        match self.position(&key) {
            Some(i) => {
                assert(lists(self.entries@, repo@));
                true
            },
            None => false,
        }
    }

    /// The counts added up.
    fn total(&self) -> (total: usize)
        ensures
            total == sum_counts(self.entries@),
    {
        proof {
            use_type_invariant(self);
        }
        let mut total: usize = 0;
        let mut i: usize = 0;
        while i < self.entries.len()
            invariant
                i <= self.entries@.len(),
                total == sum_counts(self.entries@.take(i as int)),
                sum_counts(self.entries@) <= usize::MAX,
            decreases self.entries@.len() - i,
        {
            proof {
                lemma_sum_prefix(self.entries@, i as int);
                lemma_sum_prefix(self.entries@, i + 1);
            }
            total = total + self.entries[i].count;
            i = i + 1;
        }
        assert(self.entries@.take(i as int) == self.entries@);
        total
    }

    /// Counts `n` more pull requests for `repo`. Where the counts together
    /// would no longer fit in a `usize`, nothing changes and the result is
    /// `false`.
    pub fn add(&mut self, repo: &str, n: usize) -> (done: bool)
        ensures
            done ==> final(self)@ == old(self)@.insert(
                repo@,
                count_of(old(self)@, repo@) + n as nat,
            ),
            !done ==> final(self)@ == old(self)@ && final(self).listing() == old(self).listing(),
            done == (sum_counts(old(self).listing()) + n <= usize::MAX),
            done ==> sum_counts(final(self).listing()) == sum_counts(old(self).listing()) + n,
    {
        proof {
            use_type_invariant(&*self);
        }
        let total = self.total();
        if n > usize::MAX - total {
            return false;
        }
        let key = repo.to_owned();
        let ghost before = self.entries@;
        let place = self.position(&key);
        let mut entries: Vec<RepoCount> = Vec::new();
        std::mem::swap(&mut self.entries, &mut entries);
        match place {
            Some(i) => {
                proof {
                    lemma_sum_bounds_each(before, i as int);
                }
                let entry = RepoCount { repo: key, count: entries[i].count + n };
                proof {
                    lemma_sum_update(before, i as int, entry);
                    let after = before.update(i as int, entry);
                    assert forall|a: int, b: int| 0 <= a < b < after.len() implies (
                    #[trigger] after[a]).repo@ != (#[trigger] after[b]).repo@ by {
                        assert(before[a].repo@ != before[b].repo@);
                    }
                    assert forall|r: Seq<char>| lists(after, r) <==> lists(before, r) by {
                        if lists(after, r) {
                            let p = place_of(after, r);
                            assert(before[p].repo@ == r);
                        }
                        if lists(before, r) {
                            let p = place_of(before, r);
                            assert(after[p].repo@ == r);
                        }
                    }
                    lemma_listed_at(before, i as int);
                    assert forall|r: Seq<char>| lists(after, r) implies #[trigger] listed(after)[r]
                        == before_insert(before, repo@, n)[r] by {
                        let p = place_of(after, r);
                        lemma_listed_at(after, p);
                        lemma_listed_at(before, p);
                    }
                    assert(listed(after) =~= before_insert(before, repo@, n));
                }
                entries.set(i, entry);
            },
            None => {
                let entry = RepoCount { repo: key, count: n };
                proof {
                    let after = before.push(entry);
                    assert(after.drop_last() == before);
                    assert forall|r: Seq<char>| lists(after, r) <==> (lists(before, r) || r
                        == repo@) by {
                        if lists(after, r) {
                            let p = place_of(after, r);
                            if p < before.len() {
                                assert(before[p].repo@ == r);
                            }
                        }
                        if lists(before, r) {
                            let p = place_of(before, r);
                            assert(after[p].repo@ == r);
                        }
                        if r == repo@ {
                            assert(after[before.len() as int].repo@ == r);
                        }
                    }
                    assert forall|r: Seq<char>| lists(after, r) implies #[trigger] listed(after)[r]
                        == before_insert(before, repo@, n)[r] by {
                        let p = place_of(after, r);
                        lemma_listed_at(after, p);
                        if p < before.len() {
                            lemma_listed_at(before, p);
                        }
                    }
                    assert(listed(after) =~= before_insert(before, repo@, n));
                }
                entries.push(entry);
            },
        }
        std::mem::swap(&mut self.entries, &mut entries);
        true
    }
}

/// The map of `entries` with `n` more counted for `repo`.
spec fn before_insert(entries: Seq<RepoCount>, repo: Seq<char>, n: usize) -> Map<Seq<char>, nat> {
    listed(entries).insert(repo, count_of(listed(entries), repo) + n as nat)
}

/// Each count is at most the sum of all.
proof fn lemma_sum_bounds_each(entries: Seq<RepoCount>, i: int)
    requires
        0 <= i < entries.len(),
    ensures
        entries[i].count <= sum_counts(entries),
    decreases entries.len(),
{
    if i < entries.len() - 1 {
        lemma_sum_bounds_each(entries.drop_last(), i);
    }
}

} // verus!
