//! The report: one line for each repository, in the order of the
//! repositories' names, and a last line for all of them together.

use itertools::Itertools;
use vstd::prelude::*;
use crate::counts::{count_by_pr, repo_counts};
use crate::model::{repo_urls, PRInfo};
use crate::order::{lemma_precedes_asymmetric, lemma_precedes_total, precedes};
use crate::stats::{stats_text, total_text, PRStats};
use crate::stats_map::{
    distinct_rows, has_row, is_combination, lemma_rows_map_at, pick, row_of, rows, rows_map,
    sum_rows, Row, StatsEntry, StatsMap,
};

verus! {

/// Whether `listing` lists `stats` as the report does: one row for each
/// repository, with its statistics, the rows in the strict order of the
/// repositories' names.
pub open spec fn is_report_listing(stats: Map<Seq<char>, PRStats>, listing: Seq<Row>) -> bool {
    &&& forall|i: int, j: int|
        0 <= i < j < listing.len() ==> precedes(
            (#[trigger] listing[i]).repo,
            (#[trigger] listing[j]).repo,
        )
    &&& forall|i: int|
        0 <= i < listing.len() ==> stats.dom().contains((#[trigger] listing[i]).repo)
            && stats[listing[i].repo] == listing[i].stats
    &&& forall|repo: Seq<char>| #[trigger] stats.dom().contains(repo) ==> has_row(listing, repo)
}

/// The line of one repository, with the line break that ends it.
pub open spec fn line_text(row: Row) -> Seq<char> {
    row.repo + ": "@ + stats_text(row.stats.approved as nat, row.stats.not_approved as nat)
        + "\n"@
}

/// The lines of `listing`, one after the other.
pub open spec fn lines_text(listing: Seq<Row>) -> Seq<char>
    decreases listing.len(),
{
    if listing.len() == 0 {
        Seq::empty()
    } else {
        lines_text(listing.drop_last()) + line_text(listing.last())
    }
}

/// The report of `listing`: its lines, then the line of the totals.
pub open spec fn report_text(listing: Seq<Row>) -> Seq<char> {
    lines_text(listing) + total_text(sum_rows(listing, true), sum_rows(listing, false)) + "\n"@
}

/// A map has one listing only: the report of given statistics is fixed.
pub proof fn report_listing_is_unique(
    stats: Map<Seq<char>, PRStats>,
    first: Seq<Row>,
    second: Seq<Row>,
)
    requires
        is_report_listing(stats, first),
        is_report_listing(stats, second),
    ensures
        first == second,
    decreases first.len(),
{
    if first.len() == 0 {
        if second.len() > 0 {
            assert(stats.dom().contains(second[0].repo));
            assert(has_row(first, second[0].repo));
        }
        assert(first =~= second);
    } else if second.len() == 0 {
        assert(stats.dom().contains(first[0].repo));
        assert(has_row(second, first[0].repo));
    } else {
        let a = first.last();
        let b = second.last();
        assert(a == first[first.len() - 1]);
        assert(b == second[second.len() - 1]);
        assert(stats.dom().contains(a.repo));
        assert(stats.dom().contains(b.repo));
        let y = row_of(second, a.repo);
        let x = row_of(first, b.repo);
        assert(has_row(second, a.repo));
        assert(has_row(first, b.repo));
        lemma_precedes_asymmetric(a.repo, b.repo);
        if y < second.len() - 1 {
            assert(precedes(second[y].repo, second[second.len() - 1].repo));
        }
        if x < first.len() - 1 {
            assert(precedes(first[x].repo, first[first.len() - 1].repo));
        }
        assert(a.repo == b.repo);
        assert(a == b);
        let fewer = stats.remove(a.repo);
        lemma_listing_without_last(stats, first);
        lemma_listing_without_last(stats, second);
        report_listing_is_unique(fewer, first.drop_last(), second.drop_last());
        assert(first =~= first.drop_last().push(a));
        assert(second =~= second.drop_last().push(b));
    }
}

/// A listing without its last row lists the map without that row's
/// repository.
proof fn lemma_listing_without_last(stats: Map<Seq<char>, PRStats>, listing: Seq<Row>)
    requires
        is_report_listing(stats, listing),
        listing.len() > 0,
    ensures
        is_report_listing(stats.remove(listing.last().repo), listing.drop_last()),
{
    let last = listing.last();
    let fewer = stats.remove(last.repo);
    let rest = listing.drop_last();
    assert(last == listing[listing.len() - 1]);
    assert forall|i: int, j: int| 0 <= i < j < rest.len() implies precedes(
        (#[trigger] rest[i]).repo,
        (#[trigger] rest[j]).repo,
    ) by {
        assert(precedes(listing[i].repo, listing[j].repo));
    }
    assert forall|i: int| 0 <= i < rest.len() implies fewer.dom().contains(
        (#[trigger] rest[i]).repo,
    ) && fewer[rest[i].repo] == rest[i].stats by {
        assert(rest[i] == listing[i]);
        assert(precedes(listing[i].repo, listing[listing.len() - 1].repo));
        lemma_precedes_asymmetric(rest[i].repo, last.repo);
        assert(stats.dom().contains(listing[i].repo));
    }
    assert forall|repo: Seq<char>| #[trigger] fewer.dom().contains(repo) implies has_row(
        rest,
        repo,
    ) by {
        assert(stats.dom().contains(repo));
        let x = row_of(listing, repo);
        assert(has_row(listing, repo));
        assert(rest[x].repo == repo);
    }
}

/// The sum of some rows is that of the rows without one of them, and that
/// one's count.
proof fn lemma_sum_rows_remove(rows: Seq<Row>, i: int, approved: bool)
    requires
        0 <= i < rows.len(),
    ensures
        sum_rows(rows, approved) == sum_rows(rows.remove(i), approved) + pick(
            rows[i].stats,
            approved,
        ),
    decreases rows.len(),
{
    if i == rows.len() - 1 {
        assert(rows.remove(i) =~= rows.drop_last());
    } else {
        lemma_sum_rows_remove(rows.drop_last(), i, approved);
        assert(rows.remove(i).drop_last() =~= rows.drop_last().remove(i));
        assert(rows.remove(i).last() == rows.last());
    }
}

/// The same rows in another order add up to the same.
proof fn lemma_sum_rows_permutation(first: Seq<Row>, second: Seq<Row>, approved: bool)
    requires
        first.to_multiset() == second.to_multiset(),
    ensures
        sum_rows(first, approved) == sum_rows(second, approved),
    decreases first.len(),
{
    broadcast use vstd::seq_lib::group_to_multiset_ensures;

    if first.len() == 0 {
        vstd::seq_lib::to_multiset_len(first);
        vstd::seq_lib::to_multiset_len(second);
    } else {
        let last = first.last();
        let rest = first.drop_last();
        assert(first =~= rest.push(last));
        assert(first.contains(last)) by {
            assert(first[first.len() - 1] == last);
        }
        assert(second.to_multiset().count(last) > 0);
        assert(second.contains(last));
        let i = choose|i: int| 0 <= i < second.len() && second[i] == last;
        assert(rest.to_multiset() =~= first.to_multiset().remove(last));
        assert(second.remove(i).to_multiset() =~= second.to_multiset().remove(last));
        lemma_sum_rows_permutation(rest, second.remove(i), approved);
        lemma_sum_rows_remove(second, i, approved);
    }
}

/// The sum of the first rows is at most the sum of all.
proof fn lemma_sum_rows_prefix(rows: Seq<Row>, n: int, approved: bool)
    requires
        0 <= n <= rows.len(),
    ensures
        sum_rows(rows.take(n), approved) <= sum_rows(rows, approved),
        n < rows.len() ==> sum_rows(rows.take(n + 1), approved) == sum_rows(
            rows.take(n),
            approved,
        ) + pick(rows[n].stats, approved),
    decreases rows.len() - n,
{
    if n < rows.len() {
        lemma_sum_rows_prefix(rows, n + 1, approved);
        assert(rows.take(n + 1).drop_last() == rows.take(n));
    } else {
        assert(rows.take(n) == rows);
    }
}

/// Rows of distinct repositories, put in the order of the names, are the
/// listing of their map, and add up to what they added up to before.
proof fn lemma_sorted_rows_list_map(unsorted: Seq<Row>, sorted: Seq<Row>)
    requires
        distinct_rows(unsorted),
        sorted.to_multiset() == unsorted.to_multiset(),
        forall|i: int, j: int|
            0 <= i < j < sorted.len() ==> !precedes(
                (#[trigger] sorted[j]).repo,
                (#[trigger] sorted[i]).repo,
            ),
    ensures
        is_report_listing(rows_map(unsorted), sorted),
        sum_rows(sorted, true) == sum_rows(unsorted, true),
        sum_rows(sorted, false) == sum_rows(unsorted, false),
{
    broadcast use vstd::seq_lib::group_to_multiset_ensures;

    let stats = rows_map(unsorted);
    lemma_sum_rows_permutation(sorted, unsorted, true);
    lemma_sum_rows_permutation(sorted, unsorted, false);
    assert(unsorted.no_duplicates()) by {
        assert forall|i: int, j: int|
            0 <= i < unsorted.len() && 0 <= j < unsorted.len() && i != j implies unsorted[i]
            != unsorted[j] by {
            if i < j {
                assert(unsorted[i].repo != unsorted[j].repo);
            } else {
                assert(unsorted[j].repo != unsorted[i].repo);
            }
        }
    }
    unsorted.lemma_multiset_has_no_duplicates();
    sorted.lemma_multiset_has_no_duplicates_conv();
    assert forall|i: int| 0 <= i < sorted.len() implies stats.dom().contains(
        (#[trigger] sorted[i]).repo,
    ) && stats[sorted[i].repo] == sorted[i].stats by {
        assert(sorted.contains(sorted[i]));
        assert(unsorted.to_multiset().count(sorted[i]) > 0);
        assert(unsorted.contains(sorted[i]));
        let p = choose|p: int| 0 <= p < unsorted.len() && unsorted[p] == sorted[i];
        lemma_rows_map_at(unsorted, p);
    }
    assert forall|i: int, j: int| 0 <= i < j < sorted.len() implies precedes(
        (#[trigger] sorted[i]).repo,
        (#[trigger] sorted[j]).repo,
    ) by {
        if sorted[i].repo == sorted[j].repo {
            assert(stats[sorted[i].repo] == sorted[i].stats);
            assert(stats[sorted[j].repo] == sorted[j].stats);
            assert(sorted[i] == sorted[j]);
        }
        lemma_precedes_total(sorted[i].repo, sorted[j].repo);
    }
    assert forall|repo: Seq<char>| #[trigger] stats.dom().contains(repo) implies has_row(
        sorted,
        repo,
    ) by {
        let p = row_of(unsorted, repo);
        assert(has_row(unsorted, repo));
        assert(unsorted.contains(unsorted[p]));
        assert(sorted.to_multiset().count(unsorted[p]) > 0);
        assert(sorted.contains(unsorted[p]));
        let i = choose|i: int| 0 <= i < sorted.len() && sorted[i] == unsorted[p];
        assert(sorted[i].repo == repo);
    }
}

/// The entries in the order of their repositories' names; entries of equal
/// names keep the order they had.
///
/// Trusted: calls `Itertools::sorted_by_key` with the repository's name as
/// the key. Its source collects the items and sorts them with
/// `slice::sort_by_key`, which std documents as a stable sort by the key's
/// `Ord`; that of strings is lexicographic by bytes, which is the order of
/// the characters' code points. What comes out are the items that went in,
/// each as often as it went in, and none comes after one that it precedes.
#[verifier::external_body]
fn sorted_by_repo(entries: &Vec<StatsEntry>) -> (sorted: Vec<StatsEntry>)
    ensures
        rows(sorted@).to_multiset() == rows(entries@).to_multiset(),
        forall|i: int, j: int|
            0 <= i < j < sorted@.len() ==> !precedes(
                (#[trigger] sorted@[j]).repo@,
                (#[trigger] sorted@[i]).repo@,
            ),
{
    entries.iter()
        .sorted_by_key(|entry| entry.repo.as_str())
        .map(|entry| StatsEntry { repo: entry.repo.clone(), stats: entry.stats })
        .collect()
}

impl StatsMap {
    /// The repositories with their statistics, in the order of the
    /// repositories' names.
    pub fn sorted_entries(&self) -> (sorted: Vec<StatsEntry>)
        ensures
            is_report_listing(self@, rows(sorted@)),
            sum_rows(rows(sorted@), true) <= usize::MAX,
            sum_rows(rows(sorted@), false) <= usize::MAX,
    {
        let entries = self.entries();
        let sorted = sorted_by_repo(entries);
        proof {
            let listing = rows(sorted@);
            assert forall|i: int, j: int| 0 <= i < j < listing.len() implies !precedes(
                (#[trigger] listing[j]).repo,
                (#[trigger] listing[i]).repo,
            ) by {
                assert(!precedes(sorted@[j].repo@, sorted@[i].repo@));
            }
            lemma_sorted_rows_list_map(rows(entries@), listing);
        }
        sorted
    }

    /// The report: a line for each repository, in the order of the
    /// repositories' names, with its total, its two counts and its rate;
    /// then a line with the same for all repositories together. Every line
    /// ends with a line break.
    pub fn render(&self) -> (text: String)
        ensures
            exists|listing: Seq<Row>| #[trigger]
                is_report_listing(self@, listing) && text@ == report_text(listing),
    {
        let sorted = self.sorted_entries();
        let mut text = String::new();
        let mut totals = PRStats::new();
        let mut i: usize = 0;
        assert(rows(sorted@).take(0) =~= Seq::empty());
        while i < sorted.len()
            invariant
                i <= sorted@.len(),
                text@ == lines_text(rows(sorted@).take(i as int)),
                totals.approved == sum_rows(rows(sorted@).take(i as int), true),
                totals.not_approved == sum_rows(rows(sorted@).take(i as int), false),
                sum_rows(rows(sorted@), true) <= usize::MAX,
                sum_rows(rows(sorted@), false) <= usize::MAX,
            decreases sorted@.len() - i,
        {
            let ghost listing = rows(sorted@);
            proof {
                lemma_sum_rows_prefix(listing, i as int, true);
                lemma_sum_rows_prefix(listing, i as int, false);
                lemma_sum_rows_prefix(listing, i + 1, true);
                lemma_sum_rows_prefix(listing, i + 1, false);
                assert(listing.take(i + 1).drop_last() == listing.take(i as int));
                assert(listing.take(i + 1).last() == sorted@[i as int]@);
            }
            text.append(sorted[i].repo.as_str());
            text.append(": ");
            sorted[i].stats.push_to(&mut text);
            text.append("\n");
            totals.update_from(&sorted[i].stats);
            i = i + 1;
            assert(text@ =~= lines_text(listing.take(i as int)));
        }
        assert(rows(sorted@).take(i as int) == rows(sorted@));
        let last = totals.render_total();
        text.append(last.as_str());
        text.append("\n");
        assert(text@ =~= report_text(rows(sorted@)));
        text
    }
}

/// The statistics of every repository that occurs among the approved or
/// the not approved pull requests.
pub fn pr_stats(approved: &[PRInfo], not_approved: &[PRInfo]) -> (stats: StatsMap)
    ensures
        is_combination(
            stats@,
            repo_counts(repo_urls(approved@)),
            repo_counts(repo_urls(not_approved@)),
        ),
{
    let approved_counts = count_by_pr(approved);
    let not_approved_counts = count_by_pr(not_approved);
    StatsMap::combine(&approved_counts, &not_approved_counts)
}

/// The report on the approved and the not approved pull requests of an
/// organization: the text to print.
pub fn report(approved: &[PRInfo], not_approved: &[PRInfo]) -> (text: String)
    ensures
        exists|stats: Map<Seq<char>, PRStats>, listing: Seq<Row>|
            #![trigger is_report_listing(stats, listing)]
            is_combination(
                stats,
                repo_counts(repo_urls(approved@)),
                repo_counts(repo_urls(not_approved@)),
            ) && is_report_listing(stats, listing) && text@ == report_text(listing),
{
    let stats = pr_stats(approved, not_approved);
    let text = stats.render();
    proof {
        let listing = choose|listing: Seq<Row>| #[trigger]
            is_report_listing(stats@, listing) && text@ == report_text(listing);
        assert(is_report_listing(stats@, listing));
    }
    text
}

} // verus!
