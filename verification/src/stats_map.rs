//! The statistics of every repository: the two counts merged into one map.

use vstd::prelude::*;
use crate::counts::{
    count_of, distinct, lemma_listed_at, lemma_listed_next, lemma_sum_prefix, listed, lists,
    sum_counts, RepoCount, RepoCounts,
};
use crate::stats::PRStats;

verus! {

/// A repository with its statistics.
#[derive(Debug, Clone, PartialEq, Eq)]
pub struct StatsEntry {
    pub repo: String,
    pub stats: PRStats,
}

/// A repository with its statistics, as a mathematical value.
pub struct Row {
    pub repo: Seq<char>,
    pub stats: PRStats,
}

impl View for StatsEntry {
    type V = Row;

    open spec fn view(&self) -> Row {
        Row { repo: self.repo@, stats: self.stats }
    }
}

/// The rows of a sequence of entries, in the entries' order.
pub open spec fn rows(entries: Seq<StatsEntry>) -> Seq<Row> {
    Seq::new(entries.len(), |i: int| entries[i]@)
}

/// Whether one of `rows` is that of `repo`.
pub open spec fn has_row(rows: Seq<Row>, repo: Seq<char>) -> bool {
    exists|i: int| 0 <= i < rows.len() && (#[trigger] rows[i]).repo == repo
}

/// A place at which `rows` holds the row of `repo`.
pub open spec fn row_of(rows: Seq<Row>, repo: Seq<char>) -> int {
    choose|i: int| 0 <= i < rows.len() && (#[trigger] rows[i]).repo == repo
}

/// Whether no repository has two of `rows`.
pub open spec fn distinct_rows(rows: Seq<Row>) -> bool {
    forall|i: int, j: int|
        0 <= i < j < rows.len() ==> (#[trigger] rows[i]).repo != (#[trigger] rows[j]).repo
}

/// The statistics of `rows` as a map.
pub open spec fn rows_map(rows: Seq<Row>) -> Map<Seq<char>, PRStats> {
    Map::new(|repo: Seq<char>| has_row(rows, repo), |repo: Seq<char>| rows[row_of(rows, repo)].stats)
}

/// One of the two counts of `stats`: the approved if `approved` is set, the
/// others if not.
pub open spec fn pick(stats: PRStats, approved: bool) -> nat {
    if approved {
        stats.approved as nat
    } else {
        stats.not_approved as nat
    }
}

/// One of the two counts, added up over `rows`.
pub open spec fn sum_rows(rows: Seq<Row>, approved: bool) -> nat
    decreases rows.len(),
{
    if rows.len() == 0 {
        0
    } else {
        sum_rows(rows.drop_last(), approved) + pick(rows.last().stats, approved)
    }
}

/// Whether `merged` is what the counts `approved` and `not_approved` merge
/// into: it holds the repositories that either of them holds, and for each
/// one the count that each of them holds for it, zero where it holds none.
pub open spec fn is_combination(
    merged: Map<Seq<char>, PRStats>,
    approved: Map<Seq<char>, nat>,
    not_approved: Map<Seq<char>, nat>,
) -> bool {
    &&& forall|repo: Seq<char>| #[trigger]
        merged.dom().contains(repo) <==> (approved.dom().contains(repo)
            || not_approved.dom().contains(repo))
    &&& forall|repo: Seq<char>| #[trigger]
        merged.dom().contains(repo) ==> merged[repo].approved == count_of(approved, repo)
            && merged[repo].not_approved == count_of(not_approved, repo)
}

/// Merging is symmetric in this sense: the repositories of the merged map
/// are those of the one side together with those of the other, whichever
/// comes first; each repository has the approved count that the first side
/// holds for it and the other count that the second side holds for it, zero
/// where a side holds none; and with the sides swapped the two counts of
/// every repository are swapped.
pub proof fn combination_is_union(
    merged: Map<Seq<char>, PRStats>,
    approved: Map<Seq<char>, nat>,
    not_approved: Map<Seq<char>, nat>,
    swapped: Map<Seq<char>, PRStats>,
)
    requires
        is_combination(merged, approved, not_approved),
        is_combination(swapped, not_approved, approved),
    ensures
        merged.dom() == approved.dom().union(not_approved.dom()),
        merged.dom() == swapped.dom(),
        forall|repo: Seq<char>| #[trigger]
            merged.dom().contains(repo) ==> merged[repo].approved == count_of(approved, repo)
                && merged[repo].not_approved == count_of(not_approved, repo),
        forall|repo: Seq<char>| #[trigger]
            merged.dom().contains(repo) ==> swapped[repo].approved == merged[repo].not_approved
                && swapped[repo].not_approved == merged[repo].approved,
{
    assert(merged.dom() =~= approved.dom().union(not_approved.dom()));
    assert(merged.dom() =~= swapped.dom());
    assert forall|repo: Seq<char>| #[trigger] merged.dom().contains(repo) implies swapped[repo].approved
        == merged[repo].not_approved && swapped[repo].not_approved == merged[repo].approved by {
        assert(swapped.dom().contains(repo));
    }
}

/// Two counts merge into one map only.
pub proof fn combination_is_unique(
    first: Map<Seq<char>, PRStats>,
    second: Map<Seq<char>, PRStats>,
    approved: Map<Seq<char>, nat>,
    not_approved: Map<Seq<char>, nat>,
)
    requires
        is_combination(first, approved, not_approved),
        is_combination(second, approved, not_approved),
    ensures
        first == second,
{
    assert forall|repo: Seq<char>| first.dom().contains(repo) <==> second.dom().contains(repo) by {
    }
    assert forall|repo: Seq<char>| first.dom().contains(repo) implies first[repo] == second[repo] by {
        assert(second.dom().contains(repo));
    }
    assert(first =~= second);
}

/// Among rows without repetition, the map holds for each row its
/// statistics.
pub proof fn lemma_rows_map_at(rows: Seq<Row>, i: int)
    requires
        distinct_rows(rows),
        0 <= i < rows.len(),
    ensures
        rows_map(rows).dom().contains(rows[i].repo),
        rows_map(rows)[rows[i].repo] == rows[i].stats,
        row_of(rows, rows[i].repo) == i,
{
    let repo = rows[i].repo;
    assert(has_row(rows, repo));
    let p = row_of(rows, repo);
    assert(0 <= p < rows.len() && rows[p].repo == repo);
    if p < i {
        assert(rows[p].repo != rows[i].repo);
    } else if i < p {
        assert(rows[i].repo != rows[p].repo);
    }
}

/// Rows without repetition make a map of as many repositories as there are
/// rows.
proof fn lemma_rows_map_size(rows: Seq<Row>)
    requires
        distinct_rows(rows),
    ensures
        rows_map(rows).dom().finite(),
        rows_map(rows).dom().len() == rows.len(),
    decreases rows.len(),
{
    if rows.len() == 0 {
        assert(rows_map(rows).dom() =~= Set::<Seq<char>>::empty());
    } else {
        let rest = rows.drop_last();
        let last = rows.last();
        assert forall|i: int, j: int| 0 <= i < j < rest.len() implies (#[trigger] rest[i]).repo != (
        #[trigger] rest[j]).repo by {
            assert(rows[i].repo != rows[j].repo);
        }
        lemma_rows_map_size(rest);
        if has_row(rest, last.repo) {
            let p = row_of(rest, last.repo);
            assert(rows[p].repo != rows[rows.len() - 1].repo);
        }
        assert forall|k: Seq<char>| has_row(rows, k) <==> (has_row(rest, k) || k == last.repo) by {
            if has_row(rows, k) {
                let p = row_of(rows, k);
                if p < rest.len() {
                    assert(rest[p].repo == k);
                }
            }
            if has_row(rest, k) {
                let p = row_of(rest, k);
                assert(rows[p].repo == k);
            }
            if k == last.repo {
                assert(rows[rows.len() - 1].repo == k);
            }
        }
        assert(rows_map(rows).dom() =~= rows_map(rest).dom().insert(last.repo));
    }
}

/// Replacing one row changes a sum by the difference of the row's counts.
proof fn lemma_sum_rows_update(rows: Seq<Row>, i: int, row: Row, approved: bool)
    requires
        0 <= i < rows.len(),
    ensures
        sum_rows(rows.update(i, row), approved) + pick(rows[i].stats, approved) == sum_rows(
            rows,
            approved,
        ) + pick(row.stats, approved),
    decreases rows.len(),
{
    let updated = rows.update(i, row);
    if i == rows.len() - 1 {
        assert(updated.drop_last() == rows.drop_last());
    } else {
        lemma_sum_rows_update(rows.drop_last(), i, row, approved);
        assert(updated.drop_last() == rows.drop_last().update(i, row));
    }
}

/// Rows made of counts, one for one, with nothing on the other side: their
/// approved add up to the counts, and their others to nothing.
proof fn lemma_rows_of_counts(counts: Seq<RepoCount>, rows: Seq<Row>)
    requires
        rows.len() == counts.len(),
        forall|p: int|
            0 <= p < rows.len() ==> (#[trigger] rows[p]).stats == (PRStats {
                approved: counts[p].count,
                not_approved: 0,
            }),
    ensures
        sum_rows(rows, true) == sum_counts(counts),
        sum_rows(rows, false) == 0,
    decreases rows.len(),
{
    if rows.len() > 0 {
        let fewer = rows.drop_last();
        assert forall|p: int| 0 <= p < fewer.len() implies (#[trigger] fewer[p]).stats == (PRStats {
            approved: counts.drop_last()[p].count,
            not_approved: 0,
        }) by {
            assert(fewer[p] == rows[p]);
        }
        lemma_rows_of_counts(counts.drop_last(), fewer);
        assert(rows.last() == rows[rows.len() - 1]);
    }
}

/// The statistics of each of some repositories. No repository is held
/// twice, and each of the two counts, added up over all repositories, fits
/// in a `usize`.
#[derive(Debug)]
pub struct StatsMap {
    entries: Vec<StatsEntry>,
}

impl View for StatsMap {
    type V = Map<Seq<char>, PRStats>;

    closed spec fn view(&self) -> Map<Seq<char>, PRStats> {
        rows_map(rows(self.entries@))
    }
}

/// The place of `repo` among `entries`, if it is there.
fn find(entries: &Vec<StatsEntry>, repo: &String) -> (place: Option<usize>)
    ensures
        match place {
            Some(i) => i < entries@.len() && entries@[i as int].repo@ == repo@,
            None => !has_row(rows(entries@), repo@),
        },
{
    let mut i: usize = 0;
    while i < entries.len()
        invariant
            i <= entries@.len(),
            forall|j: int| 0 <= j < i ==> (#[trigger] rows(entries@)[j]).repo != repo@,
        decreases entries@.len() - i,
    {
        if entries[i].repo == *repo {
            return Some(i);
        }
        assert(rows(entries@)[i as int].repo != repo@);
        i = i + 1;
    }
    None
}

impl StatsMap {
    #[verifier::type_invariant]
    spec fn well_formed(&self) -> bool {
        &&& distinct_rows(rows(self.entries@))
        &&& sum_rows(rows(self.entries@), true) <= usize::MAX
        &&& sum_rows(rows(self.entries@), false) <= usize::MAX
    }

    /// The rows in the order in which they are kept.
    pub closed spec fn listing(&self) -> Seq<Row> {
        rows(self.entries@)
    }

    /// The entries in the order in which they are kept: no repository is
    /// held twice, each of the two counts fits when it is added up, and the
    /// map is that of the rows.
    pub fn entries(&self) -> (entries: &Vec<StatsEntry>)
        ensures
            rows(entries@) == self.listing(),
            self@ == rows_map(rows(entries@)),
            distinct_rows(rows(entries@)),
            sum_rows(rows(entries@), true) <= usize::MAX,
            sum_rows(rows(entries@), false) <= usize::MAX,
    {
        proof {
            use_type_invariant(self);
        }
        &self.entries
    }

    /// The statistics of `repo`, if there are any.
    pub fn get(&self, repo: &str) -> (stats: Option<PRStats>)
        ensures
            match stats {
                Some(found) => self@.dom().contains(repo@) && self@[repo@] == found,
                None => !self@.dom().contains(repo@),
            },
    {
        proof {
            use_type_invariant(self);
        }
        let key = repo.to_owned();
        match find(&self.entries, &key) {
            Some(i) => {
                proof {
                    lemma_rows_map_at(rows(self.entries@), i as int);
                }
                Some(self.entries[i].stats)
            },
            None => None,
        }
    }

    /// The number of repositories.
    pub fn len(&self) -> (count: usize)
        ensures
            self@.dom().finite(),
            count == self@.dom().len(),
            count == self.listing().len(),
    {
        proof {
            use_type_invariant(self);
            lemma_rows_map_size(rows(self.entries@));
        }
        self.entries.len()
    }

    /// Merges the counts of approved and of not approved pull requests:
    /// the result holds each repository that either holds, with the count
    /// that each of them holds for it, zero where it holds none.
    pub fn combine(approved: &RepoCounts, not_approved: &RepoCounts) -> (merged: StatsMap)
        ensures
            is_combination(merged@, approved@, not_approved@),
    {
        let ae = approved.entries();
        let be = not_approved.entries();
        let mut out: Vec<StatsEntry> = Vec::new();
        let mut i: usize = 0;
        while i < ae.len()
            invariant
                i <= ae@.len(),
                out@.len() == i,
                forall|p: int|
                    0 <= p < i ==> (#[trigger] rows(out@)[p]) == (Row {
                        repo: ae@[p].repo@,
                        stats: PRStats { approved: ae@[p].count, not_approved: 0 },
                    }),
            decreases ae@.len() - i,
        {
            let entry = StatsEntry {
                repo: ae[i].repo.clone(),
                stats: PRStats::new_with(ae[i].count, 0),
            };
            let ghost before = rows(out@);
            out.push(entry);
            proof {
                assert(rows(out@) =~= before.push(entry@));
                assert forall|p: int| 0 <= p < i + 1 implies (#[trigger] rows(out@)[p]) == (Row {
                    repo: ae@[p].repo@,
                    stats: PRStats { approved: ae@[p].count, not_approved: 0 },
                }) by {
                    if p < i {
                        assert(rows(out@)[p] == before[p]);
                    }
                }
            }
            i = i + 1;
        }
        let ghost a_map = listed(ae@);
        proof {
            let r = rows(out@);
            lemma_rows_of_counts(ae@, r);
            assert forall|p: int, q: int| 0 <= p < q < r.len() implies (#[trigger] r[p]).repo != (
            #[trigger] r[q]).repo by {
                assert(ae@[p].repo@ != ae@[q].repo@);
            }
            assert forall|k: Seq<char>| has_row(r, k) <==> a_map.dom().contains(k) by {
                if has_row(r, k) {
                    let p = row_of(r, k);
                    assert(ae@[p].repo@ == k);
                }
                if lists(ae@, k) {
                    let p = choose|p: int| 0 <= p < ae@.len() && (#[trigger] ae@[p]).repo@ == k;
                    assert(r[p].repo == k);
                }
            }
            assert forall|p: int| 0 <= p < r.len() implies (#[trigger] r[p]).stats.approved
                == count_of(a_map, r[p].repo) by {
                lemma_listed_at(ae@, p);
            }
            assert(be@.take(0) =~= Seq::empty());
        }
        let mut j: usize = 0;
        while j < be.len()
            invariant
                j <= be@.len(),
                distinct(be@),
                a_map == listed(ae@),
                sum_counts(ae@) <= usize::MAX,
                sum_counts(be@) <= usize::MAX,
                distinct_rows(rows(out@)),
                forall|k: Seq<char>| #[trigger]
                    has_row(rows(out@), k) <==> (a_map.dom().contains(k) || listed(
                        be@.take(j as int),
                    ).dom().contains(k)),
                forall|p: int|
                    0 <= p < out@.len() ==> (#[trigger] rows(out@)[p]).stats.approved == count_of(
                        a_map,
                        rows(out@)[p].repo,
                    ),
                forall|p: int|
                    0 <= p < out@.len() ==> (#[trigger] rows(out@)[p]).stats.not_approved
                        == count_of(listed(be@.take(j as int)), rows(out@)[p].repo),
                sum_rows(rows(out@), true) == sum_counts(ae@),
                sum_rows(rows(out@), false) == sum_counts(be@.take(j as int)),
            decreases be@.len() - j,
        {
            let key = be[j].repo.clone();
            let count = be[j].count;
            let ghost before = rows(out@);
            let ghost b_before = listed(be@.take(j as int));
            let ghost b_after = listed(be@.take(j + 1));
            proof {
                lemma_listed_next(be@, j as int);
                lemma_sum_prefix(be@, j as int);
            }
            match find(&out, &key) {
                Some(p) => {
                    let entry = StatsEntry {
                        repo: key,
                        stats: PRStats::new_with(out[p].stats.approved, count),
                    };
                    out.set(p, entry);
                    proof {
                        let after = rows(out@);
                        assert(after =~= before.update(p as int, entry@));
                        assert(before[p as int].stats.not_approved == 0);
                        lemma_sum_rows_update(before, p as int, entry@, true);
                        lemma_sum_rows_update(before, p as int, entry@, false);
                        assert forall|x: int, y: int| 0 <= x < y < after.len() implies (
                        #[trigger] after[x]).repo != (#[trigger] after[y]).repo by {
                            assert(before[x].repo != before[y].repo);
                        }
                        assert forall|k: Seq<char>| has_row(after, k) <==> has_row(before, k) by {
                            if has_row(after, k) {
                                let x = row_of(after, k);
                                assert(before[x].repo == k);
                            }
                            if has_row(before, k) {
                                let x = row_of(before, k);
                                assert(after[x].repo == k);
                            }
                        }
                        assert(has_row(before, key@)) by {
                            assert(before[p as int].repo == key@);
                        }
                        assert forall|k: Seq<char>| #[trigger]
                            has_row(after, k) <==> (a_map.dom().contains(k)
                                || b_after.dom().contains(k)) by {
                            assert(has_row(after, k) <==> has_row(before, k));
                            assert(has_row(before, k) <==> (a_map.dom().contains(k)
                                || b_before.dom().contains(k)));
                        }
                        assert forall|x: int| 0 <= x < after.len() implies (
                        #[trigger] after[x]).stats.not_approved == count_of(
                            b_after,
                            after[x].repo,
                        ) by {
                            if x != p {
                                assert(before[x].repo != before[p as int].repo);
                                assert(after[x] == before[x]);
                            }
                        }
                        assert forall|x: int| 0 <= x < after.len() implies (
                        #[trigger] after[x]).stats.approved == count_of(a_map, after[x].repo) by {
                            assert(after[x].stats.approved == before[x].stats.approved);
                            assert(after[x].repo == before[x].repo);
                        }
                    }
                },
                None => {
                    let entry = StatsEntry { repo: key, stats: PRStats::new_with(0, count) };
                    out.push(entry);
                    proof {
                        let after = rows(out@);
                        assert(after =~= before.push(entry@));
                        assert(after.drop_last() =~= before);
                        assert forall|x: int, y: int| 0 <= x < y < after.len() implies (
                        #[trigger] after[x]).repo != (#[trigger] after[y]).repo by {
                            if y < before.len() {
                                assert(before[x].repo != before[y].repo);
                            } else {
                                assert(before[x].repo != key@);
                            }
                        }
                        assert forall|k: Seq<char>| has_row(after, k) <==> (has_row(before, k) || k
                            == key@) by {
                            if has_row(after, k) {
                                let x = row_of(after, k);
                                if x < before.len() {
                                    assert(before[x].repo == k);
                                }
                            }
                            if has_row(before, k) {
                                let x = row_of(before, k);
                                assert(after[x].repo == k);
                            }
                            if k == key@ {
                                assert(after[before.len() as int].repo == k);
                            }
                        }
                        assert forall|k: Seq<char>| #[trigger]
                            has_row(after, k) <==> (a_map.dom().contains(k)
                                || b_after.dom().contains(k)) by {
                            assert(has_row(after, k) <==> (has_row(before, k) || k == key@));
                            assert(has_row(before, k) <==> (a_map.dom().contains(k)
                                || b_before.dom().contains(k)));
                        }
                        assert forall|x: int| 0 <= x < after.len() implies (
                        #[trigger] after[x]).stats.not_approved == count_of(
                            b_after,
                            after[x].repo,
                        ) by {
                            if x < before.len() {
                                assert(after[x] == before[x]);
                                assert(before[x].repo != key@);
                            }
                        }
                        assert forall|x: int| 0 <= x < after.len() implies (
                        #[trigger] after[x]).stats.approved == count_of(a_map, after[x].repo) by {
                            if x < before.len() {
                                assert(after[x] == before[x]);
                            }
                        }
                    }
                },
            }
            j = j + 1;
        }
        proof {
            assert(be@.take(j as int) == be@);
            let r = rows(out@);
            assert forall|repo: Seq<char>| #[trigger]
                rows_map(r).dom().contains(repo) <==> (approved@.dom().contains(repo)
                    || not_approved@.dom().contains(repo)) by {
                assert(has_row(r, repo) <==> (a_map.dom().contains(repo) || listed(
                    be@.take(j as int),
                ).dom().contains(repo)));
            }
            assert forall|repo: Seq<char>| #[trigger]
                rows_map(r).dom().contains(repo) implies rows_map(r)[repo].approved == count_of(
                approved@,
                repo,
            ) && rows_map(r)[repo].not_approved == count_of(not_approved@, repo) by {
                let p = row_of(r, repo);
                lemma_rows_map_at(r, p);
            }
        }
        StatsMap { entries: out }
    }
}

} // verus!
