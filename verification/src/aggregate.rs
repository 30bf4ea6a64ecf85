//! Statistics across repositories: the author filter, the merge of
//! per-repository results under project names, the totals per day, and the
//! rows of the tabular export.

use crate::analyzer::{Activity, AuthorDay, RepoStats};
use crate::calendar::{iso_text_of_day, Date};
use crate::ledger::{
    accumulate, activity_at, all_fit, has_key, keys_distinct, lemma_accumulate_overflow,
    lemma_accumulate_step, lemma_merged_any_order, lemma_merged_associative,
    lemma_merged_commutative, lemma_merged_empty, lemma_ordered_distinct, lemma_table_insert,
    lemma_rank_lt_transitive, lemma_rows_sum_take, lemma_table_row, merged, rank_lt, rows_sum,
    row_of, strictly_ordered, table_of, Ledger, Rank, RowKey,
};
use crate::text::{
    chars_of, decimal, decimal_text, fields, is_space, is_whitespace, lemma_trimmed_is_subrange,
    text_same, trimmed,
};
use vstd::prelude::*;
use vstd::seq_lib::{to_multiset_contains, to_multiset_len, to_multiset_remove};
use vstd::string::{StrSliceExecFns, StringExecFns};

verus! {

impl RowKey for Date {
    open spec fn rank(model: int) -> Rank {
        (model, Seq::<char>::empty(), Seq::<char>::empty())
    }

    proof fn lemma_rank_injective(a: int, b: int) {
    }

    fn rank_day(&self) -> (d: i32) {
        self.days_from_ce()
    }

    fn rank_project(&self) -> (p: &str) {
        let p = "";
        proof {
            reveal_strlit("");
            assert(p@ =~= Seq::<char>::empty());
        }
        p
    }

    fn rank_author(&self) -> (a: &str) {
        let a = "";
        proof {
            reveal_strlit("");
            assert(a@ =~= Seq::<char>::empty());
        }
        a
    }
}

/// The key of the statistics across repositories: a calendar day, the name
/// of a project, and the display name of an author. Keys are ordered by
/// day, then by project, then by author.
#[derive(Clone, Debug, PartialEq, Eq)]
pub struct AggregationKey {
    pub date: Date,
    pub project: String,
    pub author: String,
}

impl View for AggregationKey {
    type V = (int, Seq<char>, Seq<char>);

    open spec fn view(&self) -> (int, Seq<char>, Seq<char>) {
        (self.date@, self.project@, self.author@)
    }
}

impl RowKey for AggregationKey {
    open spec fn rank(model: (int, Seq<char>, Seq<char>)) -> Rank {
        model
    }

    proof fn lemma_rank_injective(a: (int, Seq<char>, Seq<char>), b: (int, Seq<char>, Seq<char>)) {
    }

    fn rank_day(&self) -> (d: i32) {
        self.date.days_from_ce()
    }

    fn rank_project(&self) -> (p: &str) {
        self.project.as_str()
    }

    fn rank_author(&self) -> (a: &str) {
        self.author.as_str()
    }
}

/// Activity per day, project and author across repositories.
pub type TotalStats = Ledger<AggregationKey>;

/// Activity per day, all projects and authors together.
pub type DayTotals = Ledger<Date>;

/// The texts of `names`.
pub open spec fn names_of(names: Seq<String>) -> Seq<Seq<char>> {
    Seq::new(names.len(), |i: int| names[i]@)
}

/// The trimmed fields among the first `n` of `raw` that are not empty.
pub open spec fn kept_entries(raw: Seq<Seq<char>>, n: int) -> Seq<Seq<char>>
    decreases n,
{
    if n <= 0 {
        Seq::empty()
    } else if trimmed(raw[n - 1]).len() == 0 {
        kept_entries(raw, n - 1)
    } else {
        kept_entries(raw, n - 1).push(trimmed(raw[n - 1]))
    }
}

/// The author names that a filter list gives: its fields between commas,
/// each without the white space around it, and the empty ones left out.
pub open spec fn author_entries(list: Seq<char>) -> Seq<Seq<char>> {
    kept_entries(fields(list), fields(list).len() as int)
}

/// Whether the filter lets the author through: there is no filter, or the
/// name is one of its entries, character for character.
pub open spec fn allowed(filter: Option<Seq<Seq<char>>>, author: Seq<char>) -> bool {
    match filter {
        None => true,
        Some(names) => names.contains(author),
    }
}

/// What a filter stands for: the texts of its names, if there is one.
pub open spec fn filter_of(filter: Option<Vec<String>>) -> Option<Seq<Seq<char>>> {
    match filter {
        None => None,
        Some(names) => Some(names_of(names@)),
    }
}

/// The author names that the comma-separated `list` gives.
pub fn parse_author_filter(list: &str) -> (names: Vec<String>)
    ensures
        names_of(names@) == author_entries(list@),
{
    let cs = chars_of(list);
    let n = cs.len();
    let mut names: Vec<String> = Vec::new();
    let mut start: usize = 0;
    let mut i: usize = 0;
    let ghost mut done: Seq<Seq<char>> = Seq::empty();
    proof {
        assert(cs@.take(0) =~= Seq::<char>::empty());
        assert(cs@.subrange(0, 0) =~= Seq::<char>::empty());
        assert(fields(cs@.take(0)) =~= done.push(cs@.subrange(0, 0)));
        assert(names_of(names@) =~= kept_entries(done, 0));
    }
    while i < n
        invariant
            n == cs.len(),
            cs@ == list@,
            start <= i <= n,
            fields(cs@.take(i as int)) == done.push(cs@.subrange(start as int, i as int)),
            names_of(names@) == kept_entries(done, done.len() as int),
        decreases n - i,
    {
        proof {
            assert(cs@.take(i + 1).drop_last() =~= cs@.take(i as int));
            assert(cs@.take(i + 1).last() == cs@[i as int]);
        }
        if cs[i] == ',' {
            let ghost field = cs@.subrange(start as int, i as int);
            push_entry(list, &cs, start, i, &mut names);
            proof {
                let next = done.push(field);
                assert(kept_entries(next, next.len() - 1) == kept_entries(done, done.len() as int))
                    by {
                    lemma_kept_entries_prefix(done, next, done.len() as int);
                }
                done = next;
                assert(cs@.subrange(i + 1, i + 1) =~= Seq::<char>::empty());
            }
            start = i + 1;
        } else {
            proof {
                let front = fields(cs@.take(i as int));
                assert(front.drop_last() =~= done);
                assert(cs@.subrange(start as int, i + 1) =~= cs@.subrange(
                    start as int,
                    i as int,
                ).push(cs@[i as int]));
            }
        }
        i += 1;
    }
    let ghost field = cs@.subrange(start as int, n as int);
    push_entry(list, &cs, start, n, &mut names);
    proof {
        let all = done.push(field);
        lemma_kept_entries_prefix(done, all, done.len() as int);
        assert(cs@.take(n as int) =~= cs@);
    }
    names
}

/// Fields that agree on their first `n` keep the same entries among them.
proof fn lemma_kept_entries_prefix(a: Seq<Seq<char>>, b: Seq<Seq<char>>, n: int)
    requires
        0 <= n <= a.len(),
        n <= b.len(),
        forall|i: int| 0 <= i < n ==> a[i] == b[i],
    ensures
        kept_entries(a, n) == kept_entries(b, n),
    decreases n,
{
    if n > 0 {
        lemma_kept_entries_prefix(a, b, n - 1);
    }
}

/// Adds to `names` the field of `list` from `from` to `to`, trimmed, unless
/// nothing is left of it.
fn push_entry(list: &str, cs: &Vec<char>, from: usize, to: usize, names: &mut Vec<String>)
    requires
        cs@ == list@,
        from <= to <= cs.len(),
    ensures
        names_of(final(names)@) == ({
            let field = cs@.subrange(from as int, to as int);
            if trimmed(field).len() == 0 {
                names_of(old(names)@)
            } else {
                names_of(old(names)@).push(trimmed(field))
            }
        }),
{
    let ghost field = cs@.subrange(from as int, to as int);
    let mut a = from;
    while a < to && is_whitespace(cs[a])
        invariant
            from <= a <= to <= cs.len(),
            forall|j: int| from <= j < a ==> is_space(#[trigger] cs@[j]),
        decreases to - a,
    {
        a += 1;
    }
    let mut b = to;
    while b > a && is_whitespace(cs[b - 1])
        invariant
            a <= b <= to <= cs.len(),
            forall|j: int| b <= j < to ==> is_space(#[trigger] cs@[j]),
        decreases b - a,
    {
        b -= 1;
    }
    proof {
        assert forall|j: int| 0 <= j < a - from implies is_space(#[trigger] field[j]) by {
            assert(field[j] == cs@[from + j]);
        }
        assert forall|j: int| b - from <= j < field.len() implies is_space(#[trigger] field[j]) by {
            assert(field[j] == cs@[from + j]);
        }
        lemma_trimmed_is_subrange(field, a - from, b - from);
        assert(field.subrange(a - from, b - from) =~= cs@.subrange(a as int, b as int));
    }
    if a < b {
        let ghost before = names_of(names@);
        let name = String::from_str(list.substring_char(a, b));
        names.push(name);
        assert(names_of(names@) =~= before.push(trimmed(field)));
    }
}

/// Whether the filter lets `author` through.
pub fn is_allowed(filter: &Option<Vec<String>>, author: &str) -> (b: bool)
    ensures
        b == allowed(filter_of(*filter), author@),
{
    match filter {
        None => true,
        Some(names) => {
            let mut i: usize = 0;
            while i < names.len()
                invariant
                    i <= names.len(),
                    *filter == Some(*names),
                    forall|j: int| 0 <= j < i ==> names@[j]@ != author@,
                decreases names.len() - i,
            {
                if text_same(names[i].as_str(), author) {
                    proof {
                        let texts = names_of(names@);
                        assert(texts[i as int] == author@);
                        assert(texts.contains(author@));
                    }
                    return true;
                }
                i += 1;
            }
            proof {
                let texts = names_of(names@);
                if texts.contains(author@) {
                    let j = choose|j: int| 0 <= j < texts.len() && texts[j] == author@;
                    assert(names@[j]@ == author@);
                }
            }
            false
        },
    }
}

/// A repository's statistics as they enter the totals: each entry whose
/// author the filter lets through, under the repository's project name.
pub open spec fn lifted(
    repo: Map<(int, Seq<char>), Activity>,
    project: Seq<char>,
    filter: Option<Seq<Seq<char>>>,
) -> Map<(int, Seq<char>, Seq<char>), Activity> {
    Map::new(
        |k: (int, Seq<char>, Seq<char>)|
            k.1 == project && repo.contains_key((k.0, k.2)) && allowed(filter, k.2),
        |k: (int, Seq<char>, Seq<char>)| repo[(k.0, k.2)],
    )
}

/// The totals after a repository's statistics have been merged into them.
pub open spec fn aggregated(
    total: Map<(int, Seq<char>, Seq<char>), Activity>,
    repo: Map<(int, Seq<char>), Activity>,
    project: Seq<char>,
    filter: Option<Seq<Seq<char>>>,
) -> Map<(int, Seq<char>, Seq<char>), Activity> {
    merged(total, lifted(repo, project, filter))
}

/// The totals do not depend on the order in which two repositories are
/// merged into them.
pub proof fn lemma_aggregated_any_order(
    total: Map<(int, Seq<char>, Seq<char>), Activity>,
    first: Map<(int, Seq<char>), Activity>,
    first_project: Seq<char>,
    second: Map<(int, Seq<char>), Activity>,
    second_project: Seq<char>,
    filter: Option<Seq<Seq<char>>>,
)
    ensures
        aggregated(
            aggregated(total, first, first_project, filter),
            second,
            second_project,
            filter,
        ) == aggregated(
            aggregated(total, second, second_project, filter),
            first,
            first_project,
            filter,
        ),
{
    lemma_merged_any_order(
        total,
        lifted(first, first_project, filter),
        lifted(second, second_project, filter),
    );
}

/// The result of one repository: the name of its project and its
/// statistics.
pub type RepoResult = (Seq<char>, Map<(int, Seq<char>), Activity>);

/// The totals after the results of all `repos` have been merged into them,
/// one after another.
pub open spec fn aggregated_all(
    total: Map<(int, Seq<char>, Seq<char>), Activity>,
    repos: Seq<RepoResult>,
    filter: Option<Seq<Seq<char>>>,
) -> Map<(int, Seq<char>, Seq<char>), Activity>
    decreases repos.len(),
{
    if repos.len() == 0 {
        total
    } else {
        aggregated(
            aggregated_all(total, repos.drop_last(), filter),
            repos.last().1,
            repos.last().0,
            filter,
        )
    }
}

/// What the results of `repos` hold for the key `k` between them: the sum,
/// over the repositories of the key's project, of what each holds for the
/// key's day and author, where the filter lets the author through.
pub open spec fn contributed(
    repos: Seq<RepoResult>,
    filter: Option<Seq<Seq<char>>>,
    k: (int, Seq<char>, Seq<char>),
) -> Activity
    decreases repos.len(),
{
    if repos.len() == 0 {
        Activity::zero()
    } else {
        contributed(repos.drop_last(), filter, k).plus(
            activity_at(lifted(repos.last().1, repos.last().0, filter), k),
        )
    }
}

/// After all results have been merged, the totals hold for every key what
/// they held before and what the results hold for it between them; and they
/// have an entry for a key exactly where they had one before or one of the
/// results, under its project name and past the filter, has one.
pub proof fn lemma_aggregated_all_entry(
    total: Map<(int, Seq<char>, Seq<char>), Activity>,
    repos: Seq<RepoResult>,
    filter: Option<Seq<Seq<char>>>,
    k: (int, Seq<char>, Seq<char>),
)
    ensures
        activity_at(aggregated_all(total, repos, filter), k) == activity_at(total, k).plus(
            contributed(repos, filter, k),
        ),
        aggregated_all(total, repos, filter).contains_key(k) <==> total.contains_key(k) || exists|
            i: int,
        |
            0 <= i < repos.len() && #[trigger] repos[i].0 == k.1 && repos[i].1.contains_key(
                (k.0, k.2),
            ) && allowed(filter, k.2),
    decreases repos.len(),
{
    if repos.len() > 0 {
        let front = repos.drop_last();
        let last = repos.last();
        lemma_aggregated_all_entry(total, front, filter, k);
        let here = lifted(last.1, last.0, filter).contains_key(k);
        let before = exists|i: int|
            0 <= i < front.len() && #[trigger] front[i].0 == k.1 && front[i].1.contains_key(
                (k.0, k.2),
            ) && allowed(filter, k.2);
        let now = exists|i: int|
            0 <= i < repos.len() && #[trigger] repos[i].0 == k.1 && repos[i].1.contains_key(
                (k.0, k.2),
            ) && allowed(filter, k.2);
        if before {
            let i = choose|i: int|
                0 <= i < front.len() && #[trigger] front[i].0 == k.1 && front[i].1.contains_key(
                    (k.0, k.2),
                ) && allowed(filter, k.2);
            assert(repos[i] == front[i]);
            assert(repos[i].0 == k.1);
        }
        if here {
            assert(repos[repos.len() - 1].0 == k.1);
        }
        if now {
            let i = choose|i: int|
                0 <= i < repos.len() && #[trigger] repos[i].0 == k.1 && repos[i].1.contains_key(
                    (k.0, k.2),
                ) && allowed(filter, k.2);
            if i < front.len() {
                assert(front[i] == repos[i]);
                assert(front[i].0 == k.1);
            }
        }
        assert(now <==> before || here);
    }
}

/// Merging two lists of results one after the other gives the sum of what
/// each list gives by itself: results can be merged in groups, and the
/// groups in either order. Merging no result leaves the totals as they are.
pub proof fn lemma_aggregated_all_joined(
    total: Map<(int, Seq<char>, Seq<char>), Activity>,
    first: Seq<RepoResult>,
    second: Seq<RepoResult>,
    filter: Option<Seq<Seq<char>>>,
)
    ensures
        aggregated_all(total, Seq::<RepoResult>::empty(), filter) == total,
        aggregated_all(total, first + second, filter) == merged(
            aggregated_all(total, first, filter),
            aggregated_all(Map::empty(), second, filter),
        ),
        aggregated_all(Map::empty(), first + second, filter) == merged(
            aggregated_all(Map::empty(), second, filter),
            aggregated_all(Map::empty(), first, filter),
        ),
    decreases second.len(),
{
    let nothing = Map::<(int, Seq<char>, Seq<char>), Activity>::empty();
    if second.len() == 0 {
        assert(first + second =~= first);
        lemma_merged_empty(aggregated_all(total, first, filter));
        lemma_merged_empty(aggregated_all(nothing, first, filter));
    } else {
        let front = second.drop_last();
        let last = lifted(second.last().1, second.last().0, filter);
        assert((first + second).drop_last() =~= first + front);
        assert((first + second).last() == second.last());
        lemma_aggregated_all_joined(total, first, front, filter);
        lemma_merged_associative(
            aggregated_all(total, first, filter),
            aggregated_all(nothing, front, filter),
            last,
        );
        lemma_aggregated_all_joined(nothing, first, front, filter);
        lemma_merged_associative(
            aggregated_all(nothing, first, filter),
            aggregated_all(nothing, front, filter),
            last,
        );
        lemma_merged_commutative(
            aggregated_all(nothing, first, filter),
            aggregated_all(nothing, second, filter),
        );
    }
}

/// Merging the result at place `j` last instead of in its turn gives the
/// same totals.
proof fn lemma_aggregated_all_moved(
    total: Map<(int, Seq<char>, Seq<char>), Activity>,
    repos: Seq<RepoResult>,
    j: int,
    filter: Option<Seq<Seq<char>>>,
)
    requires
        0 <= j < repos.len(),
    ensures
        aggregated_all(total, repos, filter) == aggregated(
            aggregated_all(total, repos.remove(j), filter),
            repos[j].1,
            repos[j].0,
            filter,
        ),
    decreases repos.len(),
{
    if j == repos.len() - 1 {
        assert(repos.remove(j) =~= repos.drop_last());
    } else {
        let front = repos.drop_last();
        let last = repos.last();
        lemma_aggregated_all_moved(total, front, j, filter);
        assert(front[j] == repos[j]);
        assert(repos.remove(j).drop_last() =~= front.remove(j));
        assert(repos.remove(j).last() == last);
        lemma_aggregated_any_order(
            aggregated_all(total, front.remove(j), filter),
            repos[j].1,
            repos[j].0,
            last.1,
            last.0,
            filter,
        );
    }
}

/// The totals do not depend on the order in which the results are merged:
/// two lists that hold the same results, each as often as the other, give
/// the same totals.
pub proof fn lemma_aggregated_all_any_order(
    total: Map<(int, Seq<char>, Seq<char>), Activity>,
    repos: Seq<RepoResult>,
    reordered: Seq<RepoResult>,
    filter: Option<Seq<Seq<char>>>,
)
    requires
        repos.to_multiset() == reordered.to_multiset(),
    ensures
        aggregated_all(total, repos, filter) == aggregated_all(total, reordered, filter),
    decreases repos.len(),
{
    to_multiset_len(repos);
    to_multiset_len(reordered);
    if repos.len() > 0 {
        let last = repos.last();
        let front = repos.drop_last();
        assert(repos.contains(last)) by {
            assert(repos[repos.len() - 1] == last);
        }
        to_multiset_contains(repos, last);
        to_multiset_contains(reordered, last);
        let j = reordered.index_of(last);
        assert(repos.remove(repos.len() - 1) =~= front);
        to_multiset_remove(repos, repos.len() - 1);
        to_multiset_remove(reordered, j);
        lemma_aggregated_all_any_order(total, front, reordered.remove(j), filter);
        lemma_aggregated_all_moved(total, reordered, j, filter);
    }
}

/// No entry of an author whom the filter does not let through enters the
/// totals, and every other entry of the repository does.
pub proof fn lemma_lifted_filters(
    repo: Map<(int, Seq<char>), Activity>,
    project: Seq<char>,
    filter: Option<Seq<Seq<char>>>,
    day: int,
    author: Seq<char>,
)
    ensures
        lifted(repo, project, filter).contains_key((day, project, author)) <==> repo.contains_key(
            (day, author),
        ) && allowed(filter, author),
        (filter matches Some(names) && !names.contains(author)) ==> !lifted(
            repo,
            project,
            filter,
        ).contains_key((day, project, author)),
{
}

/// The sum of the activities of those among the first `n` rows whose author
/// the filter lets through.
pub open spec fn kept_sum(
    rows: Seq<((int, Seq<char>), Activity)>,
    filter: Option<Seq<Seq<char>>>,
    n: int,
) -> Activity
    decreases n,
{
    if n <= 0 {
        Activity::zero()
    } else if allowed(filter, rows[n - 1].0.1) {
        kept_sum(rows, filter, n - 1).plus(rows[n - 1].1)
    } else {
        kept_sum(rows, filter, n - 1)
    }
}

/// One more row adds its entry to the map of the rows before it, which has
/// no entry for its key.
proof fn lemma_table_take<T>(rows: Seq<(T, Activity)>, i: int)
    requires
        keys_distinct(rows),
        0 <= i < rows.len(),
    ensures
        keys_distinct(rows.take(i)),
        !table_of(rows.take(i)).contains_key(rows[i].0),
        table_of(rows.take(i + 1)) == table_of(rows.take(i)).insert(rows[i].0, rows[i].1),
{
    let front = rows.take(i);
    assert forall|a: int, b: int|
        0 <= a < front.len() && 0 <= b < front.len() && a != b implies (#[trigger] front[a]).0 != (
    #[trigger] front[b]).0 by {
        assert(front[a] == rows[a]);
        assert(front[b] == rows[b]);
    }
    if has_key(front, rows[i].0) {
        let j = row_of(front, rows[i].0);
        assert(front[j] == rows[j]);
    }
    assert(front.insert(i, rows[i]) =~= rows.take(i + 1));
    lemma_table_insert(front, i, rows[i].0, rows[i].1);
}

/// Merges the statistics of the repository named `project` into `total`:
/// each entry whose author the filter lets through is added to what the
/// totals hold for its day, the project and its author. `None` only where a
/// sum is more than a `usize` holds.
pub fn aggregate(
    total: TotalStats,
    project: &str,
    repo: &RepoStats,
    filter: &Option<Vec<String>>,
) -> (r: Option<TotalStats>)
    ensures
        r is Some <==> all_fit(aggregated(total@, repo@, project@, filter_of(*filter))),
        r matches Some(t) ==> t@ == aggregated(total@, repo@, project@, filter_of(*filter)),
        r matches Some(t) ==> rows_sum(t.rows()) == rows_sum(total.rows()).plus(
            kept_sum(repo.rows(), filter_of(*filter), repo.rows().len() as int),
        ),
{
    let ghost before = total@;
    let ghost held = rows_sum(total.rows());
    let ghost rows = repo.rows();
    let ghost names = filter_of(*filter);
    let mut sums = total;
    let n = repo.len();
    proof {
        lemma_ordered_distinct::<AuthorDay>(rows);
        assert(sums@ =~= merged(before, lifted(table_of(rows.take(0)), project@, names)));
    }
    let mut i: usize = 0;
    while i < n
        invariant
            i <= n,
            n == rows.len(),
            rows == repo.rows(),
            names == filter_of(*filter),
            before == total@,
            held == rows_sum(total.rows()),
            keys_distinct(rows),
            sums@ == merged(before, lifted(table_of(rows.take(i as int)), project@, names)),
            rows_sum(sums.rows()) == held.plus(kept_sum(rows, names, i as int)),
        decreases n - i,
    {
        let key = repo.key_at(i);
        let stats = repo.stats_at(i);
        let ghost seen = table_of(rows.take(i as int));
        let ghost next = table_of(rows.take(i + 1));
        proof {
            lemma_table_take(rows, i as int);
        }
        if is_allowed(filter, key.author.as_str()) {
            let wide = AggregationKey {
                date: key.date,
                project: String::from_str(project),
                author: key.author.clone(),
            };
            let ghost k = wide@;
            let ghost so_far = sums@;
            if !sums.credit(wide, stats) {
                proof {
                    let all = aggregated(before, repo@, project@, names);
                    lemma_table_row(rows, i as int);
                    assert(rows[i as int].0 == (k.0, k.2));
                    assert(lifted(repo@, project@, names).contains_key(k));
                    assert(all.contains_key(k));
                    assert(!lifted(seen, project@, names).contains_key(k));
                    assert(activity_at(so_far, k).commits == activity_at(before, k).commits);
                    assert(activity_at(so_far, k).lines_changed == activity_at(
                        before,
                        k,
                    ).lines_changed);
                    assert(all[k] == activity_at(before, k).plus(stats@));
                    assert(!all[k].fits());
                }
                return None;
            }
            proof {
                assert(sums@ =~= merged(before, lifted(next, project@, names)));
            }
        } else {
            proof {
                assert(lifted(next, project@, names) =~= lifted(seen, project@, names));
            }
        }
        i += 1;
    }
    proof {
        assert(rows.take(n as int) =~= rows);
        sums.lemma_all_fit();
    }
    Some(sums)
}

/// The rows as entries per day: each row's day with its activity.
pub open spec fn day_entries(rows: Seq<((int, Seq<char>, Seq<char>), Activity)>) -> Seq<
    (int, Activity),
> {
    Seq::new(rows.len(), |i: int| (rows[i].0.0, rows[i].1))
}

/// The activity of each day, all projects and authors together.
pub open spec fn per_day(rows: Seq<((int, Seq<char>, Seq<char>), Activity)>) -> Map<
    int,
    Activity,
> {
    accumulate(day_entries(rows))
}

/// The totals per day: for each day the sum of what the statistics hold for
/// it under any project and author. `None` only where a sum is more than a
/// `usize` holds.
pub fn daily_totals(total: &TotalStats) -> (r: Option<DayTotals>)
    ensures
        r is Some <==> all_fit(per_day(total.rows())),
        r matches Some(days) ==> days@ == per_day(total.rows()),
        r matches Some(days) ==> rows_sum(days.rows()) == rows_sum(total.rows()),
{
    let ghost entries = day_entries(total.rows());
    let mut days: DayTotals = Ledger::new();
    let n = total.len();
    let mut i: usize = 0;
    proof {
        assert(entries.take(0) =~= Seq::<(int, Activity)>::empty());
    }
    while i < n
        invariant
            i <= n,
            n == entries.len(),
            entries == day_entries(total.rows()),
            days@ == accumulate(entries.take(i as int)),
            rows_sum(days.rows()) == rows_sum(total.rows().take(i as int)),
        decreases n - i,
    {
        let day = total.key_at(i).date;
        let stats = total.stats_at(i);
        if !days.credit(day, stats) {
            proof {
                assert(entries.take(n as int) =~= entries);
                lemma_accumulate_overflow(entries, i as int, n as int);
            }
            return None;
        }
        proof {
            lemma_accumulate_step(entries, i as int);
            lemma_rows_sum_take(total.rows(), i as int);
        }
        i += 1;
    }
    proof {
        assert(entries.take(n as int) =~= entries);
        assert(total.rows().take(n as int) =~= total.rows());
        days.lemma_all_fit();
    }
    Some(days)
}

/// Whether there is anything to report of an activity.
pub open spec fn is_active(row: ((int, Seq<char>, Seq<char>), Activity)) -> bool {
    row.1.commits > 0 || row.1.lines_changed > 0
}

/// One line of the tabular export.
#[derive(Clone, Debug, PartialEq, Eq)]
pub struct ExportRow {
    pub date: Date,
    pub project: String,
    pub commits: usize,
    pub lines_changed: usize,
    pub author: String,
}

impl View for ExportRow {
    type V = ((int, Seq<char>, Seq<char>), Activity);

    open spec fn view(&self) -> ((int, Seq<char>, Seq<char>), Activity) {
        (
            (self.date@, self.project@, self.author@),
            Activity { commits: self.commits as nat, lines_changed: self.lines_changed as nat },
        )
    }
}

/// What a vector of export rows stands for.
pub open spec fn export_model(rows: Seq<ExportRow>) -> Seq<
    ((int, Seq<char>, Seq<char>), Activity),
> {
    Seq::new(rows.len(), |i: int| rows[i]@)
}

/// The rows to export: those of the statistics that report any activity, in
/// the order of their keys, which is by day, then project, then author.
pub fn export_rows(total: &TotalStats) -> (out: Vec<ExportRow>)
    ensures
        export_model(out@) == total.rows().filter(
            |row: ((int, Seq<char>, Seq<char>), Activity)| is_active(row),
        ),
        strictly_ordered::<AggregationKey>(export_model(out@)),
{
    let ghost rows = total.rows();
    let ghost active = |row: ((int, Seq<char>, Seq<char>), Activity)| is_active(row);
    let mut out: Vec<ExportRow> = Vec::new();
    let n = total.len();
    let mut i: usize = 0;
    let ghost mut newest: int = -1;
    proof {
        reveal(Seq::filter);
        assert(rows.take(0) =~= Seq::<((int, Seq<char>, Seq<char>), Activity)>::empty());
        assert(export_model(out@) =~= rows.take(0).filter(active));
    }
    while i < n
        invariant
            i <= n,
            n == rows.len(),
            rows == total.rows(),
            strictly_ordered::<AggregationKey>(rows),
            active == (|row: ((int, Seq<char>, Seq<char>), Activity)| is_active(row)),
            export_model(out@) == rows.take(i as int).filter(active),
            strictly_ordered::<AggregationKey>(export_model(out@)),
            -1 <= newest < i,
            out.len() > 0 ==> newest >= 0 && export_model(out@).last() == rows[newest],
        decreases n - i,
    {
        let key = total.key_at(i);
        let stats = total.stats_at(i);
        let ghost kept = export_model(out@);
        proof {
            reveal(Seq::filter);
            assert(rows.take(i + 1).drop_last() =~= rows.take(i as int));
            assert(rows.take(i + 1).last() == rows[i as int]);
        }
        if stats.commits > 0 || stats.lines_changed > 0 {
            out.push(
                ExportRow {
                    date: key.date,
                    project: key.project.clone(),
                    commits: stats.commits,
                    lines_changed: stats.lines_changed,
                    author: key.author.clone(),
                },
            );
            proof {
                let listed = export_model(out@);
                assert(listed =~= kept.push(rows[i as int]));
                assert forall|a: int, b: int| 0 <= a < b < listed.len() implies rank_lt(
                    #[trigger] listed[a].0,
                    #[trigger] listed[b].0,
                ) by {
                    if b == listed.len() - 1 {
                        assert(rank_lt(rows[newest].0, rows[i as int].0));
                        if a < kept.len() - 1 {
                            assert(rank_lt(kept[a].0, kept[kept.len() - 1].0));
                            lemma_rank_lt_transitive(kept[a].0, rows[newest].0, rows[i as int].0);
                        }
                    } else {
                        assert(rank_lt(kept[a].0, kept[b].0));
                    }
                }
                newest = i as int;
            }
        } else {
            proof {
                assert(export_model(out@) =~= kept);
            }
        }
        i += 1;
    }
    proof {
        assert(rows.take(n as int) =~= rows);
    }
    out
}

/// The heading of the tabular export.
pub open spec fn tsv_heading() -> Seq<char> {
    "Date\tProject\tCommits\tLines\tAuthor\n"@
}

/// One row of the tabular export as a line of text: day, project, commits,
/// lines and author, with a tab between them.
pub open spec fn tsv_line_of(row: ((int, Seq<char>, Seq<char>), Activity)) -> Seq<char> {
    iso_text_of_day(row.0.0) + "\t"@ + row.0.1 + "\t"@ + decimal(row.1.commits) + "\t"@ + decimal(
        row.1.lines_changed,
    ) + "\t"@ + row.0.2 + "\n"@
}

/// The lines of the first `n` rows, one after another.
pub open spec fn tsv_lines_of(rows: Seq<((int, Seq<char>, Seq<char>), Activity)>, n: int) -> Seq<
    char,
>
    decreases n,
{
    if n <= 0 {
        Seq::empty()
    } else {
        tsv_lines_of(rows, n - 1) + tsv_line_of(rows[n - 1])
    }
}

/// One row of the tabular export as a line of text.
pub fn tsv_line(row: &ExportRow) -> (line: String)
    ensures
        line@ == tsv_line_of(row@),
{
    let mut line = row.date.iso_text();
    line.append("\t");
    line.append(row.project.as_str());
    line.append("\t");
    line.append(decimal_text(row.commits as u128).as_str());
    line.append("\t");
    line.append(decimal_text(row.lines_changed as u128).as_str());
    line.append("\t");
    line.append(row.author.as_str());
    line.append("\n");
    line
}

/// The tabular export: the heading and then one line for each row.
pub fn tsv_document(rows: &Vec<ExportRow>) -> (text: String)
    ensures
        text@ == tsv_heading() + tsv_lines_of(export_model(rows@), rows.len() as int),
{
    let mut text = String::from_str("Date\tProject\tCommits\tLines\tAuthor\n");
    let mut i: usize = 0;
    proof {
        assert(text@ =~= tsv_heading() + tsv_lines_of(export_model(rows@), 0));
    }
    while i < rows.len()
        invariant
            i <= rows.len(),
            text@ == tsv_heading() + tsv_lines_of(export_model(rows@), i as int),
        decreases rows.len() - i,
    {
        let line = tsv_line(&rows[i]);
        let ghost before = text@;
        text.append(line.as_str());
        proof {
            assert(text@ =~= tsv_heading() + tsv_lines_of(export_model(rows@), i + 1));
        }
        i += 1;
    }
    text
}

} // verus!
