//! A table from keys to commit statistics that keeps its rows in key order.
//!
//! The table stands for a finite map from key to `Activity`. Its rows are
//! kept strictly ordered by key, so that a map has exactly one table, and
//! listing the rows lists the keys in order.

use crate::analyzer::{Activity, DayStats};
use crate::text::{
    lemma_text_lt_connected, lemma_text_lt_irreflexive, lemma_text_lt_transitive, text_before,
    text_lt, text_same,
};
use vstd::prelude::*;

verus! {

/// What keys are ordered by: a day number, then a project name, then an
/// author name.
pub type Rank = (int, Seq<char>, Seq<char>);

/// `a` comes strictly before `b`: by day, then by project, then by author.
pub open spec fn rank_lt(a: Rank, b: Rank) -> bool {
    ||| a.0 < b.0
    ||| a.0 == b.0 && text_lt(a.1, b.1)
    ||| a.0 == b.0 && a.1 == b.1 && text_lt(a.2, b.2)
}

/// No rank comes before itself.
pub proof fn lemma_rank_lt_irreflexive(a: Rank)
    ensures
        !rank_lt(a, a),
{
    lemma_text_lt_irreflexive(a.1);
    lemma_text_lt_irreflexive(a.2);
}

/// The order of ranks is transitive.
pub proof fn lemma_rank_lt_transitive(a: Rank, b: Rank, c: Rank)
    requires
        rank_lt(a, b),
        rank_lt(b, c),
    ensures
        rank_lt(a, c),
{
    lemma_text_lt_irreflexive(a.1);
    lemma_text_lt_irreflexive(b.1);
    if a.0 == b.0 && b.0 == c.0 {
        if text_lt(a.1, b.1) && text_lt(b.1, c.1) {
            lemma_text_lt_transitive(a.1, b.1, c.1);
        } else if a.1 == b.1 && b.1 == c.1 {
            lemma_text_lt_transitive(a.2, b.2, c.2);
        }
    }
}

/// Of two different ranks one comes before the other.
pub proof fn lemma_rank_lt_connected(a: Rank, b: Rank)
    requires
        !rank_lt(a, b),
        !rank_lt(b, a),
    ensures
        a == b,
{
    lemma_text_lt_connected(a.1, b.1);
    lemma_text_lt_connected(a.2, b.2);
}

/// A key of a `Ledger`. Its view is what the key stands for; its rank puts
/// the keys of one type in order.
pub trait RowKey: View + Sized {
    /// The rank of the key that `model` stands for.
    spec fn rank(model: Self::V) -> Rank;

    /// Different keys have different ranks.
    proof fn lemma_rank_injective(a: Self::V, b: Self::V)
        requires
            Self::rank(a) == Self::rank(b),
        ensures
            a == b,
    ;

    /// The day number in the key's rank.
    fn rank_day(&self) -> (d: i32)
        ensures
            d == Self::rank(self@).0,
    ;

    /// The project name in the key's rank.
    fn rank_project(&self) -> (p: &str)
        ensures
            p@ == Self::rank(self@).1,
    ;

    /// The author name in the key's rank.
    fn rank_author(&self) -> (a: &str)
        ensures
            a@ == Self::rank(self@).2,
    ;
}

/// Whether `a` comes strictly before `b`.
pub fn key_before<K: RowKey>(a: &K, b: &K) -> (r: bool)
    ensures
        r == rank_lt(K::rank(a@), K::rank(b@)),
{
    let da = a.rank_day();
    let db = b.rank_day();
    if da != db {
        return da < db;
    }
    if text_before(a.rank_project(), b.rank_project()) {
        return true;
    }
    if !text_same(a.rank_project(), b.rank_project()) {
        return false;
    }
    text_before(a.rank_author(), b.rank_author())
}

/// Whether `a` and `b` stand for the same key.
pub fn key_same<K: RowKey>(a: &K, b: &K) -> (r: bool)
    ensures
        r == (a@ == b@),
{
    let r = a.rank_day() == b.rank_day() && text_same(a.rank_project(), b.rank_project())
        && text_same(a.rank_author(), b.rank_author());
    proof {
        if r {
            assert(K::rank(a@) =~= K::rank(b@));
            K::lemma_rank_injective(a@, b@);
        }
    }
    r
}

/// The rows have strictly increasing keys.
pub open spec fn strictly_ordered<K: RowKey>(rows: Seq<(K::V, Activity)>) -> bool {
    forall|i: int, j: int|
        0 <= i < j < rows.len() ==> rank_lt(K::rank(#[trigger] rows[i].0), K::rank(#[trigger] rows[j].0))
}

/// No key stands in two rows.
pub open spec fn keys_distinct<T>(rows: Seq<(T, Activity)>) -> bool {
    forall|i: int, j: int|
        0 <= i < rows.len() && 0 <= j < rows.len() && i != j ==> (#[trigger] rows[i]).0 != (
        #[trigger] rows[j]).0
}

/// Whether some row has the key `k`.
pub open spec fn has_key<T>(rows: Seq<(T, Activity)>, k: T) -> bool {
    exists|i: int| 0 <= i < rows.len() && (#[trigger] rows[i]).0 == k
}

/// The index of a row with the key `k`.
pub open spec fn row_of<T>(rows: Seq<(T, Activity)>, k: T) -> int {
    choose|i: int| 0 <= i < rows.len() && (#[trigger] rows[i]).0 == k
}

/// The map that the rows stand for: each row's key to that row's activity.
pub open spec fn table_of<T>(rows: Seq<(T, Activity)>) -> Map<T, Activity> {
    Map::new(|k: T| has_key(rows, k), |k: T| rows[row_of(rows, k)].1)
}

/// The activity recorded for `k`, which is none where the map has no entry.
pub open spec fn activity_at<T>(m: Map<T, Activity>, k: T) -> Activity {
    if m.contains_key(k) {
        m[k]
    } else {
        Activity::zero()
    }
}

/// The map `m` after `a` has been added to what it holds for `k`.
pub open spec fn credited<T>(m: Map<T, Activity>, k: T, a: Activity) -> Map<T, Activity> {
    m.insert(k, activity_at(m, k).plus(a))
}

/// The sum of two maps: every key of either, with the sum of what the two
/// hold for it.
pub open spec fn merged<T>(a: Map<T, Activity>, b: Map<T, Activity>) -> Map<T, Activity> {
    Map::new(
        |k: T| a.contains_key(k) || b.contains_key(k),
        |k: T| activity_at(a, k).plus(activity_at(b, k)),
    )
}

/// Whether every entry of the map can be held in a `DayStats`.
pub open spec fn all_fit<T>(m: Map<T, Activity>) -> bool {
    forall|k: T| m.contains_key(k) ==> (#[trigger] m[k]).fits()
}

/// The sum of a sequence of entries: each key with the sum of all that the
/// entries hold for it.
pub open spec fn accumulate<T>(entries: Seq<(T, Activity)>) -> Map<T, Activity>
    decreases entries.len(),
{
    if entries.len() == 0 {
        Map::empty()
    } else {
        credited(accumulate(entries.drop_last()), entries.last().0, entries.last().1)
    }
}

/// The sum of the activities of all rows.
pub open spec fn rows_sum<T>(rows: Seq<(T, Activity)>) -> Activity
    decreases rows.len(),
{
    if rows.len() == 0 {
        Activity::zero()
    } else {
        rows_sum(rows.drop_last()).plus(rows.last().1)
    }
}

/// One more row adds its activity to the sum of the rows before it.
pub proof fn lemma_rows_sum_take<T>(rows: Seq<(T, Activity)>, i: int)
    requires
        0 <= i < rows.len(),
    ensures
        rows_sum(rows.take(i + 1)) == rows_sum(rows.take(i)).plus(rows[i].1),
        rows_sum(rows.take(0)) == Activity::zero(),
        rows_sum(rows.take(rows.len() as int)) == rows_sum(rows),
{
    assert(rows.take(i + 1).drop_last() =~= rows.take(i));
    assert(rows.take(rows.len() as int) =~= rows);
}

/// A row put anywhere among the rows adds its activity to their sum.
proof fn lemma_rows_sum_insert<T>(rows: Seq<(T, Activity)>, p: int, row: (T, Activity))
    requires
        0 <= p <= rows.len(),
    ensures
        rows_sum(rows.insert(p, row)) == rows_sum(rows).plus(row.1),
    decreases rows.len(),
{
    let after = rows.insert(p, row);
    if p == rows.len() {
        assert(after.drop_last() =~= rows);
    } else {
        assert(after.drop_last() =~= rows.drop_last().insert(p, row));
        assert(after.last() == rows.last());
        lemma_rows_sum_insert(rows.drop_last(), p, row);
    }
}

/// A row that is given `more` on top of its activity adds `more` to the sum
/// of the rows.
proof fn lemma_rows_sum_update<T>(rows: Seq<(T, Activity)>, p: int, more: Activity)
    requires
        0 <= p < rows.len(),
    ensures
        rows_sum(rows.update(p, (rows[p].0, rows[p].1.plus(more)))) == rows_sum(rows).plus(more),
    decreases rows.len(),
{
    let after = rows.update(p, (rows[p].0, rows[p].1.plus(more)));
    if p == rows.len() - 1 {
        assert(after.drop_last() =~= rows.drop_last());
    } else {
        let front = rows.drop_last();
        assert(front[p] == rows[p]);
        assert(after.drop_last() =~= front.update(p, (front[p].0, front[p].1.plus(more))));
        assert(after.last() == rows.last());
        lemma_rows_sum_update(front, p, more);
    }
}

/// Merging is commutative: the order of two maps does not matter.
pub proof fn lemma_merged_commutative<T>(a: Map<T, Activity>, b: Map<T, Activity>)
    ensures
        merged(a, b) == merged(b, a),
{
    assert(merged(a, b) =~= merged(b, a));
}

/// Merging is associative: the grouping of three maps does not matter.
pub proof fn lemma_merged_associative<T>(
    a: Map<T, Activity>,
    b: Map<T, Activity>,
    c: Map<T, Activity>,
)
    ensures
        merged(merged(a, b), c) == merged(a, merged(b, c)),
{
    assert(merged(merged(a, b), c) =~= merged(a, merged(b, c)));
}

/// Merging any number of maps one after another gives the same map whichever
/// two of them change places.
pub proof fn lemma_merged_any_order<T>(
    total: Map<T, Activity>,
    a: Map<T, Activity>,
    b: Map<T, Activity>,
)
    ensures
        merged(merged(total, a), b) == merged(merged(total, b), a),
{
    assert(merged(merged(total, a), b) =~= merged(merged(total, b), a));
}

/// Merging with the empty map changes nothing.
pub proof fn lemma_merged_empty<T>(a: Map<T, Activity>)
    ensures
        merged(a, Map::<T, Activity>::empty()) == a,
        merged(Map::<T, Activity>::empty(), a) == a,
{
    assert(merged(a, Map::<T, Activity>::empty()) =~= a);
    assert(merged(Map::<T, Activity>::empty(), a) =~= a);
}

/// Crediting one entry is merging with the map of that entry alone.
pub proof fn lemma_credited_is_merged<T>(m: Map<T, Activity>, k: T, a: Activity)
    ensures
        credited(m, k, a) == merged(m, Map::<T, Activity>::empty().insert(k, a)),
{
    assert(credited(m, k, a) =~= merged(m, Map::<T, Activity>::empty().insert(k, a)));
}

/// Every key of a sum is the key of one of the entries.
pub proof fn lemma_accumulate_keys<T>(entries: Seq<(T, Activity)>, k: T)
    requires
        accumulate(entries).contains_key(k),
    ensures
        has_key(entries, k),
    decreases entries.len(),
{
    if entries.len() > 0 {
        if entries.last().0 == k {
            assert(entries[entries.len() - 1].0 == k);
        } else {
            let front = entries.drop_last();
            lemma_accumulate_keys(front, k);
            let j = row_of(front, k);
            assert(entries[j] == front[j]);
        }
    }
}

/// The sum of more entries holds at least as much as that of fewer, key by
/// key.
pub proof fn lemma_accumulate_grows<T>(entries: Seq<(T, Activity)>, i: int, n: int, k: T)
    requires
        0 <= i <= n <= entries.len(),
    ensures
        activity_at(accumulate(entries.take(i)), k).commits <= activity_at(
            accumulate(entries.take(n)),
            k,
        ).commits,
        activity_at(accumulate(entries.take(i)), k).lines_changed <= activity_at(
            accumulate(entries.take(n)),
            k,
        ).lines_changed,
        accumulate(entries.take(i)).contains_key(k) ==> accumulate(entries.take(n)).contains_key(k),
    decreases n - i,
{
    if i < n {
        lemma_accumulate_grows(entries, i, n - 1, k);
        assert(entries.take(n).drop_last() =~= entries.take(n - 1));
    }
}

/// One more entry credits the sum of those before it.
pub proof fn lemma_accumulate_step<T>(entries: Seq<(T, Activity)>, i: int)
    requires
        0 <= i < entries.len(),
    ensures
        accumulate(entries.take(i + 1)) == credited(
            accumulate(entries.take(i)),
            entries[i].0,
            entries[i].1,
        ),
{
    assert(entries.take(i + 1).drop_last() =~= entries.take(i));
}

/// Where crediting entry `i` takes a count past what a `DayStats` holds, the
/// sum of the first `n` entries does not fit either.
pub proof fn lemma_accumulate_overflow<T>(entries: Seq<(T, Activity)>, i: int, n: int)
    requires
        0 <= i < n <= entries.len(),
        !activity_at(accumulate(entries.take(i)), entries[i].0).plus(entries[i].1).fits(),
    ensures
        !all_fit(accumulate(entries.take(n))),
{
    let k = entries[i].0;
    lemma_accumulate_step(entries, i);
    lemma_accumulate_grows(entries, i + 1, n, k);
    assert(accumulate(entries.take(i + 1)).contains_key(k));
    assert(!accumulate(entries.take(n))[k].fits());
}

/// Strictly ordered rows have distinct keys.
pub proof fn lemma_ordered_distinct<K: RowKey>(rows: Seq<(K::V, Activity)>)
    requires
        strictly_ordered::<K>(rows),
    ensures
        keys_distinct(rows),
{
    assert forall|i: int, j: int|
        0 <= i < rows.len() && 0 <= j < rows.len() && i != j implies (#[trigger] rows[i]).0 != (
    #[trigger] rows[j]).0 by {
        lemma_rank_lt_irreflexive(K::rank(rows[i].0));
        if i < j {
            assert(rank_lt(K::rank(rows[i].0), K::rank(rows[j].0)));
        } else {
            assert(rank_lt(K::rank(rows[j].0), K::rank(rows[i].0)));
        }
    }
}

/// With distinct keys, the map holds for each row's key that row's activity.
pub proof fn lemma_table_row<T>(rows: Seq<(T, Activity)>, i: int)
    requires
        keys_distinct(rows),
        0 <= i < rows.len(),
    ensures
        table_of(rows).contains_key(rows[i].0),
        table_of(rows)[rows[i].0] == rows[i].1,
{
    let k = rows[i].0;
    assert(has_key(rows, k));
    let j = row_of(rows, k);
    assert(rows[j].0 == rows[i].0);
}

/// Putting a row with a new key anywhere among the rows adds that entry to
/// the map.
pub proof fn lemma_table_insert<T>(rows: Seq<(T, Activity)>, p: int, k: T, a: Activity)
    requires
        keys_distinct(rows),
        0 <= p <= rows.len(),
        !has_key(rows, k),
    ensures
        keys_distinct(rows.insert(p, (k, a))),
        table_of(rows.insert(p, (k, a))) == table_of(rows).insert(k, a),
{
    let after = rows.insert(p, (k, a));
    assert forall|i: int, j: int|
        0 <= i < after.len() && 0 <= j < after.len() && i != j implies (#[trigger] after[i]).0 != (
    #[trigger] after[j]).0 by {
        let oi = if i < p { i } else { i - 1 };
        let oj = if j < p { j } else { j - 1 };
        if i != p {
            assert(after[i] == rows[oi]);
        }
        if j != p {
            assert(after[j] == rows[oj]);
        }
    }
    assert forall|q: T| has_key(after, q) <==> (q == k || has_key(rows, q)) by {
        if has_key(after, q) {
            let i = row_of(after, q);
            if i != p {
                let oi = if i < p { i } else { i - 1 };
                assert(after[i] == rows[oi]);
            }
        }
        if q == k {
            assert(after[p].0 == k);
        }
        if has_key(rows, q) {
            let i = row_of(rows, q);
            let ni = if i < p { i } else { i + 1 };
            assert(after[ni] == rows[i]);
        }
    }
    assert forall|q: T| has_key(after, q) implies #[trigger] table_of(after)[q] == table_of(
        rows,
    ).insert(k, a)[q] by {
        if q == k {
            assert(after[p] == (k, a));
            lemma_table_row(after, p);
        } else {
            let i = row_of(rows, q);
            let ni = if i < p { i } else { i + 1 };
            assert(after[ni] == rows[i]);
            lemma_table_row(after, ni);
            lemma_table_row(rows, i);
        }
    }
    assert(table_of(after) =~= table_of(rows).insert(k, a));
}

/// Giving a row another activity changes that entry of the map.
pub proof fn lemma_table_update<T>(rows: Seq<(T, Activity)>, p: int, a: Activity)
    requires
        keys_distinct(rows),
        0 <= p < rows.len(),
    ensures
        keys_distinct(rows.update(p, (rows[p].0, a))),
        table_of(rows.update(p, (rows[p].0, a))) == table_of(rows).insert(rows[p].0, a),
{
    let k = rows[p].0;
    let after = rows.update(p, (k, a));
    assert forall|i: int, j: int|
        0 <= i < after.len() && 0 <= j < after.len() && i != j implies (#[trigger] after[i]).0 != (
    #[trigger] after[j]).0 by {
        assert(after[i].0 == rows[i].0);
        assert(after[j].0 == rows[j].0);
    }
    assert forall|q: T| has_key(after, q) <==> has_key(rows, q) by {
        if has_key(after, q) {
            let i = row_of(after, q);
            assert(rows[i].0 == q);
        }
        if has_key(rows, q) {
            let i = row_of(rows, q);
            assert(after[i].0 == q);
        }
    }
    assert forall|q: T| has_key(after, q) implies #[trigger] table_of(after)[q] == table_of(
        rows,
    ).insert(k, a)[q] by {
        let i = row_of(rows, q);
        assert(after[i].0 == q);
        lemma_table_row(after, i);
        lemma_table_row(rows, i);
    }
    assert(has_key(rows, k)) by {
        assert(rows[p].0 == k);
    }
    assert(table_of(after) =~= table_of(rows).insert(k, a));
}

/// The rows without the last stand for the map without the last row's key.
proof fn lemma_table_drop_last<T>(rows: Seq<(T, Activity)>)
    requires
        keys_distinct(rows),
        rows.len() > 0,
    ensures
        keys_distinct(rows.drop_last()),
        table_of(rows.drop_last()) == table_of(rows).remove(rows.last().0),
{
    let front = rows.drop_last();
    let last = rows.last();
    assert forall|i: int, j: int|
        0 <= i < front.len() && 0 <= j < front.len() && i != j implies (#[trigger] front[i]).0 != (
    #[trigger] front[j]).0 by {
        assert(front[i] == rows[i]);
        assert(front[j] == rows[j]);
    }
    if has_key(front, last.0) {
        let j = row_of(front, last.0);
        assert(front[j] == rows[j]);
        assert(rows[rows.len() - 1] == last);
    }
    assert(front.insert(front.len() as int, last) =~= rows);
    lemma_table_insert(front, front.len() as int, last.0, last.1);
    assert(table_of(front) =~= table_of(rows).remove(last.0));
}

/// A map has one table: strictly ordered rows that stand for the same map
/// are the same rows.
pub proof fn lemma_rows_canonical<K: RowKey>(a: Seq<(K::V, Activity)>, b: Seq<(K::V, Activity)>)
    requires
        strictly_ordered::<K>(a),
        strictly_ordered::<K>(b),
        table_of(a) == table_of(b),
    ensures
        a == b,
    decreases a.len(),
{
    lemma_ordered_distinct::<K>(a);
    lemma_ordered_distinct::<K>(b);
    if a.len() == 0 {
        if b.len() > 0 {
            lemma_table_row(b, 0);
            assert(has_key(a, b[0].0));
        }
        assert(a =~= b);
    } else if b.len() == 0 {
        lemma_table_row(a, 0);
        assert(has_key(b, a[0].0));
    } else {
        let la = a.len() - 1;
        let lb = b.len() - 1;
        let ka = a[la].0;
        let kb = b[lb].0;
        lemma_table_row(a, la);
        lemma_table_row(b, lb);
        assert(has_key(b, ka));
        assert(has_key(a, kb));
        let j = row_of(b, ka);
        let i = row_of(a, kb);
        lemma_rank_lt_irreflexive(K::rank(ka));
        if j < lb && i < la {
            assert(rank_lt(K::rank(b[j].0), K::rank(b[lb].0)));
            assert(rank_lt(K::rank(a[i].0), K::rank(a[la].0)));
            lemma_rank_lt_transitive(K::rank(ka), K::rank(kb), K::rank(ka));
        } else if j < lb {
            assert(rank_lt(K::rank(b[j].0), K::rank(b[lb].0)));
        } else if i < la {
            assert(rank_lt(K::rank(a[i].0), K::rank(a[la].0)));
        }
        assert(ka == kb);
        assert(a[la] == b[lb]);
        lemma_table_drop_last(a);
        lemma_table_drop_last(b);
        let fa = a.drop_last();
        let fb = b.drop_last();
        assert forall|x: int, y: int| 0 <= x < y < fa.len() implies rank_lt(
            K::rank(#[trigger] fa[x].0),
            K::rank(#[trigger] fa[y].0),
        ) by {
            assert(fa[x] == a[x]);
            assert(fa[y] == a[y]);
        }
        assert forall|x: int, y: int| 0 <= x < y < fb.len() implies rank_lt(
            K::rank(#[trigger] fb[x].0),
            K::rank(#[trigger] fb[y].0),
        ) by {
            assert(fb[x] == b[x]);
            assert(fb[y] == b[y]);
        }
        lemma_rows_canonical::<K>(fa, fb);
        assert(a =~= fa.push(a[la]));
        assert(b =~= fb.push(b[lb]));
    }
}

/// One row of a `Ledger`.
struct Row<K> {
    key: K,
    stats: DayStats,
}

/// What a vector of rows stands for: each row's key and activity.
spec fn rows_model<K: RowKey>(rows: Seq<Row<K>>) -> Seq<(K::V, Activity)> {
    Seq::new(rows.len(), |i: int| (rows[i].key@, rows[i].stats@))
}

/// A table from keys to statistics, with its rows in key order.
pub struct Ledger<K: RowKey> {
    rows: Vec<Row<K>>,
}

impl<K: RowKey> View for Ledger<K> {
    type V = Map<K::V, Activity>;

    /// The map that the table stands for.
    open spec fn view(&self) -> Map<K::V, Activity> {
        table_of(self.rows())
    }
}

impl<K: RowKey> Ledger<K> {
    /// The rows of the table: key and activity, in key order.
    pub closed spec fn rows(&self) -> Seq<(K::V, Activity)> {
        rows_model(self.rows@)
    }

    #[verifier::type_invariant]
    spec fn ordered(self) -> bool {
        strictly_ordered::<K>(self.rows())
    }

    /// Every entry of a table can be held in a `DayStats`: it is held in one.
    pub proof fn lemma_all_fit(&self)
        ensures
            all_fit(self@),
    {
        let rows = self.rows();
        assert forall|k: K::V| self@.contains_key(k) implies (#[trigger] self@[k]).fits() by {
            let i = row_of(rows, k);
            assert(rows[i].1 == self.rows@[i].stats@);
        }
    }

    /// A table without rows.
    pub fn new() -> (t: Ledger<K>)
        ensures
            t.rows() == Seq::<(K::V, Activity)>::empty(),
            t@ == Map::<K::V, Activity>::empty(),
    {
        let t = Ledger { rows: Vec::new() };
        assert(t.rows() =~= Seq::<(K::V, Activity)>::empty());
        assert(t@ =~= Map::<K::V, Activity>::empty());
        t
    }

    /// The number of rows, which is the number of keys.
    pub fn len(&self) -> (n: usize)
        ensures
            n == self.rows().len(),
            strictly_ordered::<K>(self.rows()),
    {
        proof {
            use_type_invariant(self);
        }
        self.rows.len()
    }

    /// The key of row `i`.
    pub fn key_at(&self, i: usize) -> (k: &K)
        requires
            i < self.rows().len(),
        ensures
            k@ == self.rows()[i as int].0,
    {
        &self.rows[i].key
    }

    /// The statistics of row `i`.
    pub fn stats_at(&self, i: usize) -> (s: DayStats)
        requires
            i < self.rows().len(),
        ensures
            s@ == self.rows()[i as int].1,
    {
        self.rows[i].stats
    }

    /// The index of the first row whose key does not come before `key`,
    /// found by halving the rows in which it can lie.
    fn position(&self, key: &K) -> (p: usize)
        ensures
            p <= self.rows().len(),
            forall|j: int| 0 <= j < p ==> rank_lt(K::rank(#[trigger] self.rows()[j].0), K::rank(key@)),
            p < self.rows().len() ==> !rank_lt(K::rank(self.rows()[p as int].0), K::rank(key@)),
    {
        proof {
            use_type_invariant(self);
        }
        let mut low: usize = 0;
        let mut high: usize = self.rows.len();
        while low < high
            invariant
                low <= high <= self.rows.len(),
                strictly_ordered::<K>(self.rows()),
                forall|j: int|
                    0 <= j < low ==> rank_lt(K::rank(#[trigger] self.rows()[j].0), K::rank(key@)),
                forall|j: int|
                    high <= j < self.rows().len() ==> !rank_lt(
                        K::rank(#[trigger] self.rows()[j].0),
                        K::rank(key@),
                    ),
            decreases high - low,
        {
            let middle = low + (high - low) / 2;
            let ghost pivot = K::rank(self.rows()[middle as int].0);
            if key_before(&self.rows[middle].key, key) {
                proof {
                    assert forall|j: int| 0 <= j < middle + 1 implies rank_lt(
                        K::rank(#[trigger] self.rows()[j].0),
                        K::rank(key@),
                    ) by {
                        if j < middle {
                            assert(rank_lt(K::rank(self.rows()[j].0), pivot));
                            lemma_rank_lt_transitive(
                                K::rank(self.rows()[j].0),
                                pivot,
                                K::rank(key@),
                            );
                        }
                    }
                }
                low = middle + 1;
            } else {
                proof {
                    assert forall|j: int| middle <= j < self.rows().len() implies !rank_lt(
                        K::rank(#[trigger] self.rows()[j].0),
                        K::rank(key@),
                    ) by {
                        if middle < j && rank_lt(K::rank(self.rows()[j].0), K::rank(key@)) {
                            assert(rank_lt(pivot, K::rank(self.rows()[j].0)));
                            lemma_rank_lt_transitive(
                                pivot,
                                K::rank(self.rows()[j].0),
                                K::rank(key@),
                            );
                        }
                    }
                }
                high = middle;
            }
        }
        low
    }

    /// What the table holds for `key`, if it has such a row.
    pub fn get(&self, key: &K) -> (r: Option<DayStats>)
        ensures
            r is Some <==> self@.contains_key(key@),
            r matches Some(s) ==> s@ == self@[key@],
    {
        proof {
            use_type_invariant(self);
            lemma_ordered_distinct::<K>(self.rows());
        }
        let p = self.position(key);
        if p < self.rows.len() && key_same(&self.rows[p].key, key) {
            proof {
                lemma_table_row(self.rows(), p as int);
            }
            Some(self.rows[p].stats)
        } else {
            proof {
                self.lemma_absent(p as int, key@);
            }
            None
        }
    }

    /// A key that is not at the place where it would stand is in no row.
    proof fn lemma_absent(&self, p: int, k: K::V)
        requires
            strictly_ordered::<K>(self.rows()),
            0 <= p <= self.rows().len(),
            forall|j: int| 0 <= j < p ==> rank_lt(K::rank(#[trigger] self.rows()[j].0), K::rank(k)),
            p < self.rows().len() ==> !rank_lt(K::rank(self.rows()[p].0), K::rank(k)),
            p < self.rows().len() ==> self.rows()[p].0 != k,
        ensures
            !has_key(self.rows(), k),
            p < self.rows().len() ==> rank_lt(K::rank(k), K::rank(self.rows()[p].0)),
    {
        let rows = self.rows();
        if p < rows.len() {
            if !rank_lt(K::rank(k), K::rank(rows[p].0)) {
                lemma_rank_lt_connected(K::rank(k), K::rank(rows[p].0));
                K::lemma_rank_injective(k, rows[p].0);
            }
        }
        if has_key(rows, k) {
            let i = row_of(rows, k);
            lemma_rank_lt_irreflexive(K::rank(k));
            if i < p {
                assert(rank_lt(K::rank(rows[i].0), K::rank(k)));
            } else if i > p {
                assert(rank_lt(K::rank(rows[p].0), K::rank(rows[i].0)));
                lemma_rank_lt_transitive(K::rank(k), K::rank(rows[p].0), K::rank(k));
            }
        }
    }

    /// Adds `stats` to what the table holds for `key`, and says whether it
    /// did: where a sum is more than a `usize` holds, the table stays as it
    /// is.
    pub fn credit(&mut self, key: K, stats: DayStats) -> (ok: bool)
        ensures
            ok <==> activity_at(old(self)@, key@).plus(stats@).fits(),
            ok ==> final(self)@ == credited(old(self)@, key@, stats@),
            ok ==> rows_sum(final(self).rows()) == rows_sum(old(self).rows()).plus(stats@),
            !ok ==> final(self).rows() == old(self).rows(),
    {
        proof {
            use_type_invariant(&*self);
            lemma_ordered_distinct::<K>(self.rows());
        }
        let ghost before = self.rows();
        let p = self.position(&key);
        if p < self.rows.len() && key_same(&self.rows[p].key, &key) {
            proof {
                lemma_table_row(before, p as int);
            }
            match self.rows[p].stats.checked_add(&stats) {
                Some(sum) => {
                    let mut rows: Vec<Row<K>> = Vec::new();
                    std::mem::swap(&mut rows, &mut self.rows);
                    rows.set(p, Row { key, stats: sum });
                    proof {
                        let after = rows_model(rows@);
                        assert(after =~= before.update(p as int, (before[p as int].0, sum@)));
                        lemma_table_update(before, p as int, sum@);
                        lemma_rows_sum_update(before, p as int, stats@);
                        assert forall|i: int, j: int| 0 <= i < j < after.len() implies rank_lt(
                            K::rank(#[trigger] after[i].0),
                            K::rank(#[trigger] after[j].0),
                        ) by {
                            assert(after[i].0 == before[i].0);
                            assert(after[j].0 == before[j].0);
                        }
                    }
                    self.rows = rows;
                    true
                },
                None => false,
            }
        } else {
            proof {
                self.lemma_absent(p as int, key@);
            }
            let mut rows: Vec<Row<K>> = Vec::new();
            std::mem::swap(&mut rows, &mut self.rows);
            let ghost k = key@;
            rows.insert(p, Row { key, stats });
            proof {
                let after = rows_model(rows@);
                assert(after =~= before.insert(p as int, (k, stats@)));
                lemma_table_insert(before, p as int, k, stats@);
                lemma_rows_sum_insert(before, p as int, (k, stats@));
                assert forall|i: int, j: int| 0 <= i < j < after.len() implies rank_lt(
                    K::rank(#[trigger] after[i].0),
                    K::rank(#[trigger] after[j].0),
                ) by {
                    let oi = if i < p { i } else { i - 1 };
                    let oj = if j < p { j } else { j - 1 };
                    if i != p {
                        assert(after[i] == before[oi]);
                    }
                    if j != p {
                        assert(after[j] == before[oj]);
                    }
                    if i == p {
                        assert(rank_lt(K::rank(k), K::rank(before[p as int].0)));
                        if oj > p {
                            assert(rank_lt(K::rank(before[p as int].0), K::rank(before[oj].0)));
                            lemma_rank_lt_transitive(
                                K::rank(k),
                                K::rank(before[p as int].0),
                                K::rank(before[oj].0),
                            );
                        }
                    } else if j == p {
                        assert(rank_lt(K::rank(before[oi].0), K::rank(k)));
                    } else {
                        assert(rank_lt(K::rank(before[oi].0), K::rank(before[oj].0)));
                    }
                }
            }
            self.rows = rows;
            true
        }
    }
}

} // verus!
