//! Pooling of several tables: per-metric value pools, their empirical
//! distributions, and the per-metric series of one table over time.
use vstd::prelude::*;
use crate::stats::{cdf, is_cdf_of};
use crate::table::{rows_view, Stats};
use crate::text::views;

verus! {

/// The rows of a table, as sequences of values.
pub open spec fn rows_of(t: Stats) -> Seq<Seq<usize>> {
    rows_view(t.values@)
}

/// Column `idx` of `rows`.
pub open spec fn column(rows: Seq<Seq<usize>>, idx: int) -> Seq<usize> {
    rows.map_values(|r: Seq<usize>| r[idx])
}

/// Every row of every table has more than `idx` values.
pub open spec fn rows_reach(tables: Seq<Stats>, idx: int) -> bool {
    forall|t: int, r: int|
        0 <= t < tables.len() && 0 <= r < rows_of(tables[t]).len() ==> idx < #[trigger] rows_of(
            tables[t],
        )[r].len()
}

/// Column `idx` of every table, one table after the other.
pub open spec fn pooled(tables: Seq<Stats>, idx: int) -> Seq<usize>
    decreases tables.len(),
{
    if tables.len() == 0 {
        Seq::empty()
    } else {
        pooled(tables.drop_last(), idx) + column(rows_of(tables.last()), idx)
    }
}

/// The number of rows of all tables together.
pub open spec fn total_rows(tables: Seq<Stats>) -> nat
    decreases tables.len(),
{
    if tables.len() == 0 {
        0
    } else {
        total_rows(tables.drop_last()) + tables.last().values@.len()
    }
}

/// Pooling a column of `N` tables gives one value for each row of each
/// table: a multiset as large as all their rows together.
pub proof fn lemma_pool_size(tables: Seq<Stats>, idx: int)
    ensures
        pooled(tables, idx).to_multiset().len() == total_rows(tables),
    decreases tables.len(),
{
    broadcast use vstd::seq_lib::group_to_multiset_ensures;

    if tables.len() > 0 {
        lemma_pool_size(tables.drop_last(), idx);
    }
}

/// The values of column `idx` across all tables, in order.
pub fn pool_column(stats: &[Stats], idx: usize) -> (r: Vec<usize>)
    requires
        rows_reach(stats@, idx as int),
    ensures
        r@ == pooled(stats@, idx as int),
{
    let mut r: Vec<usize> = Vec::new();
    let mut t: usize = 0;
    while t < stats.len()
        invariant
            t <= stats@.len(),
            rows_reach(stats@, idx as int),
            r@ == pooled(stats@.subrange(0, t as int), idx as int),
        decreases stats@.len() - t,
    {
        let rows = &stats[t].values;
        let ghost base = r@;
        let ghost col = column(rows_of(stats@[t as int]), idx as int);
        let mut i: usize = 0;
        while i < rows.len()
            invariant
                t < stats@.len(),
                rows == stats@[t as int].values,
                rows_reach(stats@, idx as int),
                i <= rows@.len(),
                col == column(rows_of(stats@[t as int]), idx as int),
                r@ =~= base + col.subrange(0, i as int),
            decreases rows@.len() - i,
        {
            assert(rows_of(stats@[t as int])[i as int] == rows@[i as int]@);
            assert(idx < rows_of(stats@[t as int])[i as int].len());
            r.push(rows[i][idx]);
            i = i + 1;
        }
        proof {
            let s = stats@.subrange(0, t + 1);
            assert(s.drop_last() =~= stats@.subrange(0, t as int));
            assert(col.subrange(0, i as int) =~= col);
        }
        t = t + 1;
    }
    assert(stats@.subrange(0, t as int) =~= stats@);
    r
}

/// Whether every row of every table has more than `idx` values.
pub fn rows_reach_all(stats: &[Stats], idx: usize) -> (r: bool)
    ensures
        r == rows_reach(stats@, idx as int),
{
    let mut t: usize = 0;
    while t < stats.len()
        invariant
            t <= stats@.len(),
            forall|a: int, b: int|
                0 <= a < t && 0 <= b < rows_of(stats@[a]).len() ==> idx < #[trigger] rows_of(
                    stats@[a],
                )[b].len(),
        decreases stats@.len() - t,
    {
        let rows = &stats[t].values;
        let mut i: usize = 0;
        while i < rows.len()
            invariant
                t < stats@.len(),
                rows == stats@[t as int].values,
                i <= rows@.len(),
                forall|a: int, b: int|
                    0 <= a < t && 0 <= b < rows_of(stats@[a]).len() ==> idx < #[trigger] rows_of(
                        stats@[a],
                    )[b].len(),
                forall|b: int| 0 <= b < i ==> idx < #[trigger] rows_of(stats@[t as int])[b].len(),
            decreases rows@.len() - i,
        {
            assert(rows_of(stats@[t as int])[i as int] == rows@[i as int]@);
            if rows[i].len() <= idx {
                return false;
            }
            i = i + 1;
        }
        t = t + 1;
    }
    true
}

/// The values of column `idx` of `rows`, in order.
pub fn column_of(rows: &Vec<Vec<usize>>, idx: usize) -> (r: Vec<usize>)
    requires
        forall|i: int| 0 <= i < rows@.len() ==> idx < #[trigger] rows@[i]@.len(),
    ensures
        r@ == column(rows_view(rows@), idx as int),
{
    let mut r: Vec<usize> = Vec::new();
    let mut i: usize = 0;
    while i < rows.len()
        invariant
            i <= rows@.len(),
            forall|i: int| 0 <= i < rows@.len() ==> idx < #[trigger] rows@[i]@.len(),
            r@ =~= column(rows_view(rows@), idx as int).subrange(0, i as int),
        decreases rows@.len() - i,
    {
        r.push(rows[i][idx]);
        i = i + 1;
    }
    assert(column(rows_view(rows@), idx as int).subrange(0, i as int) =~= column(rows_view(rows@), idx as int));
    r
}

/// The distribution of one metric, pooled over tables.
pub struct MetricCdf {
    /// The metric's column name.
    pub name: String,
    /// How many values were pooled; each point's probability is its count
    /// divided by this.
    pub samples: usize,
    /// The points `(value, count of values at most value)`.
    pub points: Vec<(usize, usize)>,
}

/// The tables can be pooled: there is at least one, and every row reaches
/// each column that the first table's legend names.
pub open spec fn poolable(tables: Seq<Stats>) -> bool {
    tables.len() > 0 && (tables[0].legend@.len() > 1 ==> rows_reach(tables, tables[0].legend@.len() - 1))
}

/// For each metric that the first table's legend names after the time axis,
/// its empirical distribution over the values of all tables. `None` when
/// there is no table, or some row is shorter than that legend.
pub fn gen_cdf(stats: &[Stats]) -> (r: Option<Vec<MetricCdf>>)
    ensures
        r is Some <==> poolable(stats@),
        r matches Some(ms) ==> {
            let legend = stats@[0].legend@;
            &&& ms@.len() == if legend.len() > 0 { legend.len() - 1 } else { 0 }
            &&& forall|i: int| 0 <= i < ms@.len() ==> {
                &&& (#[trigger] ms@[i]).name@ == legend[i + 1]@
                &&& ms@[i].samples == pooled(stats@, i + 1).len()
                &&& is_cdf_of(pooled(stats@, i + 1), ms@[i].points@)
            }
        },
{
    if stats.len() == 0 {
        return None;
    }
    let legend = &stats[0].legend;
    let k = legend.len();
    if k > 1 && !rows_reach_all(stats, k - 1) {
        return None;
    }
    let mut ms: Vec<MetricCdf> = Vec::new();
    if k == 0 {
        return Some(ms);
    }
    let mut idx: usize = 1;
    while idx < k
        invariant
            stats@.len() > 0,
            legend == stats@[0].legend,
            k == legend@.len(),
            k > 1 ==> rows_reach(stats@, k - 1),
            1 <= idx <= k,
            ms@.len() == idx - 1,
            forall|i: int| 0 <= i < ms@.len() ==> {
                &&& (#[trigger] ms@[i]).name@ == legend@[i + 1]@
                &&& ms@[i].samples == pooled(stats@, i + 1).len()
                &&& is_cdf_of(pooled(stats@, i + 1), ms@[i].points@)
            },
        decreases k - idx,
    {
        assert(rows_reach(stats@, idx as int)) by {
            assert forall|t: int, r: int|
                0 <= t < stats@.len() && 0 <= r < rows_of(stats@[t]).len() implies idx < #[trigger] rows_of(
                stats@[t],
            )[r].len() by {
                assert(k - 1 < rows_of(stats@[t])[r].len());
            }
        }
        let pool = pool_column(stats, idx);
        let points = cdf(pool.as_slice());
        ms.push(MetricCdf { name: legend[idx].clone(), samples: pool.len(), points });
        idx = idx + 1;
    }
    Some(ms)
}

/// One metric of one table over time.
pub struct Trace {
    /// The metric's column name.
    pub name: String,
    /// The time axis: column 0 of each row.
    pub x: Vec<usize>,
    /// The metric's value in each row.
    pub y: Vec<usize>,
}

/// The number of columns that every row of `t` must hold for graphing: the
/// legend's length, and at least the time axis.
pub open spec fn graph_width(t: Stats) -> int {
    if t.legend@.len() > 0 { t.legend@.len() as int } else { 1 }
}

/// For each metric that the legend names after the time axis, its values
/// over time. `None` when some row is shorter than the legend (or empty).
pub fn graph(stats: &Stats) -> (r: Option<Vec<Trace>>)
    ensures
        r is Some <==> rows_reach(seq![*stats], graph_width(*stats) - 1),
        r matches Some(ts) ==> {
            let legend = stats.legend@;
            &&& ts@.len() == if legend.len() > 0 { legend.len() - 1 } else { 0 }
            &&& forall|i: int| 0 <= i < ts@.len() ==> {
                &&& (#[trigger] ts@[i]).name@ == legend[i + 1]@
                &&& ts@[i].x@ == column(rows_of(*stats), 0)
                &&& ts@[i].y@ == column(rows_of(*stats), i + 1)
            }
        },
{
    let k = stats.legend.len();
    let width = if k > 0 { k } else { 1 };
    let ghost one = seq![*stats];
    let mut i: usize = 0;
    while i < stats.values.len()
        invariant
            one == seq![*stats],
            width == graph_width(*stats),
            i <= stats.values@.len(),
            forall|b: int| 0 <= b < i ==> width - 1 < #[trigger] stats.values@[b]@.len(),
        decreases stats.values@.len() - i,
    {
        if stats.values[i].len() < width {
            assert(rows_of(one[0])[i as int] == stats.values@[i as int]@);
            return None;
        }
        i = i + 1;
    }
    assert(rows_reach(one, width - 1)) by {
        assert forall|t: int, b: int|
            0 <= t < one.len() && 0 <= b < rows_of(one[t]).len() implies width - 1 < #[trigger] rows_of(
            one[t],
        )[b].len() by {
            assert(rows_of(one[t])[b] == stats.values@[b]@);
        }
    }
    let mut ts: Vec<Trace> = Vec::new();
    if k == 0 {
        return Some(ts);
    }
    let mut idx: usize = 1;
    while idx < k
        invariant
            k == stats.legend@.len(),
            width == k,
            forall|b: int| 0 <= b < stats.values@.len() ==> k - 1 < #[trigger] stats.values@[b]@.len(),
            1 <= idx <= k,
            ts@.len() == idx - 1,
            forall|i: int| 0 <= i < ts@.len() ==> {
                &&& (#[trigger] ts@[i]).name@ == stats.legend@[i + 1]@
                &&& ts@[i].x@ == column(rows_of(*stats), 0)
                &&& ts@[i].y@ == column(rows_of(*stats), i + 1)
            },
        decreases k - idx,
    {
        let x = column_of(&stats.values, 0);
        let y = column_of(&stats.values, idx);
        ts.push(Trace { name: stats.legend[idx].clone(), x, y });
        idx = idx + 1;
    }
    Some(ts)
}

} // verus!
