use vstd::prelude::*;

use crate::dataset::DataSet;
use crate::kernel::StringSearch;
use crate::like::{like_match_bytes, like_matches, Pattern};

verus! {

/// A matching row: table `table`, row `row` of the dataset.
#[derive(Debug, Clone, Copy, PartialEq, Eq, Structural)]
pub struct Match {
    pub table: usize,
    pub row: usize,
}

/// A matching row of a batch: which pattern matched, and where.
#[derive(Debug, Clone, Copy, PartialEq, Eq, Structural)]
pub struct BatchMatch {
    pub pattern_index: usize,
    pub table: usize,
    pub row: usize,
}

/// `(t1, r1)` comes before `(t2, r2)` in table order, then row order.
pub open spec fn before(t1: int, r1: int, t2: int, r2: int) -> bool {
    t1 < t2 || (t1 == t2 && r1 < r2)
}

/// `x` comes before `y`: by pattern, then table, then row.
pub open spec fn batch_before(x: BatchMatch, y: BatchMatch) -> bool {
    x.pattern_index < y.pattern_index || (x.pattern_index == y.pattern_index && before(
        x.table as int,
        x.row as int,
        y.table as int,
        y.row as int,
    ))
}

/// Row `i` of table `t` exists and `pattern` matches its data, which is shorter than
/// `usize::MAX` bytes.
pub open spec fn row_selected<S: StringSearch>(pattern: &Pattern<S>, dataset: &DataSet, t: int, i: int) -> bool {
    &&& 0 <= t < dataset.tables@.len()
    &&& 0 <= i < dataset.tables@[t].rows@.len()
    &&& dataset.row_data(t, i).len() < usize::MAX
    &&& like_matches(pattern.tokens_spec(), dataset.row_data(t, i), pattern.underscore_wild())
}

/// `ms` lists row `i` of table `t`.
pub open spec fn listed(ms: Seq<Match>, t: int, i: int) -> bool {
    exists|a: int| 0 <= a < ms.len() && ms[a].table == t && ms[a].row == i
}

/// `ms` lists row `i` of table `t` for pattern `p`.
pub open spec fn batch_listed(ms: Seq<BatchMatch>, p: int, t: int, i: int) -> bool {
    exists|a: int| 0 <= a < ms.len() && ms[a].pattern_index == p && ms[a].table == t && ms[a].row == i
}

/// The rows of `dataset` whose data `pattern` matches, in table order and then row order.
pub fn execute<S: StringSearch>(pattern: &Pattern<S>, dataset: &DataSet) -> (r: Vec<Match>)
    requires
        pattern.wf(),
        dataset.wf(),
    ensures
        forall|a: int, b: int|
            0 <= a < b < r@.len() ==> before(
                r@[a].table as int,
                r@[a].row as int,
                r@[b].table as int,
                r@[b].row as int,
            ),
        forall|a: int|
            0 <= a < r@.len() ==> {
                let m = #[trigger] r@[a];
                &&& m.table < dataset.tables@.len()
                &&& m.row < dataset.tables@[m.table as int].rows@.len()
                &&& like_matches(
                    pattern.tokens_spec(),
                    dataset.row_data(m.table as int, m.row as int),
                    pattern.underscore_wild(),
                )
            },
        forall|t: int, i: int| #[trigger] row_selected(pattern, dataset, t, i) ==> listed(r@, t, i),
{
    let mut matches: Vec<Match> = Vec::new();
    let mut t: usize = 0;
    while t < dataset.tables.len()
        invariant
            pattern.wf(),
            dataset.wf(),
            t <= dataset.tables@.len(),
            forall|a: int, b: int|
                0 <= a < b < matches@.len() ==> before(
                    matches@[a].table as int,
                    matches@[a].row as int,
                    matches@[b].table as int,
                    matches@[b].row as int,
                ),
            forall|a: int|
                0 <= a < matches@.len() ==> {
                    let m = #[trigger] matches@[a];
                    &&& m.table < t
                    &&& m.row < dataset.tables@[m.table as int].rows@.len()
                    &&& like_matches(
                        pattern.tokens_spec(),
                        dataset.row_data(m.table as int, m.row as int),
                        pattern.underscore_wild(),
                    )
                },
            forall|t2: int, i: int| t2 < t && #[trigger] row_selected(pattern, dataset, t2, i) ==> listed(matches@, t2, i),
        decreases dataset.tables@.len() - t,
    {
        let table = &dataset.tables[t];
        let mut r: usize = 0;
        while r < table.rows.len()
            invariant
                pattern.wf(),
                dataset.wf(),
                t < dataset.tables@.len(),
                *table == dataset.tables@[t as int],
                r <= table.rows@.len(),
                forall|a: int, b: int|
                    0 <= a < b < matches@.len() ==> before(
                        matches@[a].table as int,
                        matches@[a].row as int,
                        matches@[b].table as int,
                        matches@[b].row as int,
                    ),
                forall|a: int|
                    0 <= a < matches@.len() ==> {
                        let m = #[trigger] matches@[a];
                        &&& before(m.table as int, m.row as int, t as int, r as int)
                        &&& m.row < dataset.tables@[m.table as int].rows@.len()
                        &&& like_matches(
                            pattern.tokens_spec(),
                            dataset.row_data(m.table as int, m.row as int),
                            pattern.underscore_wild(),
                        )
                    },
                forall|t2: int, i: int|
                    before(t2, i, t as int, r as int) && #[trigger] row_selected(pattern, dataset, t2, i)
                        ==> listed(matches@, t2, i),
            decreases table.rows@.len() - r,
        {
            let row = table.rows[r];
            assert(dataset.arena.holds(row.data));
            let data = dataset.arena.get(row.data);
            let ghost old_matches = matches@;
            if like_match_bytes(pattern, data) {
                matches.push(Match { table: t, row: r });
                assert(matches@[matches@.len() - 1] == (Match { table: t, row: r }));
            }
            assert forall|t2: int, i: int|
                before(t2, i, t as int, r + 1) && #[trigger] row_selected(pattern, dataset, t2, i) implies listed(
                matches@,
                t2,
                i,
            ) by {
                if t2 == t && i == r {
                    assert(matches@[matches@.len() - 1] == (Match { table: t, row: r }));
                } else {
                    let a = choose|a: int| 0 <= a < old_matches.len() && old_matches[a].table == t2 && old_matches[a].row == i;
                    assert(matches@[a] == old_matches[a]);
                }
            }
            r += 1;
        }
        assert forall|t2: int, i: int| t2 < t + 1 && #[trigger] row_selected(pattern, dataset, t2, i) implies listed(
            matches@,
            t2,
            i,
        ) by {
            if t2 == t {
                assert(before(t2, i, t as int, r as int));
            }
        }
        t += 1;
    }
    matches
}

/// For each pattern in turn, the rows of `dataset` that it matches, in table order and then row
/// order.
pub fn execute_all<S: StringSearch>(patterns: &[Pattern<S>], dataset: &DataSet) -> (r: Vec<BatchMatch>)
    requires
        forall|i: int| 0 <= i < patterns@.len() ==> #[trigger] patterns@[i].wf(),
        dataset.wf(),
    ensures
        forall|a: int, b: int|
            0 <= a < b < r@.len() ==> batch_before(r@[a], r@[b]),
        forall|a: int|
            0 <= a < r@.len() ==> {
                let m = #[trigger] r@[a];
                &&& m.pattern_index < patterns@.len()
                &&& m.table < dataset.tables@.len()
                &&& m.row < dataset.tables@[m.table as int].rows@.len()
                &&& like_matches(
                    patterns@[m.pattern_index as int].tokens_spec(),
                    dataset.row_data(m.table as int, m.row as int),
                    patterns@[m.pattern_index as int].underscore_wild(),
                )
            },
        forall|p: int, t: int, i: int|
            0 <= p < patterns@.len() && #[trigger] row_selected(&patterns@[p], dataset, t, i) ==> batch_listed(
                r@,
                p,
                t,
                i,
            ),
{
    let mut out: Vec<BatchMatch> = Vec::new();
    let mut p: usize = 0;
    while p < patterns.len()
        invariant
            forall|i: int| 0 <= i < patterns@.len() ==> #[trigger] patterns@[i].wf(),
            dataset.wf(),
            p <= patterns@.len(),
            forall|a: int, b: int|
                0 <= a < b < out@.len() ==> batch_before(out@[a], out@[b]),
            forall|a: int|
                0 <= a < out@.len() ==> {
                    let m = #[trigger] out@[a];
                    &&& m.pattern_index < p
                    &&& m.table < dataset.tables@.len()
                    &&& m.row < dataset.tables@[m.table as int].rows@.len()
                    &&& like_matches(
                        patterns@[m.pattern_index as int].tokens_spec(),
                        dataset.row_data(m.table as int, m.row as int),
                        patterns@[m.pattern_index as int].underscore_wild(),
                    )
                },
            forall|p2: int, t: int, i: int|
                0 <= p2 < p && #[trigger] row_selected(&patterns@[p2], dataset, t, i) ==> batch_listed(
                    out@,
                    p2,
                    t,
                    i,
                ),
        decreases patterns@.len() - p,
    {
        let found = execute(&patterns[p], dataset);
        let ghost base = out@;
        let mut k: usize = 0;
        while k < found.len()
            invariant
                forall|i: int| 0 <= i < patterns@.len() ==> #[trigger] patterns@[i].wf(),
                dataset.wf(),
                p < patterns@.len(),
                k <= found@.len(),
                out@.len() == base.len() + k,
                forall|a: int| 0 <= a < base.len() ==> out@[a] == base[a],
                forall|a: int| 0 <= a < base.len() ==> #[trigger] base[a].pattern_index < p,
                forall|a: int|
                    0 <= a < k ==> out@[base.len() + a] == (BatchMatch {
                        pattern_index: p,
                        table: found@[a].table,
                        row: found@[a].row,
                    }),
                forall|a: int, b: int|
                    0 <= a < b < found@.len() ==> before(
                        found@[a].table as int,
                        found@[a].row as int,
                        found@[b].table as int,
                        found@[b].row as int,
                    ),
                forall|a: int|
                    0 <= a < found@.len() ==> {
                        let m = #[trigger] found@[a];
                        &&& m.table < dataset.tables@.len()
                        &&& m.row < dataset.tables@[m.table as int].rows@.len()
                        &&& like_matches(
                            patterns@[p as int].tokens_spec(),
                            dataset.row_data(m.table as int, m.row as int),
                            patterns@[p as int].underscore_wild(),
                        )
                    },
                forall|a: int, b: int| 0 <= a < b < base.len() ==> batch_before(base[a], base[b]),
                forall|a: int|
                    0 <= a < base.len() ==> {
                        let m = #[trigger] base[a];
                        &&& m.table < dataset.tables@.len()
                        &&& m.row < dataset.tables@[m.table as int].rows@.len()
                        &&& like_matches(
                            patterns@[m.pattern_index as int].tokens_spec(),
                            dataset.row_data(m.table as int, m.row as int),
                            patterns@[m.pattern_index as int].underscore_wild(),
                        )
                    },
                forall|p2: int, t: int, i: int|
                    0 <= p2 < p && #[trigger] row_selected(&patterns@[p2], dataset, t, i) ==> batch_listed(
                        base,
                        p2,
                        t,
                        i,
                    ),
                forall|t: int, i: int| #[trigger] row_selected(&patterns@[p as int], dataset, t, i) ==> listed(found@, t, i),
            decreases found@.len() - k,
        {
            let m = found[k];
            out.push(BatchMatch { pattern_index: p, table: m.table, row: m.row });
            k += 1;
        }
        assert forall|a: int| 0 <= a < out@.len() implies {
            let m = #[trigger] out@[a];
            &&& m.pattern_index < p + 1
            &&& m.table < dataset.tables@.len()
            &&& m.row < dataset.tables@[m.table as int].rows@.len()
            &&& like_matches(
                patterns@[m.pattern_index as int].tokens_spec(),
                dataset.row_data(m.table as int, m.row as int),
                patterns@[m.pattern_index as int].underscore_wild(),
            )
        } by {
            if a < base.len() {
                assert(out@[a] == base[a]);
            } else {
                assert(found@[a - base.len()].table == out@[a].table);
            }
        }
        assert forall|a: int, b: int| 0 <= a < b < out@.len() implies batch_before(out@[a], out@[b]) by {
            if b < base.len() {
                assert(out@[a] == base[a] && out@[b] == base[b]);
            } else if a < base.len() {
                assert(out@[a] == base[a]);
                assert(base[a].pattern_index < p);
                let b2 = b - base.len();
                assert(out@[base.len() + b2] == (BatchMatch { pattern_index: p, table: found@[b2].table, row: found@[b2].row }));
            } else {
                let a2 = a - base.len();
                let b2 = b - base.len();
                assert(out@[base.len() + a2] == (BatchMatch { pattern_index: p, table: found@[a2].table, row: found@[a2].row }));
                assert(out@[base.len() + b2] == (BatchMatch { pattern_index: p, table: found@[b2].table, row: found@[b2].row }));
                assert(before(
                    found@[a2].table as int,
                    found@[a2].row as int,
                    found@[b2].table as int,
                    found@[b2].row as int,
                ));
            }
        }
        assert forall|p2: int, t: int, i: int|
            0 <= p2 < p + 1 && #[trigger] row_selected(&patterns@[p2], dataset, t, i) implies batch_listed(
            out@,
            p2,
            t,
            i,
        ) by {
            if p2 < p {
                let a = choose|a: int|
                    0 <= a < base.len() && base[a].pattern_index == p2 && base[a].table == t && base[a].row == i;
                assert(out@[a] == base[a]);
            } else {
                assert(listed(found@, t, i));
                let a = choose|a: int| 0 <= a < found@.len() && found@[a].table == t && found@[a].row == i;
                assert(out@[base.len() + a] == (BatchMatch { pattern_index: p, table: found@[a].table, row: found@[a].row }));
            }
        }
        p += 1;
    }
    out
}

} // verus!
