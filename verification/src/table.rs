//! What the three tables have in common: every row has an id, the ids of a
//! table ascend in the order of insertion, and a counter remembers the last
//! id that the table issued.

use vstd::prelude::*;
use crate::models::{HistoryView, SubTaskView, TaskView, views};

verus! {

/// A row that is found by its id.
pub trait Keyed: Sized {
    spec fn key(self) -> int;
}

impl Keyed for TaskView {
    open spec fn key(self) -> int {
        self.id
    }
}

impl Keyed for SubTaskView {
    open spec fn key(self) -> int {
        self.id
    }
}

impl Keyed for HistoryView {
    open spec fn key(self) -> int {
        self.id
    }
}

/// The ids of `rows` ascend strictly, and each lies between 1 and
/// `last_issued`, which is not negative.
pub open spec fn in_order<R: Keyed>(rows: Seq<R>, last_issued: int) -> bool {
    &&& 0 <= last_issued
    &&& forall|i: int| 0 <= i < rows.len() ==> 1 <= (#[trigger] rows[i]).key() <= last_issued
    &&& forall|i: int, j: int|
        0 <= i < j < rows.len() ==> (#[trigger] rows[i]).key() < (#[trigger] rows[j]).key()
}

/// `ids` ascend strictly, each lies between 1 and `last_issued`, and
/// `last_issued` is not negative.
pub open spec fn ids_ascend(ids: Seq<i32>, last_issued: int) -> bool {
    &&& 0 <= last_issued
    &&& forall|i: int| 0 <= i < ids.len() ==> 1 <= #[trigger] ids[i] <= last_issued
    &&& forall|i: int, j: int| 0 <= i < j < ids.len() ==> #[trigger] ids[i] < #[trigger] ids[j]
}

/// Rows are in order exactly where their ids ascend.
pub proof fn lemma_ids_of_rows<R: Keyed>(rows: Seq<R>, ids: Seq<i32>, last_issued: int)
    requires
        ids.len() == rows.len(),
        forall|i: int| 0 <= i < rows.len() ==> (#[trigger] rows[i]).key() == ids[i],
    ensures
        in_order(rows, last_issued) == ids_ascend(ids, last_issued),
{
    if in_order(rows, last_issued) {
        assert forall|i: int| 0 <= i < ids.len() implies 1 <= #[trigger] ids[i] <= last_issued by {
            assert(1 <= rows[i].key() <= last_issued);
        }
        assert forall|i: int, j: int| 0 <= i < j < ids.len() implies #[trigger] ids[i]
            < #[trigger] ids[j] by {
            assert(rows[i].key() < rows[j].key());
        }
    }
    if ids_ascend(ids, last_issued) {
        assert forall|i: int| 0 <= i < rows.len() implies 1 <= (#[trigger] rows[i]).key()
            <= last_issued by {
            assert(1 <= ids[i] <= last_issued);
        }
        assert forall|i: int, j: int| 0 <= i < j < rows.len() implies (#[trigger] rows[i]).key() < (
        #[trigger] rows[j]).key() by {
            assert(ids[i] < ids[j]);
        }
    }
}

/// The largest id among `rows`, or 0 where there is no row.
pub open spec fn largest_id<R: Keyed>(rows: Seq<R>) -> int
    decreases rows.len(),
{
    if rows.len() == 0 {
        0
    } else {
        let before = largest_id(rows.drop_last());
        if rows.last().key() > before {
            rows.last().key()
        } else {
            before
        }
    }
}

/// The rows with another id than `id`.
pub open spec fn without_id<R: Keyed>(id: int) -> spec_fn(R) -> bool {
    |row: R| row.key() != id
}

/// Some row of `rows` has the id `id`.
pub open spec fn holds_id<R: Keyed>(rows: Seq<R>, id: int) -> bool {
    exists|i: int| 0 <= i < rows.len() && (#[trigger] rows[i]).key() == id
}

/// The position of the row with the id `id`, where `holds_id(rows, id)`.
pub open spec fn position_of<R: Keyed>(rows: Seq<R>, id: int) -> int {
    choose|i: int| 0 <= i < rows.len() && (#[trigger] rows[i]).key() == id
}

/// In a table in order an id names at most one row: the row that has it is
/// the one that is found under it.
pub proof fn lemma_position<R: Keyed>(rows: Seq<R>, last_issued: int, id: int, at: int)
    requires
        in_order(rows, last_issued),
        0 <= at < rows.len(),
        rows[at].key() == id,
    ensures
        holds_id(rows, id),
        position_of(rows, id) == at,
{
    let found = position_of(rows, id);
    if found < at {
        assert(rows[found].key() < rows[at].key());
    } else if at < found {
        assert(rows[at].key() < rows[found].key());
    }
}

/// The largest id is not negative, no id is above it, and where it is not 0
/// some row has it.
pub proof fn lemma_largest_id<R: Keyed>(rows: Seq<R>)
    ensures
        largest_id(rows) >= 0,
        forall|i: int| 0 <= i < rows.len() ==> (#[trigger] rows[i]).key() <= largest_id(rows),
        largest_id(rows) > 0 ==> holds_id(rows, largest_id(rows)),
        rows.len() == 0 ==> largest_id(rows) == 0,
    decreases rows.len(),
{
    if rows.len() > 0 {
        let front = rows.drop_last();
        lemma_largest_id(front);
        assert forall|i: int| 0 <= i < rows.len() implies (#[trigger] rows[i]).key() <= largest_id(
            rows,
        ) by {
            if i < rows.len() - 1 {
                assert(front[i] == rows[i]);
            }
        }
        if largest_id(rows) > 0 {
            if rows.last().key() > largest_id(front) {
                assert(rows[rows.len() - 1].key() == largest_id(rows));
            } else {
                let i = position_of(front, largest_id(front));
                assert(rows[i] == front[i]);
            }
        }
    }
}

/// In a table in order the largest id is that of the last row.
pub proof fn lemma_last_is_largest<R: Keyed>(rows: Seq<R>, last_issued: int)
    requires
        in_order(rows, last_issued),
    ensures
        rows.len() > 0 ==> largest_id(rows) == rows.last().key(),
        0 <= largest_id(rows) <= last_issued,
        in_order(rows, largest_id(rows)),
{
    lemma_largest_id(rows);
    if rows.len() > 0 {
        if largest_id(rows) > 0 {
            let i = position_of(rows, largest_id(rows));
            if i < rows.len() - 1 {
                assert(rows[i].key() < rows[rows.len() - 1].key());
            }
        } else {
            assert(rows[rows.len() - 1].key() >= 1);
        }
    }
}

/// A table in order holds at most as many rows as the last id it issued.
pub proof fn lemma_in_order_len<R: Keyed>(rows: Seq<R>, last_issued: int)
    requires
        in_order(rows, last_issued),
    ensures
        rows.len() <= last_issued,
        forall|i: int| 0 <= i < rows.len() ==> i + 1 <= (#[trigger] rows[i]).key(),
    decreases rows.len(),
{
    if rows.len() > 0 {
        let front = rows.drop_last();
        assert forall|i: int| 0 <= i < front.len() implies 1 <= (#[trigger] front[i]).key()
            <= last_issued by {
            assert(front[i] == rows[i]);
        }
        assert forall|i: int, j: int| 0 <= i < j < front.len() implies (#[trigger] front[i]).key()
            < (#[trigger] front[j]).key() by {
            assert(front[i] == rows[i]);
            assert(front[j] == rows[j]);
        }
        lemma_in_order_len(front, last_issued);
        assert forall|i: int| 0 <= i < rows.len() implies i + 1 <= (#[trigger] rows[i]).key() by {
            if i < rows.len() - 1 {
                assert(front[i] == rows[i]);
            } else if i > 0 {
                assert(front[i - 1] == rows[i - 1]);
                assert(rows[i - 1].key() < rows[i].key());
            }
        }
        assert(rows[rows.len() - 1].key() <= last_issued);
    }
}

/// Adding a row at the end keeps what a filter kept, and adds the row where
/// the filter keeps it.
pub proof fn lemma_filter_push<T>(rows: Seq<T>, row: T, keep: spec_fn(T) -> bool)
    ensures
        rows.push(row).filter(keep) == if keep(row) {
            rows.filter(keep).push(row)
        } else {
            rows.filter(keep)
        },
{
    reveal(Seq::filter);
    assert(rows.push(row).drop_last() == rows);
}

/// What a filter keeps comes from the table, in the table's order.
pub proof fn lemma_filter_origin<T>(rows: Seq<T>, keep: spec_fn(T) -> bool) -> (origin: Seq<int>)
    ensures
        origin.len() == rows.filter(keep).len(),
        forall|k: int|
            0 <= k < origin.len() ==> 0 <= #[trigger] origin[k] < rows.len() && rows[origin[k]]
                == rows.filter(keep)[k] && keep(rows[origin[k]]),
        forall|k: int, l: int| 0 <= k < l < origin.len() ==> origin[k] < origin[l],
        forall|i: int|
            0 <= i < rows.len() && keep(rows[i]) ==> exists|k: int|
                0 <= k < origin.len() && #[trigger] origin[k] == i,
    decreases rows.len(),
{
    reveal(Seq::filter);
    if rows.len() == 0 {
        Seq::empty()
    } else {
        let front = rows.drop_last();
        let before = lemma_filter_origin(front, keep);
        let origin = if keep(rows.last()) {
            before.push(rows.len() - 1)
        } else {
            before
        };
        assert forall|k: int| 0 <= k < origin.len() implies 0 <= #[trigger] origin[k] < rows.len()
            && rows[origin[k]] == rows.filter(keep)[k] && keep(rows[origin[k]]) by {
            if k < before.len() {
                assert(origin[k] == before[k]);
                assert(front[before[k]] == rows[before[k]]);
            }
        }
        assert forall|i: int| 0 <= i < rows.len() && keep(rows[i]) implies exists|k: int|
            0 <= k < origin.len() && #[trigger] origin[k] == i by {
            if i < rows.len() - 1 {
                assert(front[i] == rows[i]);
                let k = choose|k: int| 0 <= k < before.len() && #[trigger] before[k] == i;
                assert(origin[k] == i);
            } else {
                assert(origin[origin.len() - 1] == i);
            }
        }
        origin
    }
}

/// What a filter keeps of a table in order is in order, under the same
/// counter and under the largest id that is left.
pub proof fn lemma_filter_in_order<R: Keyed>(
    rows: Seq<R>,
    last_issued: int,
    keep: spec_fn(R) -> bool,
)
    requires
        in_order(rows, last_issued),
    ensures
        in_order(rows.filter(keep), last_issued),
        in_order(rows.filter(keep), largest_id(rows.filter(keep))),
        largest_id(rows.filter(keep)) <= largest_id(rows),
{
    let kept = rows.filter(keep);
    let origin = lemma_filter_origin(rows, keep);
    assert forall|k: int| 0 <= k < kept.len() implies 1 <= (#[trigger] kept[k]).key()
        <= last_issued by {
        assert(rows[origin[k]] == kept[k]);
    }
    assert forall|k: int, l: int| 0 <= k < l < kept.len() implies (#[trigger] kept[k]).key() < (
    #[trigger] kept[l]).key() by {
        assert(rows[origin[k]] == kept[k]);
        assert(rows[origin[l]] == kept[l]);
    }
    lemma_last_is_largest(kept, last_issued);
    lemma_last_is_largest(rows, last_issued);
    if kept.len() > 0 {
        let last = kept.len() - 1;
        assert(rows[origin[last]] == kept[last]);
        lemma_largest_id(rows);
    }
}

/// A filter that keeps every row changes nothing.
pub proof fn lemma_filter_all<T>(rows: Seq<T>, keep: spec_fn(T) -> bool)
    requires
        forall|i: int| 0 <= i < rows.len() ==> keep(#[trigger] rows[i]),
    ensures
        rows.filter(keep) == rows,
    decreases rows.len(),
{
    reveal(Seq::filter);
    if rows.len() > 0 {
        let front = rows.drop_last();
        assert forall|i: int| 0 <= i < front.len() implies keep(#[trigger] front[i]) by {
            assert(front[i] == rows[i]);
        }
        lemma_filter_all(front, keep);
        assert(front.push(rows.last()) == rows);
    }
}

/// Where a filter keeps every row but the one at `at`, it takes that row out.
pub proof fn lemma_filter_one_out<T>(rows: Seq<T>, keep: spec_fn(T) -> bool, at: int)
    requires
        0 <= at < rows.len(),
        !keep(rows[at]),
        forall|i: int| 0 <= i < rows.len() && i != at ==> keep(#[trigger] rows[i]),
    ensures
        rows.filter(keep) == rows.remove(at),
    decreases rows.len(),
{
    reveal(Seq::filter);
    let front = rows.drop_last();
    if at == rows.len() - 1 {
        assert forall|i: int| 0 <= i < front.len() implies keep(#[trigger] front[i]) by {
            assert(front[i] == rows[i]);
        }
        lemma_filter_all(front, keep);
        assert(rows.remove(at) == front);
    } else {
        assert forall|i: int| 0 <= i < front.len() && i != at implies keep(#[trigger] front[i]) by {
            assert(front[i] == rows[i]);
        }
        assert(front[at] == rows[at]);
        lemma_filter_one_out(front, keep, at);
        assert(keep(rows[rows.len() - 1]));
        assert(front.remove(at).push(rows.last()) == rows.remove(at));
    }
}

/// The values of rows with one more row behind them are the values of the
/// rows with the value of that row behind them.
pub proof fn lemma_views_push<T: View>(rows: Seq<T>, row: T)
    ensures
        views(rows.push(row)) == views(rows).push(row@),
{
}

/// The values of all rows are the values of the first `rows.len()` rows.
pub proof fn lemma_views_all<T: View>(rows: Seq<T>)
    ensures
        rows.take(rows.len() as int) == rows,
        views(rows.take(rows.len() as int)) == views(rows),
{
}

/// The values of the first `n + 1` rows are those of the first `n` and that
/// of the row at `n`.
pub proof fn lemma_views_take<T: View>(rows: Seq<T>, n: int)
    requires
        0 <= n < rows.len(),
    ensures
        views(rows.take(n + 1)) == views(rows.take(n)).push(rows[n]@),
        views(rows).take(n + 1) == views(rows).take(n).push(rows[n]@),
        views(rows.take(n)) == views(rows).take(n),
        views(rows.take(n + 1)) == views(rows).take(n + 1),
{
}

} // verus!
