//! Listing rows by a key: a stable sort, stated as a spec function, with the
//! laws that say what it is, and the insertion step that computes it.

use vstd::prelude::*;
use crate::models::views;

verus! {

/// `sorted` with `row` put behind every row whose key is not greater than
/// its own.
pub open spec fn place<T>(sorted: Seq<T>, row: T, key: spec_fn(T) -> int) -> Seq<T>
    decreases sorted.len(),
{
    if sorted.len() == 0 || key(sorted.last()) <= key(row) {
        sorted.push(row)
    } else {
        place(sorted.drop_last(), row, key).push(sorted.last())
    }
}

/// `rows` by ascending key; rows with the same key stay in the order they
/// had.
pub open spec fn sorted_by<T>(rows: Seq<T>, key: spec_fn(T) -> int) -> Seq<T>
    decreases rows.len(),
{
    if rows.len() == 0 {
        rows
    } else {
        place(sorted_by(rows.drop_last(), key), rows.last(), key)
    }
}

/// The keys of `rows` never descend.
pub open spec fn ascends<T>(rows: Seq<T>, key: spec_fn(T) -> int) -> bool {
    forall|i: int, j: int| 0 <= i < j < rows.len() ==> key(#[trigger] rows[i]) <= key(#[trigger] rows[j])
}

/// The rows whose key is `k`.
pub open spec fn keyed<T>(key: spec_fn(T) -> int, k: int) -> spec_fn(T) -> bool {
    |row: T| key(row) == k
}

/// Where `at` is the place behind the last row whose key is not greater than
/// that of `row`, `place` puts `row` at `at`.
pub proof fn lemma_place_at<T>(sorted: Seq<T>, row: T, key: spec_fn(T) -> int, at: int)
    requires
        0 <= at <= sorted.len(),
        forall|j: int| at <= j < sorted.len() ==> key(#[trigger] sorted[j]) > key(row),
        at > 0 ==> key(sorted[at - 1]) <= key(row),
    ensures
        place(sorted, row, key) == sorted.insert(at, row),
    decreases sorted.len(),
{
    if at == sorted.len() {
        assert(sorted.insert(at, row) == sorted.push(row));
    } else {
        let front = sorted.drop_last();
        assert(key(sorted[sorted.len() - 1]) > key(row));
        assert forall|j: int| at <= j < front.len() implies key(#[trigger] front[j]) > key(row) by {
            assert(front[j] == sorted[j]);
        }
        if at > 0 {
            assert(front[at - 1] == sorted[at - 1]);
        }
        lemma_place_at(front, row, key, at);
        assert(front.insert(at, row).push(sorted.last()) == sorted.insert(at, row));
    }
}

/// `place` keeps a sorted sequence sorted, adds one row, and leaves the rows
/// of each key in their order, the new row last among those of its key.
pub proof fn lemma_place<T>(sorted: Seq<T>, row: T, key: spec_fn(T) -> int)
    requires
        ascends(sorted, key),
    ensures
        ascends(place(sorted, row, key), key),
        place(sorted, row, key).len() == sorted.len() + 1,
        place(sorted, row, key).to_multiset() == sorted.to_multiset().insert(row),
        forall|k: int|
            #![trigger keyed(key, k)]
            place(sorted, row, key).filter(keyed(key, k)) == if key(row) == k {
                sorted.filter(keyed(key, k)).push(row)
            } else {
                sorted.filter(keyed(key, k))
            },
    decreases sorted.len(),
{
    broadcast use vstd::seq_lib::group_to_multiset_ensures;

    let placed = place(sorted, row, key);
    if sorted.len() == 0 || key(sorted.last()) <= key(row) {
        assert forall|i: int, j: int| 0 <= i < j < placed.len() implies key(#[trigger] placed[i])
            <= key(#[trigger] placed[j]) by {
            if j == sorted.len() {
                if i < sorted.len() - 1 {
                    assert(key(sorted[i]) <= key(sorted[sorted.len() - 1]));
                }
            } else {
                assert(key(sorted[i]) <= key(sorted[j]));
            }
        }
        assert forall|k: int| #![trigger keyed(key, k)] placed.filter(keyed(key, k)) == if key(row) == k {
            sorted.filter(keyed(key, k)).push(row)
        } else {
            sorted.filter(keyed(key, k))
        } by {
            crate::table::lemma_filter_push(sorted, row, keyed(key, k));
        }
    } else {
        let front = sorted.drop_last();
        let last = sorted.last();
        assert(sorted == front.push(last));
        assert forall|i: int, j: int| 0 <= i < j < front.len() implies key(#[trigger] front[i])
            <= key(#[trigger] front[j]) by {
            assert(front[i] == sorted[i]);
            assert(front[j] == sorted[j]);
        }
        lemma_place(front, row, key);
        let inner = place(front, row, key);
        assert(placed == inner.push(last));
        // Every row of `inner` is `row` or a row of `front`, so none has a
        // key above that of `last`.
        assert forall|i: int| 0 <= i < inner.len() implies key(#[trigger] inner[i]) <= key(last) by {
            assert(inner.to_multiset().count(inner[i]) > 0);
            if inner[i] != row {
                assert(front.to_multiset().count(inner[i]) > 0);
                let p = choose|p: int| 0 <= p < front.len() && front[p] == inner[i];
                assert(front[p] == sorted[p]);
                assert(key(sorted[p]) <= key(sorted[sorted.len() - 1]));
            }
        }
        assert forall|i: int, j: int| 0 <= i < j < placed.len() implies key(#[trigger] placed[i])
            <= key(#[trigger] placed[j]) by {
            if j < inner.len() {
                assert(key(inner[i]) <= key(inner[j]));
            } else {
                assert(placed[i] == inner[i]);
            }
        }
        assert(placed.to_multiset() =~= sorted.to_multiset().insert(row));
        assert forall|k: int| #![trigger keyed(key, k)] placed.filter(keyed(key, k)) == if key(row) == k {
            sorted.filter(keyed(key, k)).push(row)
        } else {
            sorted.filter(keyed(key, k))
        } by {
            crate::table::lemma_filter_push(inner, last, keyed(key, k));
            crate::table::lemma_filter_push(front, last, keyed(key, k));
            assert(key(last) != key(row));
            assert(inner.filter(keyed(key, k)) == if key(row) == k {
                front.filter(keyed(key, k)).push(row)
            } else {
                front.filter(keyed(key, k))
            });
        }
    }
}

/// What `sorted_by` returns: the same rows, as many of each; by ascending
/// key; and the rows of each key in the order they had.
pub proof fn lemma_sorted_by<T>(rows: Seq<T>, key: spec_fn(T) -> int)
    ensures
        ascends(sorted_by(rows, key), key),
        sorted_by(rows, key).len() == rows.len(),
        sorted_by(rows, key).to_multiset() == rows.to_multiset(),
        forall|k: int|
            #![trigger keyed(key, k)]
            sorted_by(rows, key).filter(keyed(key, k)) == rows.filter(keyed(key, k)),
    decreases rows.len(),
{
    broadcast use vstd::seq_lib::group_to_multiset_ensures;

    if rows.len() > 0 {
        let front = rows.drop_last();
        lemma_sorted_by(front, key);
        lemma_place(sorted_by(front, key), rows.last(), key);
        assert(rows == front.push(rows.last()));
        assert forall|k: int| #![trigger keyed(key, k)] sorted_by(rows, key).filter(keyed(key, k))
            == rows.filter(keyed(key, k)) by {
            crate::table::lemma_filter_push(front, rows.last(), keyed(key, k));
            assert(sorted_by(front, key).filter(keyed(key, k)) == front.filter(keyed(key, k)));
        }
    } else {
        reveal(Seq::filter);
    }
}

/// Rows that already ascend by key are listed as they stand.
pub proof fn lemma_sorted_by_ascending<T>(rows: Seq<T>, key: spec_fn(T) -> int)
    requires
        ascends(rows, key),
    ensures
        sorted_by(rows, key) == rows,
    decreases rows.len(),
{
    if rows.len() > 0 {
        let front = rows.drop_last();
        assert forall|i: int, j: int| 0 <= i < j < front.len() implies key(#[trigger] front[i])
            <= key(#[trigger] front[j]) by {
            assert(front[i] == rows[i]);
            assert(front[j] == rows[j]);
        }
        lemma_sorted_by_ascending(front, key);
        if front.len() > 0 {
            assert(front.last() == rows[rows.len() - 2]);
            assert(key(rows[rows.len() - 2]) <= key(rows[rows.len() - 1]));
        }
        assert(front.push(rows.last()) == rows);
    }
}

/// Puts `row` into `rows`, which are sorted by `key`, behind every row whose
/// key is not greater. `keys` holds the key of each row and is kept in step.
pub(crate) fn place_row<T: View>(
    rows: &mut Vec<T>,
    keys: &mut Vec<i64>,
    row: T,
    k: i64,
    Ghost(key): Ghost<spec_fn(T::V) -> int>,
)
    requires
        old(keys)@.len() == old(rows)@.len(),
        forall|i: int| 0 <= i < old(rows)@.len() ==> old(keys)@[i] == key(#[trigger] old(rows)@[i]@),
        k == key(row@),
    ensures
        views(final(rows)@) == place(views(old(rows)@), row@, key),
        final(keys)@.len() == final(rows)@.len(),
        forall|i: int|
            0 <= i < final(rows)@.len() ==> final(keys)@[i] == key(#[trigger] final(rows)@[i]@),
{
    let mut at: usize = rows.len();
    while at > 0 && keys[at - 1] > k
        invariant
            at <= rows@.len(),
            keys@.len() == rows@.len(),
            forall|j: int| at <= j < keys@.len() ==> #[trigger] keys@[j] > k,
        decreases at,
    {
        at -= 1;
    }
    proof {
        let before = views(rows@);
        assert forall|j: int| at <= j < before.len() implies key(#[trigger] before[j]) > key(
            row@,
        ) by {
            assert(keys@[j] == key(rows@[j]@));
        }
        if at > 0 {
            assert(keys@[at - 1] == key(rows@[at - 1]@));
        }
        lemma_place_at(before, row@, key, at as int);
        assert(views(rows@.insert(at as int, row)) == before.insert(at as int, row@));
    }
    rows.insert(at, row);
    keys.insert(at, k);
}

} // verus!
