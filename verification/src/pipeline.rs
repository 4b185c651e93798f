//! The filter-and-sort pipeline: the visible, ordered projection of the
//! collection that rendering consumes.
//!
//! Every entry — settled or in flight — is passed through the filter using
//! its retained or provisional item, so placeholders participate in the same
//! visible set. The visible rows are then ordered by descending relevance
//! score, ties decided by the sorter's own criteria; the order is total, so
//! re-running the pipeline on unchanged input yields the identical sequence.

use vstd::prelude::*;

use crate::async_list::{AsyncList, EntryView, ListEntry, ListView, views_of};
use crate::task_list::{TaskFilter, TaskSorter};

verus! {

/// One visible row: the entry it stands for, carrying its in-flight tag, and
/// the relevance score the filter gave its displayed task.
#[derive(Debug)]
pub struct Row {
    pub entry: ListEntry,
    pub score: i64,
}

/// The mathematical value of a [`Row`].
#[verifier::ext_equal]
pub struct RowView {
    pub entry: EntryView,
    pub score: int,
}

impl View for Row {
    type V = RowView;

    open spec fn view(&self) -> RowView {
        RowView { entry: self.entry@, score: self.score as int }
    }
}

impl Clone for Row {
    fn clone(&self) -> (r: Self)
        ensures
            r == *self,
    {
        Row { entry: self.entry.clone(), score: self.score }
    }
}

/// The views of a sequence of rows.
pub open spec fn row_views_of(s: Seq<Row>) -> Seq<RowView> {
    s.map_values(|row: Row| row@)
}

/// The views of a sequence of rows, one more row appended.
pub proof fn lemma_row_views_of_push(s: Seq<Row>, x: Row)
    ensures
        row_views_of(s.push(x)) == row_views_of(s).push(x@),
{
    assert(row_views_of(s.push(x)) =~= row_views_of(s).push(x@));
}

/// `a` may stand at or before `b`: higher relevance score first, ties
/// decided by the sorter's own criteria. A total, transitive relation.
pub open spec fn row_le(sorter: TaskSorter, a: RowView, b: RowView) -> bool {
    a.score > b.score || (a.score == b.score && sorter.le_spec(
        a.entry.display_task(),
        b.entry.display_task(),
    ))
}

/// The relation `row_le` is total.
pub proof fn lemma_row_le_total(sorter: TaskSorter, a: RowView, b: RowView)
    ensures
        row_le(sorter, a, b) || row_le(sorter, b, a),
{
    sorter.lemma_le_total(a.entry.display_task(), b.entry.display_task());
}

/// The relation `row_le` is transitive.
pub proof fn lemma_row_le_transitive(sorter: TaskSorter, a: RowView, b: RowView, c: RowView)
    requires
        row_le(sorter, a, b),
        row_le(sorter, b, c),
    ensures
        row_le(sorter, a, c),
{
    if a.score == b.score && b.score == c.score {
        sorter.lemma_le_transitive(
            a.entry.display_task(),
            b.entry.display_task(),
            c.entry.display_task(),
        );
    }
}

/// The visible rows of the collection, in collection order, each with the
/// score the filter gave it.
pub open spec fn filter_rows(s: Seq<EntryView>, filter: TaskFilter) -> Seq<RowView>
    decreases s.len(),
{
    if s.len() == 0 {
        Seq::empty()
    } else {
        let outcome = filter.filter_spec(s[0].display_task());
        let rest = filter_rows(s.drop_first(), filter);
        if outcome.0 {
            seq![RowView { entry: s[0], score: outcome.1 }] + rest
        } else {
            rest
        }
    }
}

/// The visible rows of the collection, one more entry appended.
pub proof fn lemma_filter_rows_snoc(s: Seq<EntryView>, x: EntryView, filter: TaskFilter)
    ensures
        filter_rows(s.push(x), filter) == if filter.filter_spec(x.display_task()).0 {
            filter_rows(s, filter).push(
                RowView { entry: x, score: filter.filter_spec(x.display_task()).1 },
            )
        } else {
            filter_rows(s, filter)
        },
    decreases s.len(),
{
    if s.len() == 0 {
        assert(s.push(x)[0] == x);
        assert(s.push(x).drop_first() =~= Seq::<EntryView>::empty());
        assert(filter_rows(Seq::<EntryView>::empty(), filter) == Seq::<RowView>::empty());
        if filter.filter_spec(x.display_task()).0 {
            assert(filter_rows(s.push(x), filter) =~= filter_rows(s, filter).push(
                RowView { entry: x, score: filter.filter_spec(x.display_task()).1 },
            ));
        }
    } else {
        let tail = s.drop_first();
        assert(s.push(x)[0] == s[0]);
        assert(s.push(x).drop_first() =~= tail.push(x));
        lemma_filter_rows_snoc(tail, x, filter);
        if filter.filter_spec(x.display_task()).0 {
            assert(filter_rows(s.push(x), filter) =~= filter_rows(s, filter).push(
                RowView { entry: x, score: filter.filter_spec(x.display_task()).1 },
            ));
        } else {
            assert(filter_rows(s.push(x), filter) =~= filter_rows(s, filter));
        }
    }
}

/// A row inserted into a sorted run, before the first row it may precede:
/// equal-ranked rows keep their existing order.
pub open spec fn insert_row(sorter: TaskSorter, x: RowView, s: Seq<RowView>) -> Seq<RowView>
    decreases s.len(),
{
    if s.len() == 0 {
        seq![x]
    } else if row_le(sorter, x, s[0]) {
        seq![x] + s
    } else {
        seq![s[0]] + insert_row(sorter, x, s.drop_first())
    }
}

/// Insertion sort of the visible rows. Inserting each row before the first
/// row it may precede keeps equal-ranked rows in collection order, so the
/// sort is stable.
pub open spec fn sort_rows(sorter: TaskSorter, s: Seq<RowView>) -> Seq<RowView>
    decreases s.len(),
{
    if s.len() == 0 {
        Seq::empty()
    } else {
        insert_row(sorter, s[0], sort_rows(sorter, s.drop_first()))
    }
}

/// Whether the rows stand in order under `row_le`.
pub open spec fn sorted_rows(sorter: TaskSorter, s: Seq<RowView>) -> bool {
    forall|i: int, j: int| 0 <= i < j < s.len() ==> #[trigger] row_le(sorter, s[i], s[j])
}

/// Every row of an insertion is the inserted row or one of the run.
pub proof fn lemma_insert_row_membership(sorter: TaskSorter, x: RowView, s: Seq<RowView>)
    ensures
        insert_row(sorter, x, s).len() == s.len() + 1,
        forall|k: int|
            0 <= k < insert_row(sorter, x, s).len() ==> #[trigger] insert_row(sorter, x, s)[k]
                == x || s.contains(insert_row(sorter, x, s)[k]),
    decreases s.len(),
{
    let out = insert_row(sorter, x, s);
    if s.len() == 0 {
    } else if row_le(sorter, x, s[0]) {
        assert forall|k: int| 0 <= k < out.len() implies #[trigger] out[k] == x || s.contains(
            out[k],
        ) by {
            if k > 0 {
                assert(out[k] == s[k - 1]);
            }
        }
    } else {
        let tail = s.drop_first();
        lemma_insert_row_membership(sorter, x, tail);
        let rest = insert_row(sorter, x, tail);
        assert forall|k: int| 0 <= k < out.len() implies #[trigger] out[k] == x || s.contains(
            out[k],
        ) by {
            if k == 0 {
                assert(s.contains(s[0]));
            } else {
                assert(out[k] == rest[k - 1]);
                if rest[k - 1] != x {
                    assert(tail.contains(rest[k - 1]));
                    let m = choose|m: int| 0 <= m < tail.len() && tail[m] == rest[k - 1];
                    assert(s[m + 1] == rest[k - 1]);
                }
            }
        }
    }
}

/// Inserting into a sorted run keeps it sorted.
pub proof fn lemma_insert_row_sorted(sorter: TaskSorter, x: RowView, s: Seq<RowView>)
    requires
        sorted_rows(sorter, s),
    ensures
        sorted_rows(sorter, insert_row(sorter, x, s)),
    decreases s.len(),
{
    let out = insert_row(sorter, x, s);
    if s.len() == 0 {
    } else if row_le(sorter, x, s[0]) {
        assert forall|i: int, j: int| 0 <= i < j < out.len() implies #[trigger] row_le(
            sorter,
            out[i],
            out[j],
        ) by {
            if i == 0 {
                assert(out[j] == s[j - 1]);
                if j > 1 {
                    lemma_row_le_transitive(sorter, x, s[0], s[j - 1]);
                }
            } else {
                assert(out[i] == s[i - 1]);
                assert(out[j] == s[j - 1]);
            }
        }
    } else {
        let tail = s.drop_first();
        assert(forall|m: int| 0 <= m < tail.len() ==> tail[m] == s[m + 1]);
        lemma_insert_row_sorted(sorter, x, tail);
        lemma_insert_row_membership(sorter, x, tail);
        let rest = insert_row(sorter, x, tail);
        lemma_row_le_total(sorter, x, s[0]);
        assert forall|i: int, j: int| 0 <= i < j < out.len() implies #[trigger] row_le(
            sorter,
            out[i],
            out[j],
        ) by {
            if i == 0 {
                assert(out[j] == rest[j - 1]);
                if rest[j - 1] == x {
                    assert(row_le(sorter, s[0], x));
                } else {
                    assert(tail.contains(rest[j - 1]));
                    let m = choose|m: int| 0 <= m < tail.len() && tail[m] == rest[j - 1];
                    assert(row_le(sorter, s[0], s[m + 1]));
                }
            } else {
                assert(out[i] == rest[i - 1]);
                assert(out[j] == rest[j - 1]);
            }
        }
    }
}

/// The sorted rows are sorted.
pub proof fn lemma_sort_rows_sorted(sorter: TaskSorter, s: Seq<RowView>)
    ensures
        sorted_rows(sorter, sort_rows(sorter, s)),
    decreases s.len(),
{
    if s.len() > 0 {
        lemma_sort_rows_sorted(sorter, s.drop_first());
        lemma_insert_row_sorted(sorter, s[0], sort_rows(sorter, s.drop_first()));
    }
}

/// Inserting a row adds exactly that row to the run.
pub proof fn lemma_insert_row_permutes(sorter: TaskSorter, x: RowView, s: Seq<RowView>)
    ensures
        insert_row(sorter, x, s).to_multiset() == s.to_multiset().insert(x),
    decreases s.len(),
{
    broadcast use vstd::seq_lib::group_to_multiset_ensures;
    broadcast use vstd::multiset::group_multiset_axioms;

    assert(seq![x] =~= Seq::<RowView>::empty().push(x));
    if s.len() == 0 {
        assert(insert_row(sorter, x, s).to_multiset() =~= s.to_multiset().insert(x));
    } else if row_le(sorter, x, s[0]) {
        vstd::seq_lib::lemma_multiset_commutative(seq![x], s);
        assert(insert_row(sorter, x, s).to_multiset() =~= s.to_multiset().insert(x));
    } else {
        let tail = s.drop_first();
        lemma_insert_row_permutes(sorter, x, tail);
        vstd::seq_lib::lemma_multiset_commutative(seq![s[0]], insert_row(sorter, x, tail));
        assert(s =~= seq![s[0]] + tail);
        vstd::seq_lib::lemma_multiset_commutative(seq![s[0]], tail);
        assert(seq![s[0]] =~= Seq::<RowView>::empty().push(s[0]));
        assert(insert_row(sorter, x, s).to_multiset() =~= s.to_multiset().insert(x));
    }
}

/// Sorting permutes the visible rows: none is dropped, none is duplicated.
pub proof fn lemma_sort_rows_permutes(sorter: TaskSorter, s: Seq<RowView>)
    ensures
        sort_rows(sorter, s).to_multiset() == s.to_multiset(),
    decreases s.len(),
{
    broadcast use vstd::seq_lib::group_to_multiset_ensures;
    broadcast use vstd::multiset::group_multiset_axioms;

    if s.len() > 0 {
        let tail = s.drop_first();
        lemma_sort_rows_permutes(sorter, tail);
        lemma_insert_row_permutes(sorter, s[0], sort_rows(sorter, tail));
        assert(s =~= seq![s[0]] + tail);
        vstd::seq_lib::lemma_multiset_commutative(seq![s[0]], tail);
        assert(seq![s[0]] =~= Seq::<RowView>::empty().push(s[0]));
        assert(sort_rows(sorter, s).to_multiset() =~= s.to_multiset());
    }
}

/// The pipeline reorders the visible rows and does nothing else to them.
pub proof fn lemma_visible_permutes(v: ListView)
    ensures
        spec_visible(v).to_multiset() == filter_rows(v.entries, v.filter).to_multiset(),
{
    lemma_sort_rows_permutes(v.sorter, filter_rows(v.entries, v.filter));
}

/// The first position at which `x` may stand pins down the insertion.
pub proof fn lemma_insert_row_at(sorter: TaskSorter, x: RowView, s: Seq<RowView>, j: int)
    requires
        0 <= j <= s.len(),
        forall|k: int| 0 <= k < j ==> !#[trigger] row_le(sorter, x, s[k]),
        j < s.len() ==> row_le(sorter, x, s[j]),
    ensures
        insert_row(sorter, x, s) == s.subrange(0, j) + seq![x] + s.subrange(j, s.len() as int),
    decreases s.len(),
{
    if s.len() == 0 {
        assert(insert_row(sorter, x, s) =~= s.subrange(0, j) + seq![x] + s.subrange(
            j,
            s.len() as int,
        ));
    } else if j == 0 {
        assert(insert_row(sorter, x, s) =~= s.subrange(0, 0) + seq![x] + s.subrange(
            0,
            s.len() as int,
        ));
    } else {
        assert(!row_le(sorter, x, s[0]));
        let tail = s.drop_first();
        assert(forall|m: int| 0 <= m < tail.len() ==> tail[m] == s[m + 1]);
        lemma_insert_row_at(sorter, x, tail, j - 1);
        assert(insert_row(sorter, x, s) == seq![s[0]] + insert_row(sorter, x, tail));
        assert(insert_row(sorter, x, s) =~= s.subrange(0, j) + seq![x] + s.subrange(
            j,
            s.len() as int,
        ));
    }
}

/// The pipeline: the visible rows of the manager's collection, ordered.
pub open spec fn spec_visible(v: ListView) -> Seq<RowView> {
    sort_rows(v.sorter, filter_rows(v.entries, v.filter))
}

/// The pipeline's order is total, so its output is sorted.
pub proof fn lemma_visible_sorted(v: ListView)
    ensures
        sorted_rows(v.sorter, spec_visible(v)),
{
    lemma_sort_rows_sorted(v.sorter, filter_rows(v.entries, v.filter));
}

/// Exec counterpart of [`row_le`].
pub fn row_le_exec(sorter: &TaskSorter, a: &Row, b: &Row) -> (r: bool)
    ensures
        r == row_le(*sorter, a@, b@),
{
    if a.score > b.score {
        true
    } else if a.score == b.score {
        let ta = a.entry.display_task();
        let tb = b.entry.display_task();
        sorter.le(&ta, &tb)
    } else {
        false
    }
}

/// Insert a row into a sorted vector, before the first row it may precede.
fn insert_sorted(sorted: &mut Vec<Row>, x: Row, sorter: &TaskSorter)
    requires
        sorted_rows(*sorter, row_views_of(old(sorted)@)),
    ensures
        row_views_of(final(sorted)@) == insert_row(*sorter, x@, row_views_of(old(sorted)@)),
        sorted_rows(*sorter, row_views_of(final(sorted)@)),
{
    let ghost rv = row_views_of(sorted@);
    let ghost xv = x@;
    let mut j: usize = 0;
    let mut searching = true;
    while searching && j < sorted.len()
        invariant
            0 <= j <= sorted.len(),
            sorted@.len() == rv.len(),
            rv == row_views_of(sorted@),
            sorted@ == old(sorted)@,
            xv == x@,
            forall|k: int| 0 <= k < j ==> !#[trigger] row_le(*sorter, xv, rv[k]),
            !searching ==> j < sorted.len() && row_le(*sorter, xv, rv[j as int]),
        decreases sorted.len() - j + (if searching {
            1int
        } else {
            0int
        }),
    {
        proof {
            assert(rv[j as int] == sorted@[j as int]@);
        }
        if row_le_exec(sorter, &x, &sorted[j]) {
            searching = false;
        } else {
            j += 1;
        }
    }
    proof {
        lemma_insert_row_at(*sorter, xv, rv, j as int);
        lemma_insert_row_sorted(*sorter, xv, rv);
    }
    sorted.insert(j, x);
    proof {
        assert(row_views_of(sorted@) =~= rv.subrange(0, j as int) + seq![xv] + rv.subrange(
            j as int,
            rv.len() as int,
        ));
    }
}

/// Sort visible rows by the pipeline's order: descending relevance score,
/// ties decided by the sorter's criteria, equal-ranked rows kept in their
/// existing order.
pub fn sort_visible(rows: Vec<Row>, sorter: &TaskSorter) -> (r: Vec<Row>)
    ensures
        row_views_of(r@) == sort_rows(*sorter, row_views_of(rows@)),
        sorted_rows(*sorter, row_views_of(r@)),
{
    let mut rows = rows;
    let ghost all = row_views_of(rows@);
    let mut sorted: Vec<Row> = Vec::new();
    proof {
        assert(all.subrange(all.len() as int, all.len() as int) =~= Seq::<RowView>::empty());
        assert(row_views_of(sorted@) =~= sort_rows(
            *sorter,
            all.subrange(all.len() as int, all.len() as int),
        ));
        assert(all.subrange(0, all.len() as int) =~= all);
    }
    while rows.len() > 0
        invariant
            rows@.len() <= all.len(),
            row_views_of(rows@) == all.subrange(0, rows@.len() as int),
            row_views_of(sorted@) == sort_rows(
                *sorter,
                all.subrange(rows@.len() as int, all.len() as int),
            ),
            sorted_rows(*sorter, row_views_of(sorted@)),
        decreases rows.len(),
    {
        let ghost k = rows@.len() as int;
        let ghost rows_pre = rows@;
        let x = rows.pop().unwrap();
        proof {
            assert(x == rows_pre.last());
            assert(x@ == row_views_of(rows_pre)[k - 1]);
            assert(x@ == all[k - 1]);
            assert(row_views_of(rows@) =~= all.subrange(0, k - 1));
            let t = all.subrange(k - 1, all.len() as int);
            assert(t[0] == all[k - 1]);
            assert(t.drop_first() =~= all.subrange(k, all.len() as int));
        }
        insert_sorted(&mut sorted, x, sorter);
        proof {
            assert(row_views_of(sorted@) == sort_rows(
                *sorter,
                all.subrange(rows@.len() as int, all.len() as int),
            ));
        }
    }
    proof {
        assert(all.subrange(0, all.len() as int) =~= all);
    }
    sorted
}

impl AsyncList {
    /// The rendered projection: the visible rows, each carrying its entry's
    /// in-flight tag and relevance score, ordered by the pipeline. A pure
    /// function of the manager's state: re-running it on unchanged state
    /// yields the identical sequence.
    pub fn visible(&self) -> (r: Vec<Row>)
        ensures
            row_views_of(r@) == spec_visible(self@),
            sorted_rows(self@.sorter, row_views_of(r@)),
    {
        let entries = self.entries();
        let filter = self.filter();
        let sorter = self.sorter();
        let ghost s = self@.entries;
        let mut rows: Vec<Row> = Vec::new();
        proof {
            assert(row_views_of(rows@) =~= filter_rows(s.subrange(0, 0), filter));
        }
        let mut i: usize = 0;
        while i < entries.len()
            invariant
                0 <= i <= entries.len(),
                s == views_of(entries@),
                s.len() == entries@.len(),
                filter == self@.filter,
                row_views_of(rows@) == filter_rows(s.subrange(0, i as int), filter),
            decreases entries.len() - i,
        {
            let task = entries[i].display_task();
            let (vis, score) = filter.filter(&task);
            proof {
                assert(entries@[i as int]@ == s[i as int]);
                assert(s.subrange(0, (i + 1) as int) =~= s.subrange(0, i as int).push(
                    s[i as int],
                ));
                lemma_filter_rows_snoc(s.subrange(0, i as int), s[i as int], filter);
            }
            if vis {
                let row = Row { entry: entries[i].clone(), score };
                proof {
                    lemma_row_views_of_push(rows@, row);
                }
                rows.push(row);
            }
            proof {
                assert(row_views_of(rows@) == filter_rows(s.subrange(0, (i + 1) as int), filter));
            }
            i += 1;
        }
        proof {
            assert(s.subrange(0, s.len() as int) =~= s);
        }
        sort_visible(rows, &sorter)
    }
}

} // verus!
