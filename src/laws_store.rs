//! Proofs about the store operations.
use vstd::prelude::*;
use crate::codec::{encode_line, TaskView};
use crate::laws_codec::lemma_round_trip;
use crate::store::{data_rows, listed, listing, rows_without, task_views, StoreError};
use crate::codec::Task;
use crate::text::has_sub;

verus! {

/// Listing twice with no change in between gives the same outcome: what
/// `list_all` returns is fixed by the store's lines.
pub proof fn lemma_list_all_idempotent(
    lines: Seq<Seq<char>>,
    a: Result<Vec<Task>, StoreError>,
    b: Result<Vec<Task>, StoreError>,
)
    requires
        listed(lines, a),
        listed(lines, b),
    ensures
        a is Ok <==> b is Ok,
        a is Ok ==> task_views(a->Ok_0@) == task_views(b->Ok_0@),
        a is Err ==> a == b,
{
}

proof fn lemma_listing_push(rows: Seq<Seq<char>>, line: Seq<char>)
    ensures
        listing(rows.push(line)) == listing(rows) + match crate::codec::decode_line(line) {
            Some(t) => seq![t],
            None => Seq::empty(),
        },
{
    assert(rows.push(line).drop_last() =~= rows);
}

/// Appending a created task's line to a store that holds its header makes the
/// decoded rows grow by exactly one task, which carries the created task's id,
/// title, description and an unset completion flag; the earlier tasks stay.
pub proof fn lemma_create_appends(lines: Seq<Seq<char>>, t: TaskView)
    requires
        lines.len() >= 1,
        !t.completed,
    ensures
        ({
            let before = listing(data_rows(lines));
            let after = listing(data_rows(lines.push(encode_line(t))));
            &&& after.len() == before.len() + 1
            &&& after.drop_last() == before
            &&& after.last().id == t.id
            &&& after.last().title == t.title
            &&& after.last().description == t.description
            &&& !after.last().completed
        }),
{
    assert(data_rows(lines.push(encode_line(t))) =~= data_rows(lines).push(encode_line(t)));
    lemma_listing_push(data_rows(lines), encode_line(t));
    lemma_round_trip(t);
    let before = listing(data_rows(lines));
    let after = listing(data_rows(lines.push(encode_line(t))));
    assert(after.drop_last() =~= before);
}

/// Deleting by `key` keeps the header first, as it was, and after it exactly
/// the data rows that do not contain `key`, in their original order: no kept
/// row contains `key`, and every row without it is kept.
pub proof fn lemma_delete_complete(lines: Seq<Seq<char>>, key: Seq<char>)
    requires
        lines.len() >= 1,
    ensures
        ({
            let after = seq![lines[0]] + rows_without(lines.drop_first(), key);
            &&& after[0] == lines[0]
            &&& after.drop_first() == lines.drop_first().filter(|l: Seq<char>| !has_sub(l, key))
            &&& forall|i: int| 1 <= i < after.len() ==> !has_sub(#[trigger] after[i], key)
            &&& forall|i: int|
                1 <= i < lines.len() && !has_sub(lines[i], key) ==> after.drop_first().contains(
                    #[trigger] lines[i],
                )
        }),
{
    let rows = lines.drop_first();
    let pred = |l: Seq<char>| !has_sub(l, key);
    let after = seq![lines[0]] + rows_without(rows, key);
    lemma_without_is_filter(rows, key);
    assert(after.drop_first() =~= rows_without(rows, key));
    broadcast use vstd::seq_lib::group_filter_ensures;
    assert forall|i: int| 1 <= i < lines.len() && !has_sub(lines[i], key) implies after.drop_first().contains(
        #[trigger] lines[i],
    ) by {
        assert(rows[i - 1] == lines[i]);
        rows.lemma_filter_contains(pred, i - 1);
    }
    assert forall|i: int| 1 <= i < after.len() implies !has_sub(#[trigger] after[i], key) by {
        assert(after[i] == rows_without(rows, key)[i - 1]);
        rows.lemma_filter_pred(pred, i - 1);
    }
}

proof fn lemma_without_is_filter(lines: Seq<Seq<char>>, key: Seq<char>)
    ensures
        rows_without(lines, key) == lines.filter(|l: Seq<char>| !has_sub(l, key)),
    decreases lines.len(),
{
    reveal(Seq::filter);
    let pred = |l: Seq<char>| !has_sub(l, key);
    if lines.len() > 0 {
        lemma_without_is_filter(lines.drop_last(), key);
        assert(lines.filter(pred) == if pred(lines.last()) {
            lines.drop_last().filter(pred).push(lines.last())
        } else {
            lines.drop_last().filter(pred)
        });
    }
}

/// After deleting everything only the header line is left, as it was, and no
/// task is listed from the rows.
pub proof fn lemma_delete_all_empties(lines: Seq<Seq<char>>)
    requires
        lines.len() >= 1,
    ensures
        data_rows(seq![lines[0]]).len() == 0,
        listing(data_rows(seq![lines[0]])) == Seq::<TaskView>::empty(),
{
    assert(data_rows(seq![lines[0]]) =~= Seq::<Seq<char>>::empty());
}

} // verus!
