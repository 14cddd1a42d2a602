//! Proofs about toggling a task's completion: the row keeps every character
//! but its flag field, and decodes to the same task with the flag flipped.
use vstd::prelude::*;
use crate::codec::{
    decode_line, fields_from, flag_text, join_fields, quote_field, segments, unescape, unquote,
    TaskView,
};
use crate::laws_codec::{lemma_clean_quoted, lemma_flag_read_back};
use crate::store::{toggle_line, with_flag};
use crate::text::{has_sub, occurs_at};

verus! {

/// `s` holds no `c`.
pub open spec fn lacks(s: Seq<char>, c: char) -> bool {
    forall|j: int| 0 <= j < s.len() ==> s[j] != c
}

/// Scanning `s` from the inside-quotes flag `inq`: the flag at its end, or
/// `None` where a comma outside quotes would end the field.
pub open spec fn run(s: Seq<char>, inq: bool) -> Option<bool>
    decreases s.len(),
{
    if s.len() == 0 {
        Some(inq)
    } else if s[0] == ',' && !inq {
        None
    } else {
        run(
            s.drop_first(),
            if s[0] == '"' {
                !inq
            } else {
                inq
            },
        )
    }
}

proof fn lemma_run_push(s: Seq<char>, inq: bool, e: bool, c: char)
    requires
        run(s, inq) == Some(e),
        !(c == ',' && !e),
    ensures
        run(s.push(c), inq) == Some(
            if c == '"' {
                !e
            } else {
                e
            },
        ),
    decreases s.len(),
{
    if s.len() == 0 {
        assert(e == inq);
        assert(s.push(c) =~= seq![c]);
        assert(s.push(c).drop_first() =~= Seq::<char>::empty());
        let n = if c == '"' {
            !inq
        } else {
            inq
        };
        assert(run(Seq::<char>::empty(), n) == Some(n));
    } else {
        assert(s.push(c)[0] == s[0]);
        assert(s.push(c).drop_first() =~= s.drop_first().push(c));
        lemma_run_push(s.drop_first(), if s[0] == '"' {
            !inq
        } else {
            inq
        }, e, c);
    }
}

proof fn lemma_fields_run(s: Seq<char>, rest: Seq<char>, cur: Seq<char>, inq: bool, e: bool)
    requires
        run(s, inq) == Some(e),
    ensures
        fields_from(s + rest, cur, inq, true) == fields_from(rest, cur + s, e, true),
    decreases s.len(),
{
    if s.len() == 0 {
        assert(s + rest =~= rest);
        assert(cur + s =~= cur);
    } else {
        assert((s + rest).drop_first() =~= s.drop_first() + rest);
        assert((s + rest)[0] == s[0]);
        lemma_fields_run(s.drop_first(), rest, cur.push(s[0]), if s[0] == '"' {
            !inq
        } else {
            inq
        }, e);
        assert(cur.push(s[0]) + s.drop_first() =~= cur + s);
    }
}

/// Raw fields that scan back to themselves: every field but the last ends
/// outside quotes, and none holds a comma outside quotes.
pub open spec fn well_split(segs: Seq<Seq<char>>) -> bool {
    &&& segs.len() >= 1
    &&& forall|i: int| 0 <= i < segs.len() - 1 ==> run(#[trigger] segs[i], false) == Some(false)
    &&& run(segs.last(), false) is Some
}

proof fn lemma_fields_from_split(s: Seq<char>, cur: Seq<char>, inq: bool)
    requires
        run(cur, false) == Some(inq),
    ensures
        well_split(fields_from(s, cur, inq, true)),
        join_fields(fields_from(s, cur, inq, true)) == cur + s,
    decreases s.len(),
{
    let r = fields_from(s, cur, inq, true);
    if s.len() == 0 {
        assert(cur + s =~= cur);
    } else if s[0] == ',' && !inq {
        let e = Seq::<char>::empty();
        lemma_fields_from_split(s.drop_first(), e, false);
        let tail = fields_from(s.drop_first(), e, false, true);
        assert(r == seq![cur] + tail);
        assert(r.drop_first() =~= tail);
        assert(r[0] == cur);
        assert forall|i: int| 0 <= i < r.len() - 1 implies run(#[trigger] r[i], false) == Some(
            false,
        ) by {
            if i > 0 {
                assert(r[i] == tail[i - 1]);
            }
        }
        assert(r.last() == tail.last());
        assert(e + s.drop_first() =~= s.drop_first());
        assert(cur + seq![','] + s.drop_first() =~= cur + s);
    } else {
        let ninq = if s[0] == '"' {
            !inq
        } else {
            inq
        };
        lemma_run_push(cur, false, inq, s[0]);
        lemma_fields_from_split(s.drop_first(), cur.push(s[0]), ninq);
        assert(cur.push(s[0]) + s.drop_first() =~= cur + s);
    }
}

/// A row is its raw fields joined by commas, and those fields split well.
pub proof fn lemma_rejoin(line: Seq<char>)
    ensures
        well_split(segments(line, true)),
        join_fields(segments(line, true)) == line,
{
    lemma_fields_from_split(line, Seq::empty(), false);
    assert(Seq::<char>::empty() + line =~= line);
}

proof fn lemma_resplit(segs: Seq<Seq<char>>)
    requires
        well_split(segs),
    ensures
        segments(join_fields(segs), true) == segs,
    decreases segs.len(),
{
    let e = Seq::<char>::empty();
    if segs.len() == 1 {
        let x = run(segs[0], false)->Some_0;
        lemma_fields_run(segs[0], e, e, false, x);
        assert(segs[0] + e =~= segs[0]);
        assert(e + segs[0] =~= segs[0]);
        assert(segs =~= seq![segs[0]]);
    } else {
        let tail = segs.drop_first();
        assert forall|i: int| 0 <= i < tail.len() - 1 implies run(#[trigger] tail[i], false)
            == Some(false) by {
            assert(tail[i] == segs[i + 1]);
        }
        assert(tail.last() == segs.last());
        lemma_resplit(tail);
        let j = join_fields(tail);
        assert(run(segs[0], false) == Some(false));
        lemma_fields_run(segs[0], seq![','] + j, e, false, false);
        assert(join_fields(segs) =~= segs[0] + (seq![','] + j));
        assert(e + segs[0] =~= segs[0]);
        let y = seq![','] + j;
        assert(y[0] == ',');
        assert(y.drop_first() =~= j);
        assert(segs =~= seq![segs[0]] + tail);
    }
}

proof fn lemma_flag_runs(completed: bool)
    ensures
        run(quote_field(flag_text(completed)), false) == Some(false),
{
    reveal_with_fuel(crate::codec::escape, 4);
    reveal_with_fuel(run, 6);
    let q = quote_field(flag_text(completed));
    if completed {
        assert(q =~= seq!['"', 'Y', 'e', 's', '"']);
        assert(q.drop_first().drop_first().drop_first().drop_first() =~= seq!['"']);
    } else {
        assert(q =~= seq!['"', 'N', 'o', '"']);
        assert(q.drop_first().drop_first().drop_first() =~= seq!['"']);
    }
    assert(seq!['"'].drop_first() =~= Seq::<char>::empty());
}

/// Setting the flag field of a row that decodes to `t` gives a row that
/// splits into the same raw fields but the fifth, and decodes to `t` with the
/// given completion.
pub proof fn lemma_with_flag(line: Seq<char>, t: TaskView, completed: bool)
    requires
        decode_line(line) == Some(t),
    ensures
        segments(with_flag(line, completed), true) == segments(line, true).update(
            4,
            quote_field(flag_text(completed)),
        ),
        decode_line(with_flag(line, completed)) == Some(TaskView { completed, ..t }),
{
    let segs = segments(line, true);
    let q = quote_field(flag_text(completed));
    let upd = segs.update(4, q);
    lemma_rejoin(line);
    lemma_flag_runs(completed);
    assert forall|i: int| 0 <= i < upd.len() - 1 implies run(#[trigger] upd[i], false) == Some(
        false,
    ) by {
        if i != 4 {
            assert(upd[i] == segs[i]);
        }
    }
    if upd.len() - 1 != 4 {
        assert(upd.last() == segs.last());
    }
    lemma_resplit(upd);
    lemma_flag_read_back(completed);
    lemma_clean_quoted(flag_text(completed));
}

/// Toggle correctness: toggling by a key found in a data row that decodes to
/// `t` changes only the row's flag field, and the row then decodes to `t` with
/// its completion flipped.
pub proof fn lemma_toggle_flips(line: Seq<char>, key: Seq<char>, t: TaskView)
    requires
        decode_line(line) == Some(t),
        has_sub(line, key),
    ensures
        toggle_line(line, key) == with_flag(line, !t.completed),
        join_fields(segments(line, true)) == line,
        decode_line(toggle_line(line, key)) == Some(TaskView { completed: !t.completed, ..t }),
{
    lemma_rejoin(line);
    lemma_with_flag(line, t, !t.completed);
}

proof fn lemma_unescape_plain(x: Seq<char>)
    requires
        lacks(unescape(x), '"'),
    ensures
        unescape(x) == x,
    decreases x.len(),
{
    if x.len() > 0 {
        if x.len() >= 2 && x[0] == '"' && x[1] == '"' {
            assert(unescape(x)[0] == '"');
        } else {
            assert(unescape(x)[0] == x[0]);
            let u = unescape(x.drop_first());
            assert forall|j: int| 0 <= j < u.len() implies u[j] != '"' by {
                assert(unescape(x)[j + 1] == u[j]);
            }
            lemma_unescape_plain(x.drop_first());
            assert(x =~= seq![x[0]] + x.drop_first());
        }
    }
}

/// Toggling twice by the task's own id restores the task: the row then holds
/// the task's original flag, every other character as it was, and decodes to
/// `t`. A row whose flag field was already in the stored form `"Yes"` or `"No"`
/// comes back letter for letter. (An id holding a double quote is read from a
/// doubled quote, so the id is not found verbatim in its row.)
pub proof fn lemma_toggle_twice(line: Seq<char>, t: TaskView)
    requires
        decode_line(line) == Some(t),
        has_sub(line, t.id),
        lacks(t.id, '"'),
    ensures
        toggle_line(toggle_line(line, t.id), t.id) == with_flag(line, t.completed),
        decode_line(toggle_line(toggle_line(line, t.id), t.id)) == Some(t),
        segments(line, true)[4] == quote_field(flag_text(t.completed)) ==> toggle_line(
            toggle_line(line, t.id),
            t.id,
        ) == line,
{
    let segs = segments(line, true);
    let flipped = TaskView { completed: !t.completed, ..t };
    lemma_toggle_flips(line, t.id, t);
    let once = with_flag(line, !t.completed);
    lemma_with_flag(line, t, !t.completed);
    let segs1 = segs.update(4, quote_field(flag_text(!t.completed)));
    // The id stands in the first raw field, which the first toggle keeps.
    let u = unquote(segs[0]);
    lemma_unescape_plain(u);
    let s0 = segs[0];
    let a: int = if s0.len() > 0 && s0[0] == '"' {
        1
    } else {
        0
    };
    assert(u == s0.subrange(a, a + u.len()));
    assert(segs1[0] == s0);
    assert(join_fields(segs1) =~= s0 + seq![','] + join_fields(segs1.drop_first()));
    assert(once.subrange(a, a + t.id.len()) =~= t.id);
    assert(occurs_at(once, t.id, a));
    lemma_with_flag(once, flipped, t.completed);
    assert(TaskView { completed: t.completed, ..flipped } == t);
    assert(segs1.update(4, quote_field(flag_text(t.completed))) =~= segs.update(
        4,
        quote_field(flag_text(t.completed)),
    ));
    if segs[4] == quote_field(flag_text(t.completed)) {
        assert(segs.update(4, quote_field(flag_text(t.completed))) =~= segs);
        lemma_rejoin(line);
    }
}

} // verus!
