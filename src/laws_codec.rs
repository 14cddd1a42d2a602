//! Proofs about the codec: an encoded task decodes back to itself.
use vstd::prelude::*;
use crate::codec::{
    clean_field, decode_line, encode_line, escape, fields_from, flag_text, quote_field, segments,
    unescape, unquote, yes_text, TaskView,
};
use crate::text::{strip_back, strip_front, trim_white};

verus! {

proof fn lemma_fields_escape(f: Seq<char>, s: Seq<char>, cur: Seq<char>)
    ensures
        fields_from(escape(f) + s, cur, true, true) == fields_from(s, cur + escape(f), true, true),
    decreases f.len(),
{
    let x = escape(f) + s;
    if f.len() == 0 {
        assert(x =~= s);
        assert(cur + escape(f) =~= cur);
    } else {
        let g = f.drop_first();
        lemma_fields_escape(g, s, if f[0] == '"' {
            cur + seq!['"', '"']
        } else {
            cur.push(f[0])
        });
        if f[0] == '"' {
            let y = x.drop_first();
            assert(x[0] == '"');
            assert(y[0] == '"');
            assert(y.drop_first() =~= escape(g) + s);
            assert(cur.push('"').push('"') =~= cur + seq!['"', '"']);
            assert(fields_from(y, cur.push('"'), false, true) == fields_from(
                y.drop_first(),
                cur.push('"').push('"'),
                true,
                true,
            ));
            assert(cur + seq!['"', '"'] + escape(g) =~= cur + escape(f));
        } else {
            assert(x[0] == f[0]);
            assert(x.drop_first() =~= escape(g) + s);
            assert(cur.push(f[0]) + escape(g) =~= cur + escape(f));
        }
    }
}

proof fn lemma_fields_quoted(f: Seq<char>, s: Seq<char>)
    ensures
        fields_from(quote_field(f) + s, Seq::empty(), false, true) == fields_from(
            s,
            quote_field(f),
            false,
            true,
        ),
{
    let x = quote_field(f) + s;
    assert(x[0] == '"');
    assert(x.drop_first() =~= escape(f) + (seq!['"'] + s));
    assert(Seq::<char>::empty().push('"') =~= seq!['"']);
    lemma_fields_escape(f, seq!['"'] + s, seq!['"']);
    let y = seq!['"'] + s;
    assert(y[0] == '"');
    assert(y.drop_first() =~= s);
    assert((seq!['"'] + escape(f)).push('"') =~= quote_field(f));
}

proof fn lemma_field_then_rest(f: Seq<char>, rest: Seq<char>)
    ensures
        fields_from(quote_field(f) + seq![','] + rest, Seq::empty(), false, true) == seq![
            quote_field(f),
        ] + fields_from(rest, Seq::empty(), false, true),
{
    assert(quote_field(f) + seq![','] + rest =~= quote_field(f) + (seq![','] + rest));
    lemma_fields_quoted(f, seq![','] + rest);
    let y = seq![','] + rest;
    assert(y[0] == ',');
    assert(y.drop_first() =~= rest);
}

proof fn lemma_last_field(f: Seq<char>)
    ensures
        fields_from(quote_field(f), Seq::empty(), false, true) == seq![quote_field(f)],
{
    assert(quote_field(f) + Seq::<char>::empty() =~= quote_field(f));
    lemma_fields_quoted(f, Seq::empty());
}

/// The raw fields of an encoded line are the five quoted fields.
pub proof fn lemma_segments_of_encoding(t: TaskView)
    ensures
        segments(encode_line(t), true) == seq![
            quote_field(t.id),
            quote_field(t.title),
            quote_field(t.description),
            quote_field(t.date),
            quote_field(flag_text(t.completed)),
        ],
{
    let q4 = quote_field(flag_text(t.completed));
    let r3 = quote_field(t.date) + seq![','] + q4;
    let r2 = quote_field(t.description) + seq![','] + r3;
    let r1 = quote_field(t.title) + seq![','] + r2;
    assert(encode_line(t) =~= quote_field(t.id) + seq![','] + r1);
    lemma_field_then_rest(t.id, r1);
    lemma_field_then_rest(t.title, r2);
    lemma_field_then_rest(t.description, r3);
    lemma_field_then_rest(t.date, q4);
    lemma_last_field(flag_text(t.completed));
    assert(segments(encode_line(t), true) =~= seq![
        quote_field(t.id),
        quote_field(t.title),
        quote_field(t.description),
        quote_field(t.date),
        q4,
    ]);
}

proof fn lemma_unescape_escape(f: Seq<char>, s: Seq<char>)
    ensures
        unescape(escape(f) + s) == f + unescape(s),
    decreases f.len(),
{
    let x = escape(f) + s;
    if f.len() == 0 {
        assert(x =~= s);
        assert(f + unescape(s) =~= unescape(s));
    } else {
        let g = f.drop_first();
        lemma_unescape_escape(g, s);
        if f[0] == '"' {
            assert(x[0] == '"' && x[1] == '"');
            assert(x.subrange(2, x.len() as int) =~= escape(g) + s);
        } else {
            assert(x[0] == f[0]);
            assert(x.drop_first() =~= escape(g) + s);
        }
        assert(f =~= seq![f[0]] + g);
        assert(seq![f[0]] + (g + unescape(s)) =~= f + unescape(s));
    }
}

/// Every field is read back as it was written.
pub proof fn lemma_clean_quoted(f: Seq<char>)
    ensures
        clean_field(quote_field(f)) == f,
{
    let q = quote_field(f);
    assert(unquote(q) =~= escape(f));
    assert(escape(f) + Seq::<char>::empty() =~= escape(f));
    lemma_unescape_escape(f, Seq::empty());
    assert(unescape(Seq::<char>::empty()) =~= Seq::<char>::empty());
    assert(f + Seq::<char>::empty() =~= f);
}

pub proof fn lemma_flag_read_back(completed: bool)
    ensures
        (trim_white(clean_field(quote_field(flag_text(completed)))) == yes_text()) == completed,
{
    let f = flag_text(completed);
    lemma_clean_quoted(f);
    assert(f.drop_first().drop_first() =~= if completed { seq!['s'] } else { Seq::<char>::empty() });
    reveal_with_fuel(strip_front, 2);
    reveal_with_fuel(strip_back, 2);
    assert(strip_front(f) == f);
    assert(strip_back(f) == f);
    if !completed {
        assert(f.len() != yes_text().len());
    }
}

/// Round trip: any task, whose text fields may hold commas and double quotes
/// anywhere, decodes from its encoding to itself.
pub proof fn lemma_round_trip(t: TaskView)
    ensures
        decode_line(encode_line(t)) == Some(t),
{
    lemma_segments_of_encoding(t);
    lemma_flag_read_back(t.completed);
    lemma_clean_quoted(t.id);
    lemma_clean_quoted(t.title);
    lemma_clean_quoted(t.description);
    lemma_clean_quoted(t.date);
}

} // verus!
