//! The record codec: one task per line, five quoted fields.
use vstd::prelude::*;
use crate::text::{
    chars_of, contains_str, has_sub, is_white_char, string_of, strip_back, strip_front, trim_white,
};

verus! {

/// One to-do entry.
pub struct Task {
    pub id: String,
    pub title: String,
    pub description: String,
    pub date: String,
    pub completed: bool,
}

/// The mathematical value of a `Task`.
pub ghost struct TaskView {
    pub id: Seq<char>,
    pub title: Seq<char>,
    pub description: Seq<char>,
    pub date: Seq<char>,
    pub completed: bool,
}

impl View for Task {
    type V = TaskView;

    open spec fn view(&self) -> TaskView {
        TaskView {
            id: self.id@,
            title: self.title@,
            description: self.description@,
            date: self.date@,
            completed: self.completed,
        }
    }
}

/// Why a line does not decode to a task.
#[derive(Debug, PartialEq, Eq, Structural)]
pub enum DecodeError {
    /// The line holds fewer than five fields.
    TooFewFields,
}

impl Task {
    /// A task that is not yet completed.
    pub fn new(id: String, title: String, description: String, date: String) -> (r: Task)
        ensures
            r@ == (TaskView {
                id: id@,
                title: title@,
                description: description@,
                date: date@,
                completed: false,
            }),
    {
        Task { id, title, description, date, completed: false }
    }
}

// ----- encoding -----

/// The field text with every double quote doubled.
pub open spec fn escape(f: Seq<char>) -> Seq<char>
    decreases f.len(),
{
    if f.len() == 0 {
        f
    } else if f[0] == '"' {
        seq!['"', '"'] + escape(f.drop_first())
    } else {
        seq![f[0]] + escape(f.drop_first())
    }
}

/// The field as stored: escaped and wrapped in double quotes.
pub open spec fn quote_field(f: Seq<char>) -> Seq<char> {
    seq!['"'] + escape(f) + seq!['"']
}

/// The stored text of the completion flag.
pub open spec fn flag_text(completed: bool) -> Seq<char> {
    if completed {
        seq!['Y', 'e', 's']
    } else {
        seq!['N', 'o']
    }
}

/// The stored line of a task, without its terminator.
pub open spec fn encode_line(t: TaskView) -> Seq<char> {
    quote_field(t.id) + seq![','] + quote_field(t.title) + seq![','] + quote_field(
        t.description,
    ) + seq![','] + quote_field(t.date) + seq![','] + quote_field(flag_text(t.completed))
}

proof fn lemma_escape_concat(a: Seq<char>, b: Seq<char>)
    ensures
        escape(a + b) == escape(a) + escape(b),
    decreases a.len(),
{
    if a.len() == 0 {
        assert(a + b =~= b);
    } else {
        assert((a + b).drop_first() =~= a.drop_first() + b);
        lemma_escape_concat(a.drop_first(), b);
        assert((a + b)[0] == a[0]);
        if a[0] == '"' {
            assert(escape(a + b) =~= escape(a) + escape(b));
        } else {
            assert(escape(a + b) =~= escape(a) + escape(b));
        }
    }
}

proof fn lemma_escape_one(c: char)
    ensures
        escape(seq![c]) == (if c == '"' {
            seq!['"', '"']
        } else {
            seq![c]
        }),
{
    assert(seq![c].drop_first() =~= Seq::<char>::empty());
    reveal_with_fuel(escape, 2);
    assert(escape(seq![c]) =~= (if c == '"' {
        seq!['"', '"']
    } else {
        seq![c]
    }));
}

/// Appends the stored form of the field `f` to `out`.
pub(crate) fn push_quoted(out: &mut Vec<char>, f: &str)
    ensures
        final(out)@ == old(out)@ + quote_field(f@),
{
    let v = chars_of(f);
    let ghost out0 = out@;
    out.push('"');
    let mut i: usize = 0;
    while i < v.len()
        invariant
            i <= v@.len(),
            v@ == f@,
            out@ == out0 + seq!['"'] + escape(v@.subrange(0, i as int)),
        decreases v@.len() - i,
    {
        let c = v[i];
        proof {
            assert(v@.subrange(0, i + 1) =~= v@.subrange(0, i as int) + seq![c]);
            lemma_escape_concat(v@.subrange(0, i as int), seq![c]);
            lemma_escape_one(c);
        }
        if c == '"' {
            out.push('"');
            out.push('"');
        } else {
            out.push(c);
        }
        i += 1;
        assert(out@ =~= out0 + seq!['"'] + escape(v@.subrange(0, i as int)));
    }
    assert(v@.subrange(0, v@.len() as int) =~= f@);
    out.push('"');
    assert(out@ =~= out0 + quote_field(f@));
}

/// The stored line of `t`: its five fields quoted, escaped and joined by commas.
pub fn encode(t: &Task) -> (r: String)
    ensures
        r@ == encode_line(t@),
{
    let mut out: Vec<char> = Vec::new();
    push_quoted(&mut out, t.id.as_str());
    out.push(',');
    push_quoted(&mut out, t.title.as_str());
    out.push(',');
    push_quoted(&mut out, t.description.as_str());
    out.push(',');
    push_quoted(&mut out, t.date.as_str());
    out.push(',');
    let flag = if t.completed {
        "Yes"
    } else {
        "No"
    };
    proof {
        reveal_strlit("Yes");
        reveal_strlit("No");
        assert(flag@ =~= flag_text(t.completed));
    }
    push_quoted(&mut out, flag);
    let n = out.len();
    let r = string_of(&out, 0, n);
    assert(out@.subrange(0, n as int) =~= out@);
    assert(r@ =~= encode_line(t@));
    r
}

// ----- decoding -----

/// The raw fields of `s`, continuing a field `cur` already begun. A comma
/// separates fields unless `aware` is set and it stands inside quotes; each
/// double quote flips the inside-quotes flag `inq`.
pub open spec fn fields_from(s: Seq<char>, cur: Seq<char>, inq: bool, aware: bool) -> Seq<
    Seq<char>,
>
    decreases s.len(),
{
    if s.len() == 0 {
        seq![cur]
    } else if s[0] == ',' && !(aware && inq) {
        seq![cur] + fields_from(s.drop_first(), Seq::empty(), inq, aware)
    } else {
        fields_from(
            s.drop_first(),
            cur.push(s[0]),
            if aware && s[0] == '"' {
                !inq
            } else {
                inq
            },
            aware,
        )
    }
}

/// The raw fields of a line, quotes left in place.
pub open spec fn segments(s: Seq<char>, aware: bool) -> Seq<Seq<char>> {
    fields_from(s, Seq::empty(), false, aware)
}

/// Raw fields joined by commas: the inverse of `segments`.
pub open spec fn join_fields(segs: Seq<Seq<char>>) -> Seq<char>
    decreases segs.len(),
{
    if segs.len() == 0 {
        Seq::empty()
    } else if segs.len() == 1 {
        segs[0]
    } else {
        segs[0] + seq![','] + join_fields(segs.drop_first())
    }
}

pub proof fn lemma_join_push(segs: Seq<Seq<char>>, x: Seq<char>)
    requires
        segs.len() >= 1,
    ensures
        join_fields(segs.push(x)) == join_fields(segs) + seq![','] + x,
    decreases segs.len(),
{
    assert(segs.push(x).drop_first() =~= segs.drop_first().push(x));
    assert(segs.push(x)[0] == segs[0]);
    if segs.len() == 1 {
        assert(segs.drop_first().push(x) =~= seq![x]);
        assert(join_fields(seq![x]) == x);
    } else {
        lemma_join_push(segs.drop_first(), x);
        assert(join_fields(segs.push(x)) =~= join_fields(segs) + seq![','] + x);
    }
}

/// `s` with each doubled double quote, taken from the left, made single.
pub open spec fn unescape(s: Seq<char>) -> Seq<char>
    decreases s.len(),
{
    if s.len() == 0 {
        s
    } else if s.len() >= 2 && s[0] == '"' && s[1] == '"' {
        seq!['"'] + unescape(s.subrange(2, s.len() as int))
    } else {
        seq![s[0]] + unescape(s.drop_first())
    }
}

/// A raw field without one enclosing double quote at each end, where it has one.
pub open spec fn unquote(seg: Seq<char>) -> Seq<char> {
    let a: int = if seg.len() > 0 && seg[0] == '"' {
        1
    } else {
        0
    };
    let b: int = if seg.len() > a && seg.last() == '"' {
        seg.len() - 1
    } else {
        seg.len() as int
    };
    seg.subrange(a, b)
}

/// A raw field made into its value: enclosing quotes removed, then unescaped.
pub open spec fn clean_field(seg: Seq<char>) -> Seq<char> {
    unescape(unquote(seg))
}

/// The text `Yes`.
pub open spec fn yes_text() -> Seq<char> {
    seq!['Y', 'e', 's']
}

/// The task that `line` decodes to, or `None` where it holds fewer than five fields.
pub open spec fn decode_line(line: Seq<char>) -> Option<TaskView> {
    let segs = segments(line, true);
    if segs.len() < 5 {
        None
    } else {
        Some(
            TaskView {
                id: clean_field(segs[0]),
                title: clean_field(segs[1]),
                description: clean_field(segs[2]),
                date: clean_field(segs[3]),
                completed: trim_white(clean_field(segs[4])) == yes_text(),
            },
        )
    }
}

/// The character sequences of a sequence of character vectors.
pub open spec fn views(v: Seq<Vec<char>>) -> Seq<Seq<char>> {
    v.map_values(|x: Vec<char>| x@)
}

/// Splits `v` into raw fields; see `segments`.
pub fn split_fields(v: &Vec<char>, aware: bool) -> (r: Vec<Vec<char>>)
    ensures
        views(r@) == segments(v@, aware),
{
    let mut done: Vec<Vec<char>> = Vec::new();
    let mut cur: Vec<char> = Vec::new();
    let mut inq = false;
    let mut i: usize = 0;
    assert(v@.subrange(0, v@.len() as int) =~= v@);
    assert(views(done@) + segments(v@, aware) =~= segments(v@, aware));
    while i < v.len()
        invariant
            i <= v@.len(),
            views(done@) + fields_from(v@.subrange(i as int, v@.len() as int), cur@, inq, aware)
                == segments(v@, aware),
        decreases v@.len() - i,
    {
        let ghost rest = v@.subrange(i as int, v@.len() as int);
        let ghost d0 = views(done@);
        let c = v[i];
        assert(rest.drop_first() =~= v@.subrange(i + 1, v@.len() as int));
        assert(rest[0] == c);
        if c == ',' && !(aware && inq) {
            let piece = cur;
            cur = Vec::new();
            done.push(piece);
            assert(views(done@) =~= d0.push(piece@));
            assert(cur@ =~= Seq::<char>::empty());
            assert(d0 + (seq![piece@] + fields_from(
                v@.subrange(i + 1, v@.len() as int),
                cur@,
                inq,
                aware,
            )) =~= views(done@) + fields_from(
                v@.subrange(i + 1, v@.len() as int),
                cur@,
                inq,
                aware,
            ));
        } else {
            cur.push(c);
            if aware && c == '"' {
                inq = !inq;
            }
        }
        i += 1;
    }
    let ghost d0 = views(done@);
    assert(v@.subrange(i as int, v@.len() as int) =~= Seq::<char>::empty());
    done.push(cur);
    assert(views(done@) =~= d0.push(cur@));
    assert(views(done@) =~= segments(v@, aware));
    done
}

/// `s` with each doubled double quote made single; see `unescape`.
fn unescape_exec(s: &Vec<char>) -> (r: Vec<char>)
    ensures
        r@ == unescape(s@),
{
    let mut r: Vec<char> = Vec::new();
    let mut i: usize = 0;
    assert(s@.subrange(0, s@.len() as int) =~= s@);
    while i < s.len()
        invariant
            i <= s@.len(),
            r@ + unescape(s@.subrange(i as int, s@.len() as int)) == unescape(s@),
        decreases s@.len() - i,
    {
        let ghost rest = s@.subrange(i as int, s@.len() as int);
        let ghost r0 = r@;
        if i + 1 < s.len() && s[i] == '"' && s[i + 1] == '"' {
            assert(rest.subrange(2, rest.len() as int) =~= s@.subrange(i + 2, s@.len() as int));
            r.push('"');
            i += 2;
            assert(r0 + (seq!['"'] + unescape(s@.subrange(i as int, s@.len() as int))) =~= r@
                + unescape(s@.subrange(i as int, s@.len() as int)));
        } else {
            assert(rest.drop_first() =~= s@.subrange(i + 1, s@.len() as int));
            r.push(s[i]);
            i += 1;
            assert(r0 + (seq![rest[0]] + unescape(s@.subrange(i as int, s@.len() as int))) =~= r@
                + unescape(s@.subrange(i as int, s@.len() as int)));
        }
    }
    assert(s@.subrange(i as int, s@.len() as int) =~= Seq::<char>::empty());
    assert(r@ + Seq::<char>::empty() =~= r@);
    r
}

/// The first index of `v` from which on no white space is stripped at the front.
fn front_bound(v: &Vec<char>) -> (a: usize)
    ensures
        a <= v@.len(),
        v@.subrange(a as int, v@.len() as int) == strip_front(v@),
        strip_front(v@.subrange(a as int, v@.len() as int)) == v@.subrange(a as int, v@.len() as int),
{
    let n = v.len();
    let mut a: usize = 0;
    assert(v@.subrange(0, n as int) =~= v@);
    while a < n && is_white_char(v[a])
        invariant
            a <= n == v@.len(),
            strip_front(v@.subrange(a as int, n as int)) == strip_front(v@),
        decreases n - a,
    {
        assert(v@.subrange(a as int, n as int)[0] == v@[a as int]);
        assert(v@.subrange(a as int, n as int).drop_first() =~= v@.subrange(a + 1, n as int));
        a += 1;
    }
    if a < n {
        assert(v@.subrange(a as int, n as int)[0] == v@[a as int]);
    }
    a
}

/// The bounds of `v` once the white space at both ends is removed.
pub fn trim_bounds(v: &Vec<char>) -> (r: (usize, usize))
    ensures
        r.0 <= r.1 <= v@.len(),
        v@.subrange(r.0 as int, r.1 as int) == strip_back(strip_front(v@)),
{
    let n = v.len();
    let a = front_bound(v);
    let mut b: usize = n;
    while b > a && is_white_char(v[b - 1])
        invariant
            a <= b <= n == v@.len(),
            strip_back(v@.subrange(a as int, b as int)) == strip_back(
                v@.subrange(a as int, n as int),
            ),
        decreases b - a,
    {
        assert(v@.subrange(a as int, b as int).last() == v@[b - 1]);
        assert(v@.subrange(a as int, b as int).drop_last() =~= v@.subrange(a as int, b - 1));
        b -= 1;
    }
    if b > a {
        assert(v@.subrange(a as int, b as int).last() == v@[b - 1]);
    }
    (a, b)
}

/// A raw field without its enclosing quotes; see `unquote`.
pub fn unquote_exec(seg: &Vec<char>) -> (r: Vec<char>)
    ensures
        r@ == unquote(seg@),
{
    let n = seg.len();
    let a: usize = if n > 0 && seg[0] == '"' {
        1
    } else {
        0
    };
    let b: usize = if n > a && seg[n - 1] == '"' {
        n - 1
    } else {
        n
    };
    let mut inner: Vec<char> = Vec::new();
    let mut i: usize = a;
    while i < b
        invariant
            a <= i <= b <= n == seg@.len(),
            inner@ == seg@.subrange(a as int, i as int),
        decreases b - i,
    {
        inner.push(seg[i]);
        i += 1;
        assert(inner@ =~= seg@.subrange(a as int, i as int));
    }
    assert(inner@ == unquote(seg@));
    inner
}

/// The value of a raw field; see `clean_field`.
fn clean_field_exec(seg: &Vec<char>) -> (r: String)
    ensures
        r@ == clean_field(seg@),
{
    let inner = unquote_exec(seg);
    let u = unescape_exec(&inner);
    let n2 = u.len();
    assert(u@.subrange(0, n2 as int) =~= u@);
    string_of(&u, 0, n2)
}

/// Decodes one stored line: fields split at commas outside quotes, each
/// unescaped and stripped of its outer quotes; the fifth field, trimmed, marks
/// the task completed exactly when it reads `Yes`.
pub fn decode(line: &str) -> (r: Result<Task, DecodeError>)
    ensures
        match decode_line(line@) {
            None => r == Err::<Task, DecodeError>(DecodeError::TooFewFields),
            Some(t) => r matches Ok(task) && task@ == t,
        },
{
    let v = chars_of(line);
    let segs = split_fields(&v, true);
    assert(views(segs@).len() == segs@.len());
    if segs.len() < 5 {
        return Err(DecodeError::TooFewFields);
    }
    assert forall|k: int| 0 <= k < 5 implies #[trigger] segs@[k]@ == segments(v@, true)[k] by {
        assert(views(segs@)[k] == segs@[k]@);
    }
    let id = clean_field_exec(&segs[0]);
    let title = clean_field_exec(&segs[1]);
    let description = clean_field_exec(&segs[2]);
    let date = clean_field_exec(&segs[3]);
    let flag = chars_of(clean_field_exec(&segs[4]).as_str());
    let (a, b) = trim_bounds(&flag);
    let completed = b - a == 3 && flag[a] == 'Y' && flag[a + 1] == 'e' && flag[a + 2] == 's';
    proof {
        let t = flag@.subrange(a as int, b as int);
        if b - a == 3 {
            assert(t[0] == flag@[a as int] && t[1] == flag@[a + 1] && t[2] == flag@[a + 2]);
        }
        if completed {
            assert(t =~= yes_text());
        } else {
            assert(yes_text().len() == 3 && yes_text()[0] == 'Y' && yes_text()[1] == 'e'
                && yes_text()[2] == 's');
            assert(t != yes_text());
        }
        assert(trim_white(clean_field(segments(line@, true)[4])) == t);
    }
    Ok(Task { id, title, description, date, completed })
}

// ----- title search -----

/// What `str::to_lowercase` makes of a text.
pub uninterp spec fn lower_of(s: Seq<char>) -> Seq<char>;

/// Relies on `str::to_lowercase`: the Unicode lowercase mapping (a final
/// capital sigma lowered by its context), which depends on the characters alone.
#[verifier::external_body]
fn lowercase(s: &str) -> (r: String)
    ensures
        r@ == lower_of(s@),
{
    s.to_lowercase()
}

/// The text reads `yes` in any mix of ASCII case.
pub open spec fn is_yes_any_case(s: Seq<char>) -> bool {
    &&& s.len() == 3
    &&& (s[0] == 'y' || s[0] == 'Y')
    &&& (s[1] == 'e' || s[1] == 'E')
    &&& (s[2] == 's' || s[2] == 'S')
}

/// A lowercased title matches when, trimmed, it contains the needle.
pub open spec fn title_hit(lowered: Seq<char>, needle: Seq<char>) -> bool {
    has_sub(trim_white(lowered), needle)
}

/// The task that the search path finds in `line`: fields split at every comma,
/// each without one enclosing double quote at either end; `None` where fewer than
/// five fields result or the lowercased title does not hold `needle`.
pub open spec fn filter_line(line: Seq<char>, needle: Seq<char>) -> Option<TaskView> {
    let segs = segments(line, false);
    if segs.len() < 5 || !title_hit(lower_of(unquote(segs[1])), needle) {
        None
    } else {
        Some(
            TaskView {
                id: unquote(segs[0]),
                title: unquote(segs[1]),
                description: unquote(segs[2]),
                date: unquote(segs[3]),
                completed: is_yes_any_case(trim_white(unquote(segs[4]))),
            },
        )
    }
}

/// Whether an already lowercased title, trimmed, contains `needle`.
pub fn title_matches(lowered_title: &str, needle: &str) -> (r: bool)
    ensures
        r == title_hit(lowered_title@, needle@),
{
    let v = chars_of(lowered_title);
    let (a, b) = trim_bounds(&v);
    let t = string_of(&v, a, b);
    contains_str(t.as_str(), needle)
}

/// The search decoder: splits `line` at every comma, without regard to quotes,
/// removes one enclosing double quote from each field, and yields the task when
/// its lowercased, trimmed title contains `needle` (which the caller gives in
/// lowercase). The flag is read without regard to ASCII case.
pub fn decode_filter(line: &str, needle: &str) -> (r: Option<Task>)
    ensures
        match filter_line(line@, needle@) {
            None => r is None,
            Some(t) => r matches Some(task) && task@ == t,
        },
{
    let v = chars_of(line);
    let segs = split_fields(&v, false);
    assert(views(segs@).len() == segs@.len());
    if segs.len() < 5 {
        return None;
    }
    assert forall|k: int| 0 <= k < 5 implies #[trigger] segs@[k]@ == segments(v@, false)[k] by {
        assert(views(segs@)[k] == segs@[k]@);
    }
    let t1 = unquote_exec(&segs[1]);
    let title = string_of(&t1, 0, t1.len());
    assert(t1@.subrange(0, t1@.len() as int) =~= t1@);
    let lowered = lowercase(title.as_str());
    if !title_matches(lowered.as_str(), needle) {
        return None;
    }
    let t0 = unquote_exec(&segs[0]);
    let t2 = unquote_exec(&segs[2]);
    let t3 = unquote_exec(&segs[3]);
    let f = unquote_exec(&segs[4]);
    let id = string_of(&t0, 0, t0.len());
    let description = string_of(&t2, 0, t2.len());
    let date = string_of(&t3, 0, t3.len());
    let (a, b) = trim_bounds(&f);
    let completed = b - a == 3 && (f[a] == 'y' || f[a] == 'Y') && (f[a + 1] == 'e' || f[a + 1]
        == 'E') && (f[a + 2] == 's' || f[a + 2] == 'S');
    proof {
        assert(t0@.subrange(0, t0@.len() as int) =~= t0@);
        assert(t2@.subrange(0, t2@.len() as int) =~= t2@);
        assert(t3@.subrange(0, t3@.len() as int) =~= t3@);
        let t = f@.subrange(a as int, b as int);
        assert(t == trim_white(unquote(segments(line@, false)[4])));
        if b - a == 3 {
            assert(t[0] == f@[a as int] && t[1] == f@[a + 1] && t[2] == f@[a + 2]);
        }
    }
    Some(Task { id, title, description, date, completed })
}

} // verus!
