//! The record store: the lines of the backing file, header first, and the
//! operations that read them or decide what is written back.
use vstd::prelude::*;
use crate::codec::{
    decode, decode_filter, decode_line, encode, encode_line, filter_line, flag_text, join_fields,
    lemma_join_push, push_quoted, quote_field, segments, split_fields, views, Task, TaskView,
};
use crate::text::{chars_of, contains_str, has_sub, string_of};

verus! {

/// Why the store's rows could not be read.
#[derive(Debug, PartialEq, Eq, Structural)]
pub enum StoreError {
    /// The column reader rejected the file's text.
    Unreadable,
}

/// The backing file's lines, without their terminators; the first is the header.
pub struct Store {
    pub lines: Vec<String>,
}

/// The character sequences of a sequence of strings.
pub open spec fn line_views(v: Seq<String>) -> Seq<Seq<char>> {
    v.map_values(|s: String| s@)
}

/// The values of a sequence of tasks.
pub open spec fn task_views(v: Seq<Task>) -> Seq<TaskView> {
    v.map_values(|t: Task| t@)
}

impl View for Store {
    type V = Seq<Seq<char>>;

    open spec fn view(&self) -> Seq<Seq<char>> {
        line_views(self.lines@)
    }
}

/// The header row.
pub open spec fn header_text() -> Seq<char> {
    "id,title,description,date,completed,"@
}

/// The header row.
pub fn header_line() -> (r: String)
    ensures
        r@ == header_text(),
{
    String::from_str("id,title,description,date,completed,")
}

/// The file's text: every line followed by CRLF.
pub open spec fn store_text(lines: Seq<Seq<char>>) -> Seq<char>
    decreases lines.len(),
{
    if lines.len() == 0 {
        Seq::empty()
    } else {
        store_text(lines.drop_last()) + lines.last() + seq!['\r', '\n']
    }
}

/// The lines after the header.
pub open spec fn data_rows(lines: Seq<Seq<char>>) -> Seq<Seq<char>> {
    if lines.len() == 0 {
        lines
    } else {
        lines.drop_first()
    }
}

/// The tasks that the rows decode to, in order; a row that does not decode is skipped.
pub open spec fn listing(rows: Seq<Seq<char>>) -> Seq<TaskView>
    decreases rows.len(),
{
    if rows.len() == 0 {
        Seq::empty()
    } else {
        listing(rows.drop_last()) + match decode_line(rows.last()) {
            Some(t) => seq![t],
            None => Seq::empty(),
        }
    }
}

/// The rows that contain `key`, in order.
pub open spec fn rows_with(rows: Seq<Seq<char>>, key: Seq<char>) -> Seq<Seq<char>>
    decreases rows.len(),
{
    if rows.len() == 0 {
        rows
    } else if has_sub(rows.last(), key) {
        rows_with(rows.drop_last(), key).push(rows.last())
    } else {
        rows_with(rows.drop_last(), key)
    }
}

/// The rows that do not contain `key`, in order.
pub open spec fn rows_without(rows: Seq<Seq<char>>, key: Seq<char>) -> Seq<Seq<char>>
    decreases rows.len(),
{
    if rows.len() == 0 {
        rows
    } else if has_sub(rows.last(), key) {
        rows_without(rows.drop_last(), key)
    } else {
        rows_without(rows.drop_last(), key).push(rows.last())
    }
}

/// The tasks that the search decoder finds in the rows, in order.
pub open spec fn found(rows: Seq<Seq<char>>, needle: Seq<char>) -> Seq<TaskView>
    decreases rows.len(),
{
    if rows.len() == 0 {
        Seq::empty()
    } else {
        found(rows.drop_last(), needle) + match filter_line(rows.last(), needle) {
            Some(t) => seq![t],
            None => Seq::empty(),
        }
    }
}

/// A record's fields in the canonical form: each quoted, joined by commas.
pub open spec fn quote_record(fields: Seq<Seq<char>>) -> Seq<char>
    decreases fields.len(),
{
    if fields.len() == 0 {
        Seq::empty()
    } else if fields.len() == 1 {
        quote_field(fields[0])
    } else {
        quote_record(fields.drop_last()) + seq![','] + quote_field(fields.last())
    }
}

/// The row with its fifth raw field replaced by the quoted flag for
/// `completed`; every other character of the row stays.
pub open spec fn with_flag(line: Seq<char>, completed: bool) -> Seq<char> {
    join_fields(segments(line, true).update(4, quote_field(flag_text(completed))))
}

/// A data row after the toggle for `key`: where it contains `key` and decodes
/// to a task, its flag field set to the opposite completion; any other row as
/// it was.
pub open spec fn toggle_line(line: Seq<char>, key: Seq<char>) -> Seq<char> {
    if has_sub(line, key) {
        match decode_line(line) {
            Some(t) => with_flag(line, !t.completed),
            None => line,
        }
    } else {
        line
    }
}

/// The positions of the rows that do not decode, in order.
pub open spec fn undecodable(rows: Seq<Seq<char>>) -> Seq<int>
    decreases rows.len(),
{
    if rows.len() == 0 {
        Seq::empty()
    } else if decode_line(rows.last()) is None {
        undecodable(rows.drop_last()).push(rows.len() - 1)
    } else {
        undecodable(rows.drop_last())
    }
}

/// The positions of the rows that do not decode, in order, so that each can
/// be reported.
pub fn undecodable_rows(rows: &Vec<String>) -> (r: Vec<usize>)
    ensures
        r@.map_values(|i: usize| i as int) == undecodable(line_views(rows@)),
{
    let ghost all = line_views(rows@);
    let mut out: Vec<usize> = Vec::new();
    let mut i: usize = 0;
    while i < rows.len()
        invariant
            i <= rows@.len(),
            all == line_views(rows@),
            out@.map_values(|k: usize| k as int) == undecodable(all.subrange(0, i as int)),
        decreases rows@.len() - i,
    {
        let ghost o0 = out@.map_values(|k: usize| k as int);
        assert(all.subrange(0, i + 1).drop_last() =~= all.subrange(0, i as int));
        assert(all.subrange(0, i + 1).last() == rows@[i as int]@);
        match decode(rows[i].as_str()) {
            Ok(_) => {},
            Err(_) => {
                out.push(i);
                assert(out@.map_values(|k: usize| k as int) =~= o0.push(i as int));
            },
        }
        i += 1;
    }
    assert(all.subrange(0, i as int) =~= all);
    out
}

/// The row with its fifth raw field set to the quoted flag for `completed`.
fn set_flag(line: &str, completed: bool) -> (r: String)
    requires
        segments(line@, true).len() >= 5,
    ensures
        r@ == with_flag(line@, completed),
{
    let v = chars_of(line);
    let segs = split_fields(&v, true);
    let mut flag: Vec<char> = Vec::new();
    let word = if completed {
        "Yes"
    } else {
        "No"
    };
    proof {
        reveal_strlit("Yes");
        reveal_strlit("No");
        assert(word@ =~= flag_text(completed));
    }
    push_quoted(&mut flag, word);
    assert(flag@ =~= quote_field(flag_text(completed)));
    assert(views(segs@).len() == segs@.len());
    let ghost target = views(segs@).update(4, flag@);
    let mut out: Vec<char> = Vec::new();
    let mut i: usize = 0;
    assert(target.subrange(0, 0) =~= Seq::<Seq<char>>::empty());
    while i < segs.len()
        invariant
            i <= segs@.len() == target.len(),
            segs@.len() >= 5,
            views(segs@).len() == segs@.len(),
            target == views(segs@).update(4, flag@),
            out@ == join_fields(target.subrange(0, i as int)),
        decreases segs@.len() - i,
    {
        let ghost o0 = out@;
        let piece: &Vec<char> = if i == 4 {
            &flag
        } else {
            &segs[i]
        };
        assert(views(segs@)[i as int] == segs@[i as int]@);
        assert(piece@ == target[i as int]);
        if i > 0 {
            out.push(',');
        }
        let mut j: usize = 0;
        let ghost o1 = out@;
        while j < piece.len()
            invariant
                j <= piece@.len(),
                out@ == o1 + piece@.subrange(0, j as int),
            decreases piece@.len() - j,
        {
            out.push(piece[j]);
            j += 1;
            assert(out@ =~= o1 + piece@.subrange(0, j as int));
        }
        assert(piece@.subrange(0, piece@.len() as int) =~= piece@);
        proof {
            assert(target.subrange(0, i + 1) =~= target.subrange(0, i as int).push(target[i as int]));
            if i > 0 {
                lemma_join_push(target.subrange(0, i as int), target[i as int]);
            } else {
                assert(target.subrange(0, 1) =~= seq![target[0]]);
                assert(o1 =~= Seq::<char>::empty());
            }
        }
        i += 1;
        assert(out@ =~= join_fields(target.subrange(0, i as int)));
    }
    assert(target.subrange(0, i as int) =~= target);
    let n = out.len();
    assert(out@.subrange(0, n as int) =~= out@);
    string_of(&out, 0, n)
}

/// The toggle for `key` changes this data row.
pub open spec fn toggles(line: Seq<char>, key: Seq<char>) -> bool {
    has_sub(line, key) && decode_line(line) is Some
}

/// The decoded tasks of `rows`, in order, skipping those that do not decode.
pub fn decode_rows(rows: &Vec<String>) -> (r: Vec<Task>)
    ensures
        task_views(r@) == listing(line_views(rows@)),
{
    let ghost all = line_views(rows@);
    let mut out: Vec<Task> = Vec::new();
    let mut i: usize = 0;
    while i < rows.len()
        invariant
            i <= rows@.len(),
            all == line_views(rows@),
            task_views(out@) == listing(all.subrange(0, i as int)),
        decreases rows@.len() - i,
    {
        let ghost o0 = task_views(out@);
        assert(all.subrange(0, i + 1).drop_last() =~= all.subrange(0, i as int));
        assert(all.subrange(0, i + 1).last() == rows@[i as int]@);
        match decode(rows[i].as_str()) {
            Ok(t) => {
                out.push(t);
                assert(task_views(out@) =~= o0.push(out@.last()@));
            },
            Err(_) => {},
        }
        i += 1;
        assert(task_views(out@) =~= listing(all.subrange(0, i as int)));
    }
    assert(all.subrange(0, i as int) =~= all);
    out
}

/// The rows that contain `flag` (`Yes` or `No`) as plain text, decoded.
pub fn select_by_flag(rows: &Vec<String>, flag: &str) -> (r: Vec<Task>)
    ensures
        task_views(r@) == listing(rows_with(line_views(rows@), flag@)),
{
    let ghost all = line_views(rows@);
    let mut kept: Vec<String> = Vec::new();
    let mut i: usize = 0;
    while i < rows.len()
        invariant
            i <= rows@.len(),
            all == line_views(rows@),
            line_views(kept@) == rows_with(all.subrange(0, i as int), flag@),
        decreases rows@.len() - i,
    {
        let ghost k0 = line_views(kept@);
        assert(all.subrange(0, i + 1).drop_last() =~= all.subrange(0, i as int));
        assert(all.subrange(0, i + 1).last() == rows@[i as int]@);
        if contains_str(rows[i].as_str(), flag) {
            kept.push(rows[i].clone());
            assert(line_views(kept@) =~= k0.push(rows@[i as int]@));
        }
        i += 1;
    }
    assert(all.subrange(0, i as int) =~= all);
    decode_rows(&kept)
}

/// The tasks that the search decoder finds in `rows` for `needle`, in order.
pub fn find_in_rows(rows: &Vec<String>, needle: &str) -> (r: Vec<Task>)
    ensures
        task_views(r@) == found(line_views(rows@), needle@),
{
    let ghost all = line_views(rows@);
    let mut out: Vec<Task> = Vec::new();
    let mut i: usize = 0;
    while i < rows.len()
        invariant
            i <= rows@.len(),
            all == line_views(rows@),
            task_views(out@) == found(all.subrange(0, i as int), needle@),
        decreases rows@.len() - i,
    {
        let ghost o0 = task_views(out@);
        assert(all.subrange(0, i + 1).drop_last() =~= all.subrange(0, i as int));
        assert(all.subrange(0, i + 1).last() == rows@[i as int]@);
        match decode_filter(rows[i].as_str(), needle) {
            Some(t) => {
                out.push(t);
                assert(task_views(out@) =~= o0.push(out@.last()@));
            },
            None => {},
        }
        i += 1;
        assert(task_views(out@) =~= found(all.subrange(0, i as int), needle@));
    }
    assert(all.subrange(0, i as int) =~= all);
    out
}

// ----- outside calls -----

/// The `csv` crate's error, carried through opaque and mapped to `StoreError`.
#[verifier::external_type_specification]
#[verifier::external_body]
pub struct ExCsvError(csv::Error);

/// What the `csv` column reader makes of a file's text: the records after the
/// first (the header), each as its fields, or `None` where it reports an error.
pub uninterp spec fn csv_data_records(text: Seq<char>) -> Option<Seq<Seq<Seq<char>>>>;

/// The character sequences of records of strings.
pub open spec fn record_views(v: Seq<Vec<String>>) -> Seq<Seq<Seq<char>>> {
    v.map_values(|r: Vec<String>| line_views(r@))
}

/// Relies on `csv::ReaderBuilder` with the first record taken as the header and
/// records of any length, and on `csv::Reader::records`: the fields of every
/// record after the header, in order, or the first error. The outcome depends on
/// the text alone.
#[verifier::external_body]
fn csv_records(text: &str) -> (r: Result<Vec<Vec<String>>, csv::Error>)
    ensures
        match csv_data_records(text@) {
            None => r is Err,
            Some(recs) => r matches Ok(v) && record_views(v@) == recs,
        },
{
    let mut rdr = csv::ReaderBuilder::new().flexible(true).from_reader(text.as_bytes());
    rdr.records().map(|rec| rec.map(|fields| fields.iter().map(String::from).collect())).collect()
}

/// An ASCII letter or digit.
pub open spec fn is_alnum(c: char) -> bool {
    ('A' <= c && c <= 'Z') || ('a' <= c && c <= 'z') || ('0' <= c && c <= '9')
}

/// Relies on `rand::distributions::Alphanumeric` sampled from `rand::thread_rng`:
/// a byte drawn from `A-Z`, `a-z` and `0-9`.
#[verifier::external_body]
fn random_alphanumeric() -> (r: u8)
    ensures
        is_alnum(r as char),
{
    rand::Rng::sample(&mut rand::thread_rng(), rand::distributions::Alphanumeric)
}

/// An ASCII digit.
pub open spec fn is_digit(c: char) -> bool {
    '0' <= c && c <= '9'
}

/// Text in the shape `%Y-%m-%d %H:%M` writes: a year of four digits (or, out of
/// the range 0 to 9999, a sign and at least four digits), then `-MM-DD HH:MM`.
pub open spec fn is_stamp(s: Seq<char>) -> bool {
    let n = s.len() as int;
    &&& n >= 16
    &&& s[n - 12] == '-' && s[n - 9] == '-' && s[n - 6] == ' ' && s[n - 3] == ':'
    &&& forall|k: int|
        n - 12 < k < n && k != n - 9 && k != n - 6 && k != n - 3 ==> is_digit(#[trigger] s[k])
    &&& if n == 16 {
        forall|k: int| 0 <= k < 4 ==> is_digit(#[trigger] s[k])
    } else {
        (s[0] == '+' || s[0] == '-') && forall|k: int| 1 <= k < n - 12 ==> is_digit(#[trigger] s[k])
    }
}

/// Relies on `chrono::Local::now` formatted as `%Y-%m-%d %H:%M`: the local time
/// now, whose value depends on the clock. `%Y` writes four zero-padded digits
/// for years 0 to 9999 and a sign with at least four digits otherwise; `%m`,
/// `%d`, `%H` and `%M` write two zero-padded digits each.
#[verifier::external_body]
fn local_timestamp() -> (r: String)
    ensures
        is_stamp(r@),
{
    chrono::Local::now().format("%Y-%m-%d %H:%M").to_string()
}

/// A fresh task id: four ASCII letters or digits drawn at random.
pub fn generate_random_id() -> (r: String)
    ensures
        r@.len() == 4,
        forall|i: int| 0 <= i < 4 ==> is_alnum(#[trigger] r@[i]),
{
    let mut r = String::new();
    let mut i: usize = 0;
    while i < 4
        invariant
            i <= 4,
            r@.len() == i,
            forall|k: int| 0 <= k < i ==> is_alnum(#[trigger] r@[k]),
        decreases 4 - i,
    {
        let b = random_alphanumeric();
        r.push(b as char);
        i += 1;
    }
    r
}

// ----- the store -----

/// `r` is what listing a store with these lines gives: the column reader's
/// rows in canonical form, decoded, or its failure.
pub open spec fn listed(lines: Seq<Seq<char>>, r: Result<Vec<Task>, StoreError>) -> bool {
    match csv_data_records(store_text(lines)) {
        None => r == Err::<Vec<Task>, StoreError>(StoreError::Unreadable),
        Some(recs) => r matches Ok(v) && task_views(v@) == listing(
            recs.map_values(|f: Seq<Seq<char>>| quote_record(f)),
        ),
    }
}

impl Store {
    /// The store over the file's lines; an empty file gets the header row.
    pub fn open(lines: Vec<String>) -> (r: Store)
        ensures
            r@ == if lines@.len() == 0 {
                seq![header_text()]
            } else {
                line_views(lines@)
            },
    {
        if lines.len() == 0 {
            let mut v: Vec<String> = Vec::new();
            v.push(header_line());
            let r = Store { lines: v };
            assert(r@ =~= seq![header_text()]);
            r
        } else {
            Store { lines }
        }
    }

    /// The file's text: every line followed by CRLF.
    pub fn text(&self) -> (r: String)
        ensures
            r@ == store_text(self@),
    {
        let mut out: Vec<char> = Vec::new();
        let mut i: usize = 0;
        while i < self.lines.len()
            invariant
                i <= self@.len(),
                out@ == store_text(self@.subrange(0, i as int)),
            decreases self@.len() - i,
        {
            let ghost o0 = out@;
            assert(self@.subrange(0, i + 1).drop_last() =~= self@.subrange(0, i as int));
            let v = chars_of(self.lines[i].as_str());
            let mut j: usize = 0;
            while j < v.len()
                invariant
                    j <= v@.len(),
                    out@ == o0 + v@.subrange(0, j as int),
                decreases v@.len() - j,
            {
                out.push(v[j]);
                j += 1;
                assert(out@ =~= o0 + v@.subrange(0, j as int));
            }
            out.push('\r');
            out.push('\n');
            i += 1;
            assert(v@.subrange(0, v@.len() as int) =~= self@[i - 1]);
            assert(out@ =~= store_text(self@.subrange(0, i as int)));
        }
        assert(self@.subrange(0, i as int) =~= self@);
        let n = out.len();
        assert(out@.subrange(0, n as int) =~= out@);
        string_of(&out, 0, n)
    }

    /// The data rows as the column reader sees them, each re-rendered in the
    /// canonical quoted form.
    pub fn read_all_lines(&self) -> (r: Result<Vec<String>, StoreError>)
        ensures
            match csv_data_records(store_text(self@)) {
                None => r == Err::<Vec<String>, StoreError>(StoreError::Unreadable),
                Some(recs) => r matches Ok(v) && line_views(v@) == recs.map_values(
                    |f: Seq<Seq<char>>| quote_record(f),
                ),
            },
    {
        let text = self.text();
        let recs = match csv_records(text.as_str()) {
            Ok(recs) => recs,
            Err(_) => {
                return Err(StoreError::Unreadable);
            },
        };
        let ghost all = record_views(recs@);
        let mut out: Vec<String> = Vec::new();
        let mut i: usize = 0;
        while i < recs.len()
            invariant
                i <= recs@.len(),
                all == record_views(recs@),
                line_views(out@) == all.subrange(0, i as int).map_values(
                    |f: Seq<Seq<char>>| quote_record(f),
                ),
            decreases recs@.len() - i,
        {
            let line = quote_fields(&recs[i]);
            let ghost o0 = line_views(out@);
            assert(all[i as int] == line_views(recs@[i as int]@));
            out.push(line);
            assert(line_views(out@) =~= o0.push(line@));
            assert(all.subrange(0, i + 1).map_values(|f: Seq<Seq<char>>| quote_record(f))
                =~= all.subrange(0, i as int).map_values(|f: Seq<Seq<char>>| quote_record(f)).push(
                quote_record(all[i as int]),
            ));
            i += 1;
            assert(line_views(out@) =~= all.subrange(0, i as int).map_values(
                |f: Seq<Seq<char>>| quote_record(f),
            ));
        }
        assert(all.subrange(0, i as int) =~= all);
        Ok(out)
    }

    /// Every task of the store, as the column reader gives the rows and the
    /// decoder reads them; a row that does not decode is skipped.
    pub fn list_all(&self) -> (r: Result<Vec<Task>, StoreError>)
        ensures
            listed(self@, r),
    {
        match self.read_all_lines() {
            Ok(rows) => Ok(decode_rows(&rows)),
            Err(e) => Err(e),
        }
    }

    /// The tasks whose row contains `flag` (`Yes` or `No`) as plain text.
    pub fn list_by_completion(&self, flag: &str) -> (r: Result<Vec<Task>, StoreError>)
        ensures
            match csv_data_records(store_text(self@)) {
                None => r == Err::<Vec<Task>, StoreError>(StoreError::Unreadable),
                Some(recs) => r matches Ok(v) && task_views(v@) == listing(
                    rows_with(recs.map_values(|f: Seq<Seq<char>>| quote_record(f)), flag@),
                ),
            },
    {
        match self.read_all_lines() {
            Ok(rows) => Ok(select_by_flag(&rows, flag)),
            Err(e) => Err(e),
        }
    }

    /// The tasks whose lowercased title contains `needle` (given in lowercase).
    pub fn find_by_title(&self, needle: &str) -> (r: Result<Vec<Task>, StoreError>)
        ensures
            match csv_data_records(store_text(self@)) {
                None => r == Err::<Vec<Task>, StoreError>(StoreError::Unreadable),
                Some(recs) => r matches Ok(v) && task_views(v@) == found(
                    recs.map_values(|f: Seq<Seq<char>>| quote_record(f)),
                    needle@,
                ),
            },
    {
        match self.read_all_lines() {
            Ok(rows) => Ok(find_in_rows(&rows, needle)),
            Err(e) => Err(e),
        }
    }

    /// Appends the encoded line of `t`.
    pub fn add(&mut self, t: &Task)
        ensures
            final(self)@ == old(self)@.push(encode_line(t@)),
    {
        let line = encode(t);
        self.lines.push(line);
        assert(self@ =~= old(self)@.push(encode_line(t@)));
    }

    /// Creates a task with a fresh random id, stamped with the local time and
    /// not completed, and appends its line.
    pub fn create(&mut self, title: String, description: String) -> (r: Task)
        ensures
            r@.title == title@,
            r@.description == description@,
            !r@.completed,
            r@.id.len() == 4,
            forall|i: int| 0 <= i < 4 ==> is_alnum(#[trigger] r@.id[i]),
            is_stamp(r@.date),
            final(self)@ == old(self)@.push(encode_line(r@)),
    {
        let id = generate_random_id();
        let date = local_timestamp();
        let t = Task::new(id, title, description, date);
        self.add(&t);
        t
    }

    /// Toggles the completion of every task whose data row contains `key`,
    /// rewriting only that row's flag field; tells whether any row changed.
    /// The header and every other row stay as they were.
    pub fn toggle_completion(&mut self, key: &str) -> (r: bool)
        ensures
            final(self)@.len() == old(self)@.len(),
            old(self)@.len() > 0 ==> final(self)@[0] == old(self)@[0],
            forall|i: int|
                1 <= i < old(self)@.len() ==> #[trigger] final(self)@[i] == toggle_line(
                    old(self)@[i],
                    key@,
                ),
            r == exists|i: int| 1 <= i < old(self)@.len() && toggles(#[trigger] old(self)@[i], key@),
    {
        let ghost before = self@;
        let mut changed = false;
        let mut i: usize = 1;
        if self.lines.len() == 0 {
            return false;
        }
        while i < self.lines.len()
            invariant
                1 <= i <= self@.len() == before.len(),
                self@[0] == before[0],
                forall|k: int| 1 <= k < i ==> #[trigger] self@[k] == toggle_line(before[k], key@),
                forall|k: int| i <= k < before.len() ==> #[trigger] self@[k] == before[k],
                changed == exists|k: int| 1 <= k < i && toggles(#[trigger] before[k], key@),
            decreases before.len() - i,
        {
            assert(self@[i as int] == self.lines@[i as int]@);
            let ghost v0 = self@;
            if contains_str(self.lines[i].as_str(), key) {
                match decode(self.lines[i].as_str()) {
                    Ok(t) => {
                        let s = set_flag(self.lines[i].as_str(), !t.completed);
                        self.lines.set(i, s);
                        assert(self@ =~= v0.update(i as int, s@));
                        assert(toggles(before[i as int], key@));
                        changed = true;
                    },
                    Err(_) => {},
                }
            }
            i += 1;
            assert(changed == exists|k: int| 1 <= k < i && toggles(#[trigger] before[k], key@));
        }
        changed
    }

    /// Removes every data row that contains `key`, keeping the header and the
    /// other rows in order; tells whether any row was removed.
    pub fn delete_matching(&mut self, key: &str) -> (r: bool)
        ensures
            final(self)@ == if old(self)@.len() > 0 {
                seq![old(self)@[0]] + rows_without(old(self)@.drop_first(), key@)
            } else {
                old(self)@
            },
            r == exists|i: int| 1 <= i < old(self)@.len() && has_sub(#[trigger] old(self)@[i], key@),
    {
        let ghost before = self@;
        if self.lines.len() == 0 {
            return false;
        }
        let mut kept: Vec<String> = Vec::new();
        kept.push(self.lines[0].clone());
        let mut removed = false;
        let mut i: usize = 1;
        assert(before.subrange(1, 1) =~= Seq::<Seq<char>>::empty());
        assert(line_views(kept@) =~= seq![before[0]] + rows_without(before.subrange(1, 1), key@));
        while i < self.lines.len()
            invariant
                1 <= i <= self@.len(),
                self@ == before,
                line_views(kept@) == seq![before[0]] + rows_without(
                    before.subrange(1, i as int),
                    key@,
                ),
                removed == exists|k: int| 1 <= k < i && has_sub(#[trigger] before[k], key@),
            decreases before.len() - i,
        {
            let ghost k0 = line_views(kept@);
            assert(before.subrange(1, i + 1).drop_last() =~= before.subrange(1, i as int));
            assert(before.subrange(1, i + 1).last() == before[i as int]);
            if contains_str(self.lines[i].as_str(), key) {
                removed = true;
            } else {
                kept.push(self.lines[i].clone());
                assert(line_views(kept@) =~= k0.push(before[i as int]));
            }
            i += 1;
            assert(removed == exists|k: int| 1 <= k < i && has_sub(#[trigger] before[k], key@));
        }
        assert(before.subrange(1, i as int) =~= before.drop_first());
        self.lines = kept;
        removed
    }

    /// Keeps only the header line; tells whether there was one to keep.
    pub fn delete_all(&mut self) -> (r: bool)
        ensures
            r == (old(self)@.len() > 0),
            final(self)@ == if old(self)@.len() > 0 {
                seq![old(self)@[0]]
            } else {
                old(self)@
            },
    {
        if self.lines.len() == 0 {
            return false;
        }
        self.lines.truncate(1);
        assert(self@ =~= seq![old(self)@[0]]);
        true
    }
}

/// A record in the canonical form: every field quoted, joined by commas.
pub fn quote_fields(fields: &Vec<String>) -> (r: String)
    ensures
        r@ == quote_record(line_views(fields@)),
{
    let ghost all = line_views(fields@);
    let mut out: Vec<char> = Vec::new();
    let mut i: usize = 0;
    while i < fields.len()
        invariant
            i <= fields@.len(),
            all == line_views(fields@),
            out@ == quote_record(all.subrange(0, i as int)),
        decreases fields@.len() - i,
    {
        assert(all.subrange(0, i + 1).drop_last() =~= all.subrange(0, i as int));
        assert(all.subrange(0, i + 1).last() == fields@[i as int]@);
        if i > 0 {
            out.push(',');
        }
        push_quoted(&mut out, fields[i].as_str());
        i += 1;
        assert(out@ =~= quote_record(all.subrange(0, i as int)));
    }
    assert(all.subrange(0, i as int) =~= all);
    let n = out.len();
    assert(out@.subrange(0, n as int) =~= out@);
    string_of(&out, 0, n)
}

} // verus!
