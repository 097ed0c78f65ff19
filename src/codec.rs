//! The persisted file format: one task per line, written
//! `status|description|date`.
use vstd::prelude::*;
use crate::task::{models, status_of, status_text, Task, TaskModel, TaskStatus};
use crate::text::{chars_of, string_of};

verus! {

/// The pieces of `s` between occurrences of `sep`; there is always at least
/// one piece.
pub open spec fn split(s: Seq<char>, sep: char) -> Seq<Seq<char>>
    decreases s.len(),
{
    if s.len() == 0 {
        seq![Seq::empty()]
    } else {
        let before = split(s.drop_last(), sep);
        if s.last() == sep {
            before.push(Seq::empty())
        } else {
            before.update(before.len() - 1, before.last().push(s.last()))
        }
    }
}

/// A line without the carriage return that ended it, if any.
pub open spec fn strip_cr(line: Seq<char>) -> Seq<char> {
    if line.len() > 0 && line.last() == '\r' {
        line.drop_last()
    } else {
        line
    }
}

/// Each piece without the carriage return that ended it, if any.
pub open spec fn stripped(pieces: Seq<Seq<char>>) -> Seq<Seq<char>> {
    pieces.map_values(|p: Seq<char>| strip_cr(p))
}

/// The lines of a text: the pieces between newlines, where a piece that a
/// newline ends loses a carriage return before it, and an empty piece after
/// the last newline is no line.
pub open spec fn lines_of(s: Seq<char>) -> Seq<Seq<char>> {
    let pieces = split(s, '\n');
    let n = pieces.len();
    stripped(pieces.take(n - 1)) + if pieces[n - 1].len() == 0 {
        Seq::empty()
    } else {
        seq![pieces[n - 1]]
    }
}

/// The task a line holds: exactly three `|`-separated fields, status,
/// description and date.
pub open spec fn record_of(line: Seq<char>) -> Option<TaskModel> {
    let f = split(line, '|');
    if f.len() == 3 {
        Some(TaskModel { status: status_of(f[0]), description: f[1], date: f[2] })
    } else {
        None
    }
}

/// The tasks that some lines hold, in order; other lines are skipped.
pub open spec fn records_of(lines: Seq<Seq<char>>) -> Seq<TaskModel>
    decreases lines.len(),
{
    if lines.len() == 0 {
        Seq::empty()
    } else {
        let before = records_of(lines.drop_last());
        match record_of(lines.last()) {
            Some(t) => before.push(t),
            None => before,
        }
    }
}

/// The tasks that a persisted text holds.
pub open spec fn parse_text(s: Seq<char>) -> Seq<TaskModel> {
    records_of(lines_of(s))
}

/// The persisted line of a task, without its newline.
pub open spec fn record_line(t: TaskModel) -> Seq<char> {
    status_text(t.status) + seq!['|'] + t.description + seq!['|'] + t.date
}

/// The persisted text of a collection: each task's line, each ended by a newline.
pub open spec fn text_of(ts: Seq<TaskModel>) -> Seq<char>
    decreases ts.len(),
{
    if ts.len() == 0 {
        Seq::empty()
    } else {
        text_of(ts.drop_last()) + record_line(ts.last()) + seq!['\n']
    }
}

/// The views of some character vectors.
pub open spec fn views(v: Seq<Vec<char>>) -> Seq<Seq<char>> {
    v.map_values(|x: Vec<char>| x@)
}

pub proof fn lemma_split_nonempty(s: Seq<char>, sep: char)
    ensures
        split(s, sep).len() >= 1,
    decreases s.len(),
{
    if s.len() > 0 {
        lemma_split_nonempty(s.drop_last(), sep);
    }
}

/// The pieces of `s` between occurrences of `sep`.
pub fn split_chars(s: &Vec<char>, sep: char) -> (r: Vec<Vec<char>>)
    ensures
        views(r@) == split(s@, sep),
{
    let mut pieces: Vec<Vec<char>> = Vec::new();
    let mut cur: Vec<char> = Vec::new();
    let mut i: usize = 0;
    assert(s@.take(0) =~= Seq::<char>::empty());
    assert(views(pieces@).push(cur@) =~= split(s@.take(0), sep));
    while i < s.len()
        invariant
            i <= s@.len(),
            views(pieces@).push(cur@) == split(s@.take(i as int), sep),
        decreases s.len() - i,
    {
        assert(s@.take(i + 1).drop_last() =~= s@.take(i as int));
        let c = s[i];
        if c == sep {
            pieces.push(cur);
            cur = Vec::new();
        } else {
            cur.push(c);
        }
        assert(views(pieces@).push(cur@) =~= split(s@.take(i + 1), sep));
        i = i + 1;
    }
    assert(s@.take(i as int) =~= s@);
    assert(views(pieces@).push(cur@) =~= views(pieces@.push(cur)));
    pieces.push(cur);
    pieces
}

/// The first `k` characters of `v`.
fn copy_prefix(v: &Vec<char>, k: usize) -> (r: Vec<char>)
    requires
        k <= v@.len(),
    ensures
        r@ == v@.take(k as int),
{
    let mut out: Vec<char> = Vec::new();
    let mut i: usize = 0;
    while i < k
        invariant
            i <= k <= v@.len(),
            out@ == v@.take(i as int),
        decreases k - i,
    {
        out.push(v[i]);
        assert(out@ =~= v@.take(i + 1));
        i = i + 1;
    }
    out
}

/// The lines of a text, as `lines_of` describes them.
pub fn lines_chars(s: &Vec<char>) -> (r: Vec<Vec<char>>)
    ensures
        views(r@) == lines_of(s@),
{
    let pieces = split_chars(s, '\n');
    proof {
        lemma_split_nonempty(s@, '\n');
    }
    let n = pieces.len();
    let ghost ps = split(s@, '\n');
    let mut out: Vec<Vec<char>> = Vec::new();
    let mut i: usize = 0;
    while i < n - 1
        invariant
            n == pieces@.len() >= 1,
            ps == views(pieces@),
            i <= n - 1,
            views(out@) == stripped(ps.take(i as int)),
        decreases n - 1 - i,
    {
        let p = &pieces[i];
        let len = p.len();
        let line = if len > 0 && p[len - 1] == '\r' {
            copy_prefix(p, len - 1)
        } else {
            copy_prefix(p, len)
        };
        assert(p@.take(len as int) =~= p@);
        assert(line@ == strip_cr(ps[i as int]));
        let ghost line_v = line@;
        let ghost before = views(out@);
        out.push(line);
        assert(views(out@) =~= before.push(line_v));
        assert(ps.take(i + 1) =~= ps.take(i as int).push(ps[i as int]));
        assert(stripped(ps.take(i + 1)) =~= stripped(ps.take(i as int)).push(strip_cr(ps[i as int])));
        assert(views(out@) =~= stripped(ps.take(i + 1)));
        i = i + 1;
    }
    let last = &pieces[n - 1];
    if last.len() > 0 {
        let line = copy_prefix(last, last.len());
        assert(last@.take(last@.len() as int) =~= last@);
        out.push(line);
    }
    assert(views(out@) =~= lines_of(s@));
    out
}

/// The task that one persisted line holds, if it has exactly three fields.
pub fn parse_record(line: &Vec<char>) -> (r: Option<Task>)
    ensures
        match r {
            Some(t) => record_of(line@) == Some(t@),
            None => record_of(line@) is None,
        },
{
    let fields = split_chars(line, '|');
    if fields.len() != 3 {
        return None;
    }
    let status = TaskStatus::from_chars(&fields[0]);
    let description = string_of(&fields[1]);
    let date = string_of(&fields[2]);
    Some(Task { description, status, date })
}

/// The tasks that a persisted text holds, in file order. Lines that do not
/// have exactly three fields are skipped.
pub fn parse_tasks(text: &str) -> (r: Vec<Task>)
    ensures
        models(r@) == parse_text(text@),
{
    let lines = lines_chars(&chars_of(text));
    let ghost ls = views(lines@);
    let mut out: Vec<Task> = Vec::new();
    let mut i: usize = 0;
    assert(ls.take(0) =~= Seq::<Seq<char>>::empty());
    assert(models(out@) =~= Seq::<TaskModel>::empty());
    while i < lines.len()
        invariant
            ls == views(lines@),
            i <= lines@.len(),
            models(out@) == records_of(ls.take(i as int)),
        decreases lines.len() - i,
    {
        assert(ls.take(i + 1).drop_last() =~= ls.take(i as int));
        assert(ls.take(i + 1).last() == lines@[i as int]@);
        match parse_record(&lines[i]) {
            Some(t) => {
                out.push(t);
            },
            None => {},
        }
        assert(models(out@) =~= records_of(ls.take(i + 1)));
        i = i + 1;
    }
    assert(ls.take(i as int) =~= ls);
    out
}

/// The persisted text of a collection: one line per task, in order.
pub fn serialize_tasks(tasks: &Vec<Task>) -> (r: String)
    ensures
        r@ == text_of(models(tasks@)),
{
    let ghost ts = models(tasks@);
    let mut out: Vec<char> = Vec::new();
    let mut i: usize = 0;
    assert(ts.take(0) =~= Seq::<TaskModel>::empty());
    while i < tasks.len()
        invariant
            ts == models(tasks@),
            i <= tasks@.len(),
            out@ == text_of(ts.take(i as int)),
        decreases tasks.len() - i,
    {
        assert(ts.take(i + 1).drop_last() =~= ts.take(i as int));
        assert(ts.take(i + 1).last() == tasks@[i as int]@);
        let t = &tasks[i];
        let mut status = chars_of(t.status.as_str());
        let mut description = chars_of(t.description.as_str());
        let mut date = chars_of(t.date.as_str());
        out.append(&mut status);
        out.push('|');
        out.append(&mut description);
        out.push('|');
        out.append(&mut date);
        out.push('\n');
        assert(out@ =~= text_of(ts.take(i + 1)));
        i = i + 1;
    }
    assert(ts.take(i as int) =~= ts);
    string_of(&out)
}

/// Characters without `sep` extend the last piece.
pub proof fn lemma_split_extend(a: Seq<char>, b: Seq<char>, sep: char)
    requires
        !b.contains(sep),
    ensures
        split(a + b, sep) == split(a, sep).update(
            split(a, sep).len() - 1,
            split(a, sep).last() + b,
        ),
    decreases b.len(),
{
    lemma_split_nonempty(a, sep);
    if b.len() == 0 {
        assert(a + b =~= a);
        assert(split(a, sep).last() + b =~= split(a, sep).last());
        assert(split(a, sep).update(split(a, sep).len() - 1, split(a, sep).last() + b) =~= split(
            a,
            sep,
        ));
    } else {
        let bl = b.drop_last();
        assert(!bl.contains(sep)) by {
            if bl.contains(sep) {
                let k = choose|k: int| 0 <= k < bl.len() && bl[k] == sep;
                assert(b[k] == sep);
            }
        }
        lemma_split_extend(a, bl, sep);
        assert((a + b).drop_last() =~= a + bl);
        assert((a + b).last() == b.last());
        assert(b.last() != sep) by {
            assert(b[b.len() - 1] == b.last());
        }
        assert((split(a, sep).last() + bl).push(b.last()) =~= split(a, sep).last() + b);
        assert(split(a + b, sep) =~= split(a, sep).update(
            split(a, sep).len() - 1,
            split(a, sep).last() + b,
        ));
    }
}

/// Text without `sep` is a single piece.
pub proof fn lemma_split_single(b: Seq<char>, sep: char)
    requires
        !b.contains(sep),
    ensures
        split(b, sep) == seq![b],
{
    lemma_split_extend(Seq::empty(), b, sep);
    assert(Seq::<char>::empty() + b =~= b);
    assert(seq![Seq::<char>::empty()].update(0, Seq::<char>::empty() + b) =~= seq![b]);
}

/// Splitting at a separator splits the two sides apart.
pub proof fn lemma_split_join(a: Seq<char>, b: Seq<char>, sep: char)
    ensures
        split(a + seq![sep] + b, sep) == split(a, sep) + split(b, sep),
    decreases b.len(),
{
    lemma_split_nonempty(a, sep);
    if b.len() == 0 {
        assert(a + seq![sep] + b =~= a.push(sep));
        assert(a.push(sep).drop_last() =~= a);
        assert(split(a + seq![sep] + b, sep) =~= split(a, sep) + split(b, sep));
    } else {
        let bl = b.drop_last();
        lemma_split_join(a, bl, sep);
        lemma_split_nonempty(bl, sep);
        assert((a + seq![sep] + b).drop_last() =~= a + seq![sep] + bl);
        assert((a + seq![sep] + b).last() == b.last());
        assert(split(a + seq![sep] + b, sep) =~= split(a, sep) + split(b, sep));
    }
}

/// A task that the format can hold: neither text field holds `|` or a
/// newline, and the date does not end with a carriage return.
pub open spec fn storable(t: TaskModel) -> bool {
    &&& !t.description.contains('|')
    &&& !t.description.contains('\n')
    &&& !t.date.contains('|')
    &&& !t.date.contains('\n')
    &&& !(t.date.len() > 0 && t.date.last() == '\r')
}

/// The persisted lines of some tasks.
pub open spec fn record_lines(ts: Seq<TaskModel>) -> Seq<Seq<char>> {
    ts.map_values(|t: TaskModel| record_line(t))
}

proof fn lemma_status_text(s: TaskStatus)
    ensures
        status_of(status_text(s)) == s,
        !status_text(s).contains('|'),
        !status_text(s).contains('\n'),
        status_text(s).len() > 0,
{
    if status_text(TaskStatus::Pending) == status_text(TaskStatus::Completed) {
        assert(status_text(TaskStatus::Pending).len() != status_text(TaskStatus::Completed).len());
    }
}

proof fn lemma_no_char_concat(a: Seq<char>, b: Seq<char>, c: char)
    requires
        !a.contains(c),
        !b.contains(c),
    ensures
        !(a + b).contains(c),
{
    if (a + b).contains(c) {
        let k = choose|k: int| 0 <= k < (a + b).len() && (a + b)[k] == c;
        if k < a.len() {
            assert(a[k] == c);
        } else {
            assert(b[k - a.len()] == c);
        }
    }
}

/// A field holding the status name, the description and the date, joined by `|`.
pub open spec fn joined(status: Seq<char>, description: Seq<char>, date: Seq<char>) -> Seq<char> {
    status + seq!['|'] + description + seq!['|'] + date
}

proof fn lemma_joined_record(status: Seq<char>, description: Seq<char>, date: Seq<char>)
    requires
        !status.contains('|'),
        !description.contains('|'),
        !date.contains('|'),
    ensures
        record_of(joined(status, description, date)) == Some(
            TaskModel { status: status_of(status), description, date },
        ),
{
    let x = status + seq!['|'] + description;
    lemma_split_join(x, date, '|');
    lemma_split_join(status, description, '|');
    lemma_split_single(status, '|');
    lemma_split_single(description, '|');
    lemma_split_single(date, '|');
    assert(joined(status, description, date) =~= x + seq!['|'] + date);
    let f = split(joined(status, description, date), '|');
    assert(f =~= seq![status, description, date]);
}

/// A record line has no newline, and ends in a carriage return only where
/// the task cannot be stored.
proof fn lemma_record_line(t: TaskModel)
    requires
        storable(t),
    ensures
        !record_line(t).contains('\n'),
        strip_cr(record_line(t)) == record_line(t),
        record_of(record_line(t)) == Some(t),
{
    lemma_status_text(t.status);
    let bar: Seq<char> = seq!['|'];
    assert(!bar.contains('\n')) by {
        if bar.contains('\n') {
            let k = choose|k: int| 0 <= k < bar.len() && bar[k] == '\n';
            assert(bar[k] == '|');
        }
    }
    lemma_no_char_concat(status_text(t.status), bar, '\n');
    lemma_no_char_concat(status_text(t.status) + bar, t.description, '\n');
    lemma_no_char_concat(status_text(t.status) + bar + t.description, bar, '\n');
    lemma_no_char_concat(status_text(t.status) + bar + t.description + bar, t.date, '\n');
    lemma_joined_record(status_text(t.status), t.description, t.date);
    assert(record_line(t) == joined(status_text(t.status), t.description, t.date));
    let l = record_line(t);
    if t.date.len() > 0 {
        assert(l.last() == t.date.last());
    } else {
        assert(l.last() == '|');
    }
}

proof fn lemma_split_text(ts: Seq<TaskModel>)
    requires
        forall|i: int| 0 <= i < ts.len() ==> storable(#[trigger] ts[i]),
    ensures
        split(text_of(ts), '\n') == record_lines(ts).push(Seq::empty()),
    decreases ts.len(),
{
    if ts.len() > 0 {
        let rest = ts.drop_last();
        lemma_split_text(rest);
        lemma_record_line(ts.last());
        let l = record_line(ts.last());
        lemma_split_extend(text_of(rest), l, '\n');
        assert((text_of(rest) + l + seq!['\n']).drop_last() =~= text_of(rest) + l);
        assert(Seq::<char>::empty() + l =~= l);
        assert(record_lines(ts) =~= record_lines(rest).push(l));
        assert(split(text_of(ts), '\n') =~= record_lines(ts).push(Seq::empty()));
    } else {
        assert(text_of(ts) =~= Seq::<char>::empty());
        assert(record_lines(ts) =~= Seq::<Seq<char>>::empty());
    }
}

proof fn lemma_records_of_lines(ts: Seq<TaskModel>)
    requires
        forall|i: int| 0 <= i < ts.len() ==> storable(#[trigger] ts[i]),
    ensures
        records_of(record_lines(ts)) == ts,
        stripped(record_lines(ts)) == record_lines(ts),
    decreases ts.len(),
{
    if ts.len() > 0 {
        let rest = ts.drop_last();
        lemma_records_of_lines(rest);
        lemma_record_line(ts.last());
        assert(record_lines(ts).drop_last() =~= record_lines(rest));
        assert(records_of(record_lines(ts)) =~= ts);
        assert forall|i: int| 0 <= i < ts.len() implies strip_cr(
            #[trigger] record_lines(ts)[i],
        ) == record_lines(ts)[i] by {
            lemma_record_line(ts[i]);
        }
        assert(stripped(record_lines(ts)) =~= record_lines(ts));
    } else {
        assert(record_lines(ts) =~= Seq::<Seq<char>>::empty());
        assert(stripped(record_lines(ts)) =~= record_lines(ts));
    }
}

/// Reading back what was written gives the same tasks, in the same order,
/// for every collection whose tasks the format can hold.
pub proof fn lemma_round_trip(ts: Seq<TaskModel>)
    requires
        forall|i: int| 0 <= i < ts.len() ==> storable(#[trigger] ts[i]),
    ensures
        parse_text(text_of(ts)) == ts,
{
    lemma_split_text(ts);
    lemma_records_of_lines(ts);
    let pieces = split(text_of(ts), '\n');
    assert(pieces.take(pieces.len() - 1) =~= record_lines(ts));
    assert(lines_of(text_of(ts)) =~= record_lines(ts));
}

/// A persisted status field other than the exact name of `Completed` is read
/// as `Pending`; the other fields are read as they stand.
pub proof fn lemma_unknown_status_is_pending(
    status: Seq<char>,
    description: Seq<char>,
    date: Seq<char>,
)
    requires
        !status.contains('|'),
        !description.contains('|'),
        !date.contains('|'),
        status != status_text(TaskStatus::Completed),
    ensures
        record_of(joined(status, description, date)) == Some(
            TaskModel { status: TaskStatus::Pending, description, date },
        ),
{
    lemma_joined_record(status, description, date);
}

proof fn lemma_lines_join(x: Seq<char>, y: Seq<char>)
    ensures
        lines_of(x + seq!['\n'] + y) == stripped(split(x, '\n')) + lines_of(y),
{
    lemma_split_join(x, y, '\n');
    lemma_split_nonempty(x, '\n');
    lemma_split_nonempty(y, '\n');
    let px = split(x, '\n');
    let py = split(y, '\n');
    let p = split(x + seq!['\n'] + y, '\n');
    assert(p.take(p.len() - 1) =~= px + py.take(py.len() - 1));
    assert(stripped(px + py.take(py.len() - 1)) =~= stripped(px) + stripped(
        py.take(py.len() - 1),
    ));
    assert(p[p.len() - 1] == py[py.len() - 1]);
    assert(lines_of(x + seq!['\n'] + y) =~= stripped(px) + lines_of(y));
}

proof fn lemma_records_append(a: Seq<Seq<char>>, b: Seq<Seq<char>>)
    ensures
        records_of(a + b) == records_of(a) + records_of(b),
    decreases b.len(),
{
    if b.len() == 0 {
        assert(a + b =~= a);
        assert(records_of(a) + records_of(b) =~= records_of(a));
    } else {
        lemma_records_append(a, b.drop_last());
        assert((a + b).drop_last() =~= a + b.drop_last());
        assert((a + b).last() == b.last());
        assert(records_of(a + b) =~= records_of(a) + records_of(b));
    }
}

/// A line that does not have exactly three fields is dropped alone: the
/// text reads as if the line and its newline were not there, so every other
/// line still loads.
pub proof fn lemma_malformed_line_skipped(before: Seq<char>, line: Seq<char>, after: Seq<char>)
    requires
        before.len() == 0 || before.last() == '\n',
        !line.contains('\n'),
        split(line, '|').len() != 3,
    ensures
        parse_text(before + line + seq!['\n'] + after) == parse_text(before + after),
{
    lemma_split_single(line, '\n');
    assert(stripped(split(line, '\n')) =~= seq![strip_cr(line)]);
    if line.len() > 0 && line.last() == '\r' {
        lemma_split_nonempty(line.drop_last(), '|');
        assert(split(strip_cr(line), '|').len() == split(line, '|').len());
    }
    assert(record_of(strip_cr(line)) is None);
    assert(seq![strip_cr(line)].drop_last() =~= Seq::<Seq<char>>::empty());
    assert(seq![strip_cr(line)].last() == strip_cr(line));
    assert(records_of(Seq::<Seq<char>>::empty()) =~= Seq::<TaskModel>::empty());
    assert(records_of(seq![strip_cr(line)]) =~= Seq::<TaskModel>::empty());
    lemma_lines_join(line, after);
    lemma_records_append(seq![strip_cr(line)], lines_of(after));
    assert(parse_text(line + seq!['\n'] + after) =~= parse_text(after));
    if before.len() == 0 {
        assert(before + line + seq!['\n'] + after =~= line + seq!['\n'] + after);
        assert(before + after =~= after);
    } else {
        let b = before.drop_last();
        assert(before + line + seq!['\n'] + after =~= b + seq!['\n'] + (line + seq!['\n']
            + after));
        assert(before + after =~= b + seq!['\n'] + after);
        lemma_lines_join(b, line + seq!['\n'] + after);
        lemma_lines_join(b, after);
        lemma_records_append(stripped(split(b, '\n')), lines_of(line + seq!['\n'] + after));
        lemma_records_append(stripped(split(b, '\n')), lines_of(after));
    }
}

} // verus!
