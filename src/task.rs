//! Tasks, their status, and the operations on an ordered task collection.
use vstd::prelude::*;
use crate::text::{chars_of, contains, contains_chars, lower_of, lowercase};

verus! {

/// Where a task stands in its lifecycle.
#[derive(Debug, Clone, Copy, PartialEq, Eq, Structural)]
pub enum TaskStatus {
    Pending,
    Completed,
}

/// The persisted name of a status.
pub open spec fn status_text(s: TaskStatus) -> Seq<char> {
    match s {
        TaskStatus::Pending => seq!['P', 'e', 'n', 'd', 'i', 'n', 'g'],
        TaskStatus::Completed => seq!['C', 'o', 'm', 'p', 'l', 'e', 't', 'e', 'd'],
    }
}

/// The status a persisted name stands for: anything but the exact name of
/// `Completed` is read as `Pending`.
pub open spec fn status_of(s: Seq<char>) -> TaskStatus {
    if s == status_text(TaskStatus::Completed) {
        TaskStatus::Completed
    } else {
        TaskStatus::Pending
    }
}

/// Compares two character vectors.
pub fn chars_equal(a: &Vec<char>, b: &Vec<char>) -> (r: bool)
    ensures
        r == (a@ == b@),
{
    if a.len() != b.len() {
        return false;
    }
    let mut i: usize = 0;
    while i < a.len()
        invariant
            a@.len() == b@.len(),
            i <= a@.len(),
            forall|k: int| 0 <= k < i ==> a@[k] == b@[k],
        decreases a.len() - i,
    {
        if a[i] != b[i] {
            return false;
        }
        i = i + 1;
    }
    assert(a@ =~= b@);
    true
}

impl TaskStatus {
    /// Reads a persisted status name; unknown names give `Pending`.
    pub fn from_str(s: &str) -> (r: TaskStatus)
        ensures
            r == status_of(s@),
    {
        TaskStatus::from_chars(&chars_of(s))
    }

    /// Reads a persisted status name given as characters.
    pub fn from_chars(field: &Vec<char>) -> (r: TaskStatus)
        ensures
            r == status_of(field@),
    {
        let name = "Completed";
        proof {
            reveal_strlit("Completed");
        }
        assert(name@ =~= status_text(TaskStatus::Completed));
        if chars_equal(field, &chars_of(name)) {
            TaskStatus::Completed
        } else {
            TaskStatus::Pending
        }
    }

    /// The persisted name of this status.
    pub fn as_str(&self) -> (r: &'static str)
        ensures
            r@ == status_text(*self),
    {
        match self {
            TaskStatus::Pending => {
                proof {
                    reveal_strlit("Pending");
                }
                let r = "Pending";
                assert(r@ =~= status_text(*self));
                r
            },
            TaskStatus::Completed => {
                proof {
                    reveal_strlit("Completed");
                }
                let r = "Completed";
                assert(r@ =~= status_text(*self));
                r
            },
        }
    }
}

/// A task as the contracts see it.
pub ghost struct TaskModel {
    pub status: TaskStatus,
    pub description: Seq<char>,
    pub date: Seq<char>,
}

/// One to-do record.
#[derive(Debug, Clone, PartialEq, Eq)]
pub struct Task {
    pub description: String,
    pub status: TaskStatus,
    pub date: String,
}

impl View for Task {
    type V = TaskModel;

    open spec fn view(&self) -> TaskModel {
        TaskModel { status: self.status, description: self.description@, date: self.date@ }
    }
}

/// The models of a sequence of tasks.
pub open spec fn models(ts: Seq<Task>) -> Seq<TaskModel> {
    ts.map_values(|t: Task| t@)
}

/// The date stamped on new tasks.
pub open spec fn creation_date() -> Seq<char> {
    seq!['2', '0', '2', '5', '-', '1', '1', '-', '1', '4']
}

/// The date stamped on new tasks: a fixed value, as no command depends on
/// the passing of time.
pub fn today_string() -> (r: String)
    ensures
        r@ == creation_date(),
{
    let d = "2025-11-14";
    proof {
        reveal_strlit("2025-11-14");
    }
    assert(d@ =~= creation_date());
    crate::text::string_of(&chars_of(d))
}

impl Task {
    /// A pending task.
    pub fn new(description: String, date: String) -> (r: Task)
        ensures
            r@ == (TaskModel { status: TaskStatus::Pending, description: description@, date: date@ }),
    {
        Task { description, status: TaskStatus::Pending, date }
    }
}

/// Why an operation on a position was refused.
#[derive(Debug, Clone, Copy, PartialEq, Eq, Structural)]
pub enum TaskError {
    /// The position is not between 1 and the number of tasks.
    InvalidIndex,
}

/// A 1-based position names a task of a collection of `len` tasks.
pub open spec fn valid_position(len: int, position: int) -> bool {
    1 <= position <= len
}

/// The collection with the task at a valid 1-based position marked completed.
pub open spec fn marked(ts: Seq<TaskModel>, position: int) -> Seq<TaskModel> {
    ts.update(position - 1, TaskModel { status: TaskStatus::Completed, ..ts[position - 1] })
}

/// Appends a pending task with this description and date.
pub fn add_task(tasks: &mut Vec<Task>, description: String, date: String)
    ensures
        final(tasks)@.len() == old(tasks)@.len() + 1,
        models(final(tasks)@) == models(old(tasks)@).push(
            TaskModel { status: TaskStatus::Pending, description: description@, date: date@ },
        ),
{
    tasks.push(Task::new(description, date));
    assert(models(final(tasks)@) =~= models(old(tasks)@).push(
        TaskModel { status: TaskStatus::Pending, description: description@, date: date@ },
    ));
}

/// Marks the task at a 1-based position completed; any other position is
/// refused and leaves the collection as it was.
pub fn mark_completed(tasks: &mut Vec<Task>, position: usize) -> (r: Result<(), TaskError>)
    ensures
        valid_position(old(tasks)@.len() as int, position as int) ==> r is Ok && models(
            final(tasks)@,
        ) == marked(models(old(tasks)@), position as int) && final(tasks)@.len() == old(
            tasks,
        )@.len(),
        !valid_position(old(tasks)@.len() as int, position as int) ==> r == Err::<(), TaskError>(
            TaskError::InvalidIndex,
        ) && final(tasks)@ == old(tasks)@,
{
    if position < 1 || position > tasks.len() {
        return Err(TaskError::InvalidIndex);
    }
    let i = position - 1;
    let mut t = tasks.remove(i);
    t.status = TaskStatus::Completed;
    tasks.insert(i, t);
    assert(models(final(tasks)@) =~= marked(models(old(tasks)@), position as int));
    Ok(())
}

/// Removes the task at a 1-based position; any other position is refused
/// and leaves the collection as it was.
pub fn delete_task(tasks: &mut Vec<Task>, position: usize) -> (r: Result<(), TaskError>)
    ensures
        valid_position(old(tasks)@.len() as int, position as int) ==> r is Ok && models(
            final(tasks)@,
        ) == models(old(tasks)@).remove(position - 1) && final(tasks)@.len() == old(tasks)@.len()
            - 1,
        !valid_position(old(tasks)@.len() as int, position as int) ==> r == Err::<(), TaskError>(
            TaskError::InvalidIndex,
        ) && final(tasks)@ == old(tasks)@,
{
    if position < 1 || position > tasks.len() {
        return Err(TaskError::InvalidIndex);
    }
    tasks.remove(position - 1);
    assert(models(final(tasks)@) =~= models(old(tasks)@).remove(position - 1));
    Ok(())
}

/// The task is still pending.
pub open spec fn is_pending(t: TaskModel) -> bool {
    t.status == TaskStatus::Pending
}

/// The collection without its completed tasks, the others in their order.
pub open spec fn without_completed(ts: Seq<TaskModel>) -> Seq<TaskModel> {
    ts.filter(pending())
}

/// `is_pending` as a predicate value.
pub open spec fn pending() -> spec_fn(TaskModel) -> bool {
    |t: TaskModel| is_pending(t)
}

/// Removes every completed task, keeping the order of the rest.
pub fn clear_completed(tasks: &mut Vec<Task>)
    ensures
        models(final(tasks)@) == without_completed(models(old(tasks)@)),
        final(tasks)@.len() == without_completed(models(old(tasks)@)).len(),
{
    let ghost orig = models(tasks@);
    let mut i: usize = 0;
    let mut k: usize = 0;
    let n = tasks.len();
    assert(models(tasks@) =~= orig.take(0).filter(pending()) + orig.skip(0)) by {
        reveal(Seq::filter);
    }
    while k < n
        invariant
            n == orig.len(),
            k <= n,
            i == orig.take(k as int).filter(pending()).len(),
            models(tasks@) == orig.take(k as int).filter(pending()) + orig.skip(k as int),
        decreases n - k,
    {
        proof {
            orig.take(k as int).lemma_filter_push(orig[k as int], pending());
            assert(orig.take(k as int).push(orig[k as int]) =~= orig.take(k + 1));
            assert(orig.skip(k as int) =~= seq![orig[k as int]] + orig.skip(k + 1));
            assert(models(tasks@).len() == tasks@.len());
            assert(models(tasks@)[i as int] == orig[k as int]);
            assert(tasks@[i as int]@ == orig[k as int]);
        }
        let done = tasks[i].status == TaskStatus::Completed;
        assert(done == !pending()(orig[k as int]));
        if done {
            let ghost before = models(tasks@);
            tasks.remove(i);
            assert(models(tasks@) =~= before.remove(i as int));
            assert(before =~= orig.take(k as int).filter(pending()) + (seq![orig[k as int]]
                + orig.skip(k + 1)));
            assert(models(tasks@) =~= orig.take(k + 1).filter(pending()) + orig.skip(k + 1));
        } else {
            assert(models(tasks@) =~= orig.take(k + 1).filter(pending()) + orig.skip(k + 1));
            i = i + 1;
        }
        k = k + 1;
    }
    assert(orig.take(n as int) =~= orig);
    assert(orig.skip(n as int) =~= Seq::<TaskModel>::empty());
    assert(models(tasks@) =~= without_completed(orig));
}

/// Which tasks a listing shows.
#[derive(Debug, Clone, Copy, PartialEq, Eq, Structural)]
pub enum TaskFilter {
    All,
    Pending,
    Completed,
}

/// The listing `show` includes the task.
pub open spec fn shows(show: TaskFilter, t: TaskModel) -> bool {
    match show {
        TaskFilter::All => true,
        TaskFilter::Pending => t.status == TaskStatus::Pending,
        TaskFilter::Completed => t.status == TaskStatus::Completed,
    }
}

/// The 1-based positions, in the whole collection and in order, of the tasks
/// that satisfy `p`.
pub open spec fn positions_where(ts: Seq<TaskModel>, p: spec_fn(TaskModel) -> bool) -> Seq<int>
    decreases ts.len(),
{
    if ts.len() == 0 {
        Seq::empty()
    } else {
        let before = positions_where(ts.drop_last(), p);
        if p(ts.last()) {
            before.push(ts.len() as int)
        } else {
            before
        }
    }
}

/// Positions as mathematical integers.
pub open spec fn as_ints(v: Seq<usize>) -> Seq<int> {
    v.map_values(|x: usize| x as int)
}

/// The positions of the tasks that the listing `show` includes.
pub open spec fn listed(ts: Seq<TaskModel>, show: TaskFilter) -> Seq<int> {
    positions_where(ts, shown_by(show))
}

/// `shows(show, _)` as a predicate value.
pub open spec fn shown_by(show: TaskFilter) -> spec_fn(TaskModel) -> bool {
    |t: TaskModel| shows(show, t)
}

/// The positions of the tasks whose lower-cased description contains `folded_query`.
pub open spec fn found(ts: Seq<TaskModel>, folded_query: Seq<char>) -> Seq<int> {
    positions_where(ts, |t: TaskModel| contains(lower_of(t.description), folded_query))
}

/// The 1-based positions of the tasks that the listing `show` includes, in
/// collection order. Positions count in the whole collection, so they can be
/// handed to `mark_completed` and `delete_task` as they are.
pub fn list_tasks(tasks: &Vec<Task>, show: TaskFilter) -> (r: Vec<usize>)
    ensures
        as_ints(r@) == listed(models(tasks@), show),
        r@.len() == listed(models(tasks@), show).len(),
{
    let ghost ts = models(tasks@);
    let ghost p = shown_by(show);
    let mut out: Vec<usize> = Vec::new();
    let mut i: usize = 0;
    assert(ts.take(0) =~= Seq::<TaskModel>::empty());
    while i < tasks.len()
        invariant
            ts == models(tasks@),
            p == shown_by(show),
            i <= tasks@.len(),
            as_ints(out@) == positions_where(ts.take(i as int), p),
        decreases tasks.len() - i,
    {
        assert(ts.take(i + 1).drop_last() =~= ts.take(i as int));
        assert(ts.take(i + 1).last() == tasks@[i as int]@);
        let st = tasks[i].status;
        let keep = match show {
            TaskFilter::All => true,
            TaskFilter::Pending => st == TaskStatus::Pending,
            TaskFilter::Completed => st == TaskStatus::Completed,
        };
        if keep {
            out.push(i + 1);
        }
        assert(as_ints(out@) =~= positions_where(ts.take(i + 1), p));
        i = i + 1;
    }
    assert(ts.take(i as int) =~= ts);
    out
}

/// Substring test on already lower-cased text: `folded_query` occurs in
/// `folded_description`.
pub fn matches_folded(folded_query: &str, folded_description: &str) -> (r: bool)
    ensures
        r == contains(folded_description@, folded_query@),
{
    contains_chars(&chars_of(folded_description), &chars_of(folded_query))
}

/// The 1-based positions of the tasks whose description contains `query`,
/// ignoring case, in collection order. The empty query matches every task.
pub fn search_tasks(tasks: &Vec<Task>, query: &str) -> (r: Vec<usize>)
    ensures
        as_ints(r@) == found(models(tasks@), lower_of(query@)),
        r@.len() == found(models(tasks@), lower_of(query@)).len(),
{
    let ghost ts = models(tasks@);
    let folded = lowercase(query);
    let ghost p = |t: TaskModel| contains(lower_of(t.description), folded@);
    let mut out: Vec<usize> = Vec::new();
    let mut i: usize = 0;
    assert(ts.take(0) =~= Seq::<TaskModel>::empty());
    while i < tasks.len()
        invariant
            ts == models(tasks@),
            p == (|t: TaskModel| contains(lower_of(t.description), folded@)),
            folded@ == lower_of(query@),
            i <= tasks@.len(),
            as_ints(out@) == positions_where(ts.take(i as int), p),
        decreases tasks.len() - i,
    {
        assert(ts.take(i + 1).drop_last() =~= ts.take(i as int));
        assert(ts.take(i + 1).last() == tasks@[i as int]@);
        let desc = lowercase(tasks[i].description.as_str());
        if matches_folded(folded.as_str(), desc.as_str()) {
            out.push(i + 1);
        }
        assert(as_ints(out@) =~= positions_where(ts.take(i + 1), p));
        i = i + 1;
    }
    assert(ts.take(i as int) =~= ts);
    out
}

/// Positions 0 and one past the end name no task; when there are tasks, the
/// first and the last position do.
pub proof fn lemma_position_bounds(ts: Seq<TaskModel>)
    ensures
        !valid_position(ts.len() as int, 0),
        !valid_position(ts.len() as int, ts.len() + 1 as int),
        ts.len() >= 1 ==> valid_position(ts.len() as int, 1) && valid_position(
            ts.len() as int,
            ts.len() as int,
        ),
{
}

/// The positions that satisfy `p` are increasing, each names a task of the
/// collection, and the tasks they name are exactly the tasks that satisfy
/// `p`, in collection order.
pub proof fn lemma_positions_where(ts: Seq<TaskModel>, p: spec_fn(TaskModel) -> bool)
    ensures
        positions_where(ts, p).len() == ts.filter(p).len(),
        forall|k: int|
            0 <= k < positions_where(ts, p).len() ==> 1 <= #[trigger] positions_where(ts, p)[k]
                <= ts.len() && ts[positions_where(ts, p)[k] - 1] == ts.filter(p)[k],
        forall|k1: int, k2: int|
            0 <= k1 < k2 < positions_where(ts, p).len() ==> #[trigger] positions_where(ts, p)[k1]
                < #[trigger] positions_where(ts, p)[k2],
    decreases ts.len(),
{
    if ts.len() == 0 {
        reveal(Seq::filter);
    } else {
        let rest = ts.drop_last();
        lemma_positions_where(rest, p);
        rest.lemma_filter_push(ts.last(), p);
        assert(rest.push(ts.last()) =~= ts);
        let r = positions_where(ts, p);
        let q = positions_where(rest, p);
        assert forall|k: int| 0 <= k < r.len() implies 1 <= #[trigger] r[k] <= ts.len() && ts[r[k]
            - 1] == ts.filter(p)[k] by {
            if k < q.len() {
                assert(r[k] == q[k]);
                assert(ts[q[k] - 1] == rest[q[k] - 1]);
            }
        }
        assert forall|k1: int, k2: int| 0 <= k1 < k2 < r.len() implies #[trigger] r[k1]
            < #[trigger] r[k2] by {
            if k2 < q.len() {
                assert(r[k1] == q[k1] && r[k2] == q[k2]);
            } else {
                assert(r[k1] == q[k1]);
            }
        }
    }
}

/// A listing gives exactly the tasks that it includes, in collection order,
/// each with its 1-based position in the whole collection.
pub proof fn lemma_listing_exact(ts: Seq<TaskModel>, show: TaskFilter)
    ensures
        listed(ts, show).len() == ts.filter(shown_by(show)).len(),
        forall|k: int|
            0 <= k < listed(ts, show).len() ==> 1 <= #[trigger] listed(ts, show)[k] <= ts.len()
                && ts[listed(ts, show)[k] - 1] == ts.filter(shown_by(show))[k],
        forall|k1: int, k2: int|
            0 <= k1 < k2 < listed(ts, show).len() ==> #[trigger] listed(ts, show)[k1]
                < #[trigger] listed(ts, show)[k2],
        forall|k: int|
            0 <= k < listed(ts, show).len() ==> shows(show, ts[#[trigger] listed(ts, show)[k] - 1]),
{
    lemma_positions_where(ts, shown_by(show));
    assert forall|k: int| 0 <= k < listed(ts, show).len() implies shows(
        show,
        ts[#[trigger] listed(ts, show)[k] - 1],
    ) by {
        ts.lemma_filter_pred(shown_by(show), k);
    }
}

/// Clearing completed tasks a second time changes nothing.
pub proof fn lemma_clear_idempotent(ts: Seq<TaskModel>)
    ensures
        without_completed(without_completed(ts)) == without_completed(ts),
    decreases ts.len(),
{
    if ts.len() == 0 {
        reveal(Seq::filter);
    } else {
        let rest = ts.drop_last();
        lemma_clear_idempotent(rest);
        rest.lemma_filter_push(ts.last(), pending());
        assert(rest.push(ts.last()) =~= ts);
        if pending()(ts.last()) {
            without_completed(rest).lemma_filter_push(ts.last(), pending());
        }
    }
}

} // verus!
