//! The history of tasks, derived from the revisions of a document.
//!
//! A `FrumpRepo` holds the revisions of one document as plain values, in the
//! order in which they are to be walked. Each revision carries the text the
//! document had at that point, or nothing if the document was absent or
//! could not be read. A revision whose text does not parse counts as one
//! without the document: it never stops a walk.

use crate::domain::document::{id_index, max_id, task_views};
use crate::domain::task::{Task, TaskView};
use crate::domain::task_id::TaskId;
use crate::domain::task_type::{TaskType, TypeView};
use crate::error::ParseError;
use crate::parser::grammar::document_of;
use crate::parser::parse;
use crate::text::{chars_of, string_of, trim, trim_chars};
use vstd::prelude::*;

verus! {

/// What a revision did to a task.
#[derive(Debug, Clone, Copy, PartialEq, Eq, Structural)]
pub enum ChangeType {
    Created,
    Modified,
    Deleted,
}

/// Why a history could not be derived.
#[derive(Debug, Clone, Copy, PartialEq, Eq, Structural)]
pub enum HistoryError {
    /// The revision at this position, counted from zero, changed the task
    /// at a time that is not a representable calendar date.
    InvalidTimestamp { revision: usize },
}

/// The mathematical value of a revision.
pub struct RevisionView {
    pub id: Seq<char>,
    pub author: Seq<char>,
    pub timestamp: int,
    pub message: Seq<char>,
    pub content: Option<Seq<char>>,
}

/// One revision of the document: who made it, when, with what message, and
/// the text of the document at that point, if it was there.
#[derive(Debug)]
pub struct Revision {
    pub id: String,
    pub author: String,
    pub timestamp: i64,
    pub message: String,
    pub content: Option<String>,
}

impl View for Revision {
    type V = RevisionView;

    open spec fn view(&self) -> RevisionView {
        RevisionView {
            id: self.id@,
            author: self.author@,
            timestamp: self.timestamp as int,
            message: self.message@,
            content: match self.content {
                Some(c) => Some(c@),
                None => None,
            },
        }
    }
}

impl Revision {
    /// A revision. An author without a name is called `Unknown`; the
    /// message is trimmed, and a missing one is empty.
    pub fn new(
        id: String,
        author: Option<String>,
        timestamp: i64,
        message: Option<String>,
        content: Option<String>,
    ) -> (r: Revision)
        ensures
            r@.id == id@,
            r@.author == match author {
                Some(a) => a@,
                None => "Unknown"@,
            },
            r@.timestamp == timestamp,
            r@.message == match message {
                Some(m) => trim(m@),
                None => Seq::<char>::empty(),
            },
            r.content == content,
    {
        let author = match author {
            Some(a) => a,
            None => "Unknown".to_owned(),
        };
        let message = match message {
            Some(m) => string_of(&trim_chars(&chars_of(m.as_str()))),
            None => String::new(),
        };
        Revision { id, author, timestamp, message, content }
    }
}

/// The values of a sequence of revisions.
pub open spec fn revision_views(s: Seq<Revision>) -> Seq<RevisionView> {
    Seq::new(s.len(), |i: int| s[i]@)
}

/// The tasks of the document at a revision: none if the document was
/// absent or does not parse.
pub open spec fn snapshot(content: Option<Seq<char>>) -> Option<Seq<TaskView>> {
    match content {
        None => None,
        Some(text) => match document_of(text) {
            Ok(d) => Some(d.tasks),
            Err(_) => None,
        },
    }
}

/// Whether a task with identifier `id` is among `tasks`.
pub open spec fn contains_id(tasks: Seq<TaskView>, id: nat) -> bool {
    id_index(tasks, id) < tasks.len()
}

/// Whether the document at the revision holds a task with identifier `id`.
pub open spec fn present(r: RevisionView, id: nat) -> bool {
    match snapshot(r.content) {
        Some(tasks) => contains_id(tasks, id),
        None => false,
    }
}

/// What a revision did to a task that was or was not there before it, and
/// is or is not there after it.
pub open spec fn change(before: bool, now: bool) -> Option<ChangeType> {
    if now && !before {
        Some(ChangeType::Created)
    } else if !now && before {
        Some(ChangeType::Deleted)
    } else if now && before {
        Some(ChangeType::Modified)
    } else {
        None
    }
}

/// Classifies a revision by whether the task was there before and after it.
pub fn classify(before: bool, now: bool) -> (r: Option<ChangeType>)
    ensures
        r == change(before, now),
{
    if now && !before {
        Some(ChangeType::Created)
    } else if !now && before {
        Some(ChangeType::Deleted)
    } else if now && before {
        Some(ChangeType::Modified)
    } else {
        None
    }
}

/// The changes that a sequence of presences amounts to, oldest first: one
/// for each step that is not from absent to absent, the task being absent
/// before the first.
pub open spec fn changes(presence: Seq<bool>) -> Seq<ChangeType>
    decreases presence.len(),
{
    if presence.len() == 0 {
        Seq::empty()
    } else {
        let before = presence.len() >= 2 && presence[presence.len() - 2];
        match change(before, presence.last()) {
            Some(c) => changes(presence.drop_last()).push(c),
            None => changes(presence.drop_last()),
        }
    }
}

/// Classifies every step of a sequence of presences.
pub fn classify_all(presence: &Vec<bool>) -> (r: Vec<ChangeType>)
    ensures
        r@ == changes(presence@),
{
    let mut out: Vec<ChangeType> = Vec::new();
    let mut before = false;
    let mut i: usize = 0;
    while i < presence.len()
        invariant
            i <= presence.len(),
            before == (i >= 1 && presence@[i - 1]),
            out@ == changes(presence@.take(i as int)),
        decreases presence.len() - i,
    {
        assert(presence@.take(i + 1).drop_last() == presence@.take(i as int));
        let now = presence[i];
        match classify(before, now) {
            Some(c) => {
                out.push(c);
            },
            None => {},
        }
        before = now;
        i += 1;
    }
    assert(presence@.take(i as int) == presence@);
    out
}

/// The mathematical value of a recorded change.
pub struct EventView {
    pub hash: Seq<char>,
    pub author: Seq<char>,
    pub date: int,
    pub message: Seq<char>,
    pub change_type: ChangeType,
}

/// A revision that changed a task, and how. The date is in seconds since
/// the Unix epoch.
#[derive(Debug)]
pub struct TaskCommit {
    pub hash: String,
    pub author: String,
    pub date: i64,
    pub message: String,
    pub change_type: ChangeType,
}

impl View for TaskCommit {
    type V = EventView;

    open spec fn view(&self) -> EventView {
        EventView {
            hash: self.hash@,
            author: self.author@,
            date: self.date as int,
            message: self.message@,
            change_type: self.change_type,
        }
    }
}

/// The event that records that revision `r` changed a task as `c` says.
pub open spec fn event(r: RevisionView, c: ChangeType) -> EventView {
    EventView { hash: r.id, author: r.author, date: r.timestamp, message: r.message, change_type: c }
}

impl TaskCommit {
    /// The record of the change `change_type` by `revision`, if the date of
    /// the revision is representable, as `date_ok` tells.
    pub fn record(revision: &Revision, change_type: ChangeType, date_ok: bool) -> (r: Option<
        TaskCommit,
    >)
        ensures
            match r {
                Some(c) => date_ok && c@ == event(revision@, change_type),
                None => !date_ok,
            },
    {
        if !date_ok {
            return None;
        }
        Some(
            TaskCommit {
                hash: revision.id.clone(),
                author: revision.author.clone(),
                date: revision.timestamp,
                message: revision.message.clone(),
                change_type,
            },
        )
    }
}

/// The values of a sequence of recorded changes.
pub open spec fn event_views(s: Seq<TaskCommit>) -> Seq<EventView> {
    Seq::new(s.len(), |i: int| s[i]@)
}

/// The changes of one task over the revisions, oldest first.
#[derive(Debug)]
pub struct TaskHistory {
    pub task_id: TaskId,
    pub commits: Vec<TaskCommit>,
}

/// Whether the instant `seconds` after the Unix epoch falls on a calendar
/// date that `chrono` can represent.
pub uninterp spec fn representable_timestamp(seconds: int) -> bool;

/// `chrono::DateTime::from_timestamp` with zero nanoseconds: whether it
/// gives a date for `seconds`. It gives none when the date is out of its
/// range, and does not panic.
#[verifier::external_body]
fn timestamp_is_representable(seconds: i64) -> (r: bool)
    ensures
        r == representable_timestamp(seconds as int),
{
    chrono::DateTime::from_timestamp(seconds, 0).is_some()
}

/// The timeline of task `id` over `revs`: for each revision, in order, the
/// event of its change, if it made one. The first such revision whose date
/// is not representable makes the whole an error.
pub open spec fn timeline(revs: Seq<RevisionView>, id: nat) -> Result<Seq<EventView>, HistoryError>
    decreases revs.len(),
{
    if revs.len() == 0 {
        Ok(Seq::empty())
    } else {
        let last = revs.len() - 1;
        let before = last >= 1 && present(revs[last - 1], id);
        match timeline(revs.drop_last(), id) {
            Err(e) => Err(e),
            Ok(events) => match change(before, present(revs[last], id)) {
                None => Ok(events),
                Some(c) => if representable_timestamp(revs[last].timestamp) {
                    Ok(events.push(event(revs[last], c)))
                } else {
                    Err(HistoryError::InvalidTimestamp { revision: last as usize })
                },
            },
        }
    }
}

/// The presences of task `id` over `revs`.
pub open spec fn presences(revs: Seq<RevisionView>, id: nat) -> Seq<bool> {
    Seq::new(revs.len(), |i: int| present(revs[i], id))
}

/// The largest identifier in any snapshot of `revs`, or zero if no snapshot
/// holds a task.
pub open spec fn historical_max(revs: Seq<RevisionView>) -> nat
    decreases revs.len(),
{
    if revs.len() == 0 {
        0
    } else {
        let before = historical_max(revs.drop_last());
        let here = match snapshot(revs.last().content) {
            Some(tasks) => max_id(tasks),
            None => 0,
        };
        if here > before {
            here
        } else {
            before
        }
    }
}

/// The mathematical value of what is remembered of a task.
pub struct RecordView {
    pub id: nat,
    pub task_type: TypeView,
    pub subject: Seq<char>,
}

/// What is remembered of a task: its identifier, type and subject.
pub open spec fn record_of(t: TaskView) -> RecordView {
    RecordView { id: t.id, task_type: t.task_type, subject: t.subject }
}

/// The value of a remembered task.
pub open spec fn record_view(r: (TaskId, TaskType, String)) -> RecordView {
    RecordView { id: r.0@, task_type: r.1@, subject: r.2@ }
}

/// The values of a sequence of remembered tasks.
pub open spec fn record_views(s: Seq<(TaskId, TaskType, String)>) -> Seq<RecordView> {
    Seq::new(s.len(), |i: int| record_view(s[i]))
}

/// The index of the first record with identifier `id`, or the number of
/// records if there is none.
pub open spec fn record_index(seen: Seq<RecordView>, id: nat) -> int
    decreases seen.len(),
{
    if seen.len() == 0 || seen[0].id == id {
        0
    } else {
        1 + record_index(seen.skip(1), id)
    }
}

/// `record_index` lies within the records, finds the identifier, and no
/// record before it has the identifier.
pub proof fn lemma_record_index(seen: Seq<RecordView>, id: nat)
    ensures
        0 <= record_index(seen, id) <= seen.len(),
        record_index(seen, id) < seen.len() ==> seen[record_index(seen, id)].id == id,
        forall|j: int| 0 <= j < record_index(seen, id) ==> seen[j].id != id,
    decreases seen.len(),
{
    if seen.len() == 0 || seen[0].id == id {
    } else {
        lemma_record_index(seen.skip(1), id);
        assert forall|j: int| 0 <= j < record_index(seen, id) implies seen[j].id != id by {
            if j > 0 {
                assert(seen.skip(1)[j - 1] == seen[j]);
            }
        }
    }
}

/// Whether a record with identifier `id` is among `seen`.
pub open spec fn known(seen: Seq<RecordView>, id: nat) -> bool {
    record_index(seen, id) < seen.len()
}

/// The records after the tasks of one snapshot were observed: each task
/// whose identifier was not known yet adds a record; the first record of an
/// identifier stays.
pub open spec fn observe(seen: Seq<RecordView>, tasks: Seq<TaskView>) -> Seq<RecordView>
    decreases tasks.len(),
{
    if tasks.len() == 0 {
        seen
    } else {
        let before = observe(seen, tasks.drop_last());
        if known(before, tasks.last().id) {
            before
        } else {
            before.push(record_of(tasks.last()))
        }
    }
}

/// The records after all revisions were observed, in the order given.
pub open spec fn observed(revs: Seq<RevisionView>) -> Seq<RecordView>
    decreases revs.len(),
{
    if revs.len() == 0 {
        Seq::empty()
    } else {
        let before = observed(revs.drop_last());
        match snapshot(revs.last().content) {
            Some(tasks) => observe(before, tasks),
            None => before,
        }
    }
}

/// Whether no two records share an identifier.
pub open spec fn distinct_ids(seen: Seq<RecordView>) -> bool {
    forall|i: int, j: int| 0 <= i < j < seen.len() ==> seen[i].id != seen[j].id
}

/// Whether the records stand in strictly ascending order of identifier.
pub open spec fn ascending(out: Seq<RecordView>) -> bool {
    forall|i: int, j: int| 0 <= i < j < out.len() ==> out[i].id < out[j].id
}

/// Whether `out` lists the deleted tasks: exactly the records of `seen`
/// whose identifier is not among `current`, in ascending order of identifier.
pub open spec fn lists_deleted(
    out: Seq<RecordView>,
    seen: Seq<RecordView>,
    current: Seq<TaskView>,
) -> bool {
    &&& ascending(out)
    &&& forall|r: RecordView|
        out.contains(r) <==> (seen.contains(r) && !contains_id(current, r.id))
}

/// Observing keeps identifiers distinct.
pub proof fn lemma_observe_distinct(seen: Seq<RecordView>, tasks: Seq<TaskView>)
    requires
        distinct_ids(seen),
    ensures
        distinct_ids(observe(seen, tasks)),
    decreases tasks.len(),
{
    if tasks.len() > 0 {
        lemma_observe_distinct(seen, tasks.drop_last());
        let before = observe(seen, tasks.drop_last());
        lemma_record_index(before, tasks.last().id);
    }
}

/// The records of a history never share an identifier.
pub proof fn lemma_observed_distinct(revs: Seq<RevisionView>)
    ensures
        distinct_ids(observed(revs)),
    decreases revs.len(),
{
    if revs.len() > 0 {
        lemma_observed_distinct(revs.drop_last());
        match snapshot(revs.last().content) {
            Some(tasks) => {
                lemma_observe_distinct(observed(revs.drop_last()), tasks);
            },
            None => {},
        }
    }
}

/// The revisions of one document, in the order in which they are walked:
/// oldest first, where what comes first matters, as it does for a timeline
/// and for the first sighting of a task.
#[derive(Debug)]
pub struct FrumpRepo {
    revisions: Vec<Revision>,
}

impl View for FrumpRepo {
    type V = Seq<RevisionView>;

    closed spec fn view(&self) -> Seq<RevisionView> {
        revision_views(self.revisions@)
    }
}

fn observe_tasks(seen: &mut Vec<(TaskId, TaskType, String)>, tasks: &[Task])
    ensures
        record_views(final(seen)@) == observe(record_views(old(seen)@), task_views(tasks@)),
{
    let ghost start = record_views(seen@);
    let ghost all = task_views(tasks@);
    let mut i: usize = 0;
    assert(all.take(0) == Seq::<TaskView>::empty());
    while i < tasks.len()
        invariant
            all == task_views(tasks@),
            i <= tasks.len(),
            record_views(seen@) == observe(start, all.take(i as int)),
        decreases tasks.len() - i,
    {
        assert(all.take(i + 1).drop_last() == all.take(i as int));
        assert(all.take(i + 1).last() == tasks[i as int]@);
        let ghost before = record_views(seen@);
        let task = &tasks[i];
        if !is_known(seen, task.id) {
            seen.push((task.id, task.task_type.clone(), task.subject.clone()));
            assert(record_views(seen@) == before.push(record_of(task@)));
        }
        i += 1;
    }
    assert(all.take(i as int) == all);
}

fn is_known(seen: &Vec<(TaskId, TaskType, String)>, id: TaskId) -> (r: bool)
    ensures
        r == known(record_views(seen@), id@),
{
    let ghost records = record_views(seen@);
    let mut i: usize = 0;
    assert(records.skip(0) == records);
    while i < seen.len()
        invariant
            records == record_views(seen@),
            i <= seen.len(),
            record_index(records, id@) == i + record_index(records.skip(i as int), id@),
        decreases seen.len() - i,
    {
        assert(records.skip(i as int)[0] == record_view(seen[i as int]));
        if seen[i].0.value() == id.value() {
            return true;
        }
        assert(records.skip(i as int).skip(1) == records.skip(i + 1));
        i += 1;
    }
    false
}

/// Inserts a record into a list in ascending order of identifier, which
/// does not hold the identifier yet.
fn insert_ascending(out: &mut Vec<(TaskId, TaskType, String)>, record: (TaskId, TaskType, String))
    requires
        ascending(record_views(old(out)@)),
        forall|i: int|
            0 <= i < old(out)@.len() ==> (#[trigger] record_views(old(out)@)[i]).id != record.0@,
    ensures
        ascending(record_views(final(out)@)),
        forall|r: RecordView|
            record_views(final(out)@).contains(r) <==> (record_views(old(out)@).contains(r) || r
                == record_view(record)),
{
    let ghost before = record_views(out@);
    let ghost rv = record_view(record);
    let id = record.0.value();
    let mut p: usize = 0;
    while p < out.len() && out[p].0.value() < id
        invariant
            before == record_views(out@),
            p <= out.len(),
            id == record.0@,
            forall|j: int| 0 <= j < p ==> (#[trigger] before[j]).id < id,
        decreases out.len() - p,
    {
        assert(before[p as int] == record_view(out[p as int]));
        p += 1;
    }
    proof {
        if p < out.len() {
            assert(before[p as int] == record_view(out[p as int]));
            assert(before[p as int].id != id);
        }
    }
    out.insert(p, record);
    let ghost after = record_views(out@);
    assert(after == before.insert(p as int, rv));
    assert forall|i: int, j: int| 0 <= i < j < after.len() implies after[i].id < after[j].id by {
        let bi = if i < p {
            i
        } else {
            i - 1
        };
        let bj = if j < p {
            j
        } else {
            j - 1
        };
        if i != p {
            assert(after[i] == before[bi]);
        }
        if j != p {
            assert(after[j] == before[bj]);
        }
        if i == p {
            assert(before[p as int].id > id);
            assert(p as int <= bj);
        }
    }
    assert forall|r: RecordView| after.contains(r) <==> (before.contains(r) || r == rv) by {
        if after.contains(r) {
            let k = choose|k: int| 0 <= k < after.len() && after[k] == r;
            if k < p {
                assert(before[k] == r);
            } else if k > p {
                assert(before[k - 1] == r);
            }
        }
        if before.contains(r) {
            let k = choose|k: int| 0 <= k < before.len() && before[k] == r;
            if k < p {
                assert(after[k] == r);
            } else {
                assert(after[k + 1] == r);
            }
        }
        if r == rv {
            assert(after[p as int] == r);
        }
    }
}

impl FrumpRepo {
    /// The history made of the given revisions, in walking order.
    pub fn new(revisions: Vec<Revision>) -> (r: FrumpRepo)
        ensures
            r@ == revision_views(revisions@),
    {
        FrumpRepo { revisions }
    }

    /// The revisions, in walking order.
    pub fn revisions(&self) -> (r: &[Revision])
        ensures
            revision_views(r@) == self@,
    {
        self.revisions.as_slice()
    }

    /// The largest task identifier that any revision of the document holds,
    /// or nothing if no revision holds a task.
    pub fn max_historical_id(&self) -> (r: Option<TaskId>)
        ensures
            match r {
                Some(id) => id@ == historical_max(self@) && id@ >= 1,
                None => historical_max(self@) == 0,
            },
    {
        let ghost revs = self@;
        let mut best: Option<TaskId> = None;
        let mut i: usize = 0;
        assert(revs.take(0) == Seq::<RevisionView>::empty());
        while i < self.revisions.len()
            invariant
                revs == self@,
                i <= self.revisions.len(),
                match best {
                    Some(id) => id@ == historical_max(revs.take(i as int)) && id@ >= 1,
                    None => historical_max(revs.take(i as int)) == 0,
                },
            decreases self.revisions.len() - i,
        {
            assert(revs.take(i + 1).drop_last() == revs.take(i as int));
            assert(revs.take(i + 1).last() == self.revisions[i as int]@);
            let here = match &self.revisions[i].content {
                Some(text) => match parse(text.as_str()) {
                    Ok(doc) => doc.tasks.max_id(),
                    Err(_) => None,
                },
                None => None,
            };
            match here {
                Some(id) => {
                    let value = id.value();
                    let larger = match best {
                        Some(b) => value > b.value(),
                        None => true,
                    };
                    if larger {
                        best = Some(id);
                    }
                },
                None => {
                    proof {
                        match snapshot(self.revisions[i as int]@.content) {
                            Some(tasks) => {
                                assert(tasks.len() == 0);
                                assert(max_id(tasks) == 0);
                            },
                            None => {},
                        }
                    }
                },
            }
            i += 1;
        }
        assert(revs.take(i as int) == revs);
        best
    }

    /// Whether the document at revision `i` holds a task with identifier `id`.
    fn present_at(&self, i: usize, id: TaskId) -> (r: bool)
        requires
            i < self@.len(),
        ensures
            r == present(self@[i as int], id@),
    {
        match &self.revisions[i].content {
            Some(text) => match parse(text.as_str()) {
                Ok(doc) => doc.tasks.find_by_id(id).is_some(),
                Err(_) => false,
            },
            None => false,
        }
    }

    /// The timeline of task `task_id`: one event for each revision that
    /// created, modified or deleted it, oldest first. A task that no
    /// revision holds has an empty timeline.
    pub fn task_history(&self, task_id: TaskId) -> (r: Result<TaskHistory, HistoryError>)
        ensures
            match r {
                Ok(h) => h.task_id == task_id && timeline(self@, task_id@) == Ok::<
                    Seq<EventView>,
                    HistoryError,
                >(event_views(h.commits@)),
                Err(e) => timeline(self@, task_id@) == Err::<Seq<EventView>, HistoryError>(e),
            },
    {
        let ghost revs = self@;
        let mut commits: Vec<TaskCommit> = Vec::new();
        let mut before = false;
        let mut i: usize = 0;
        assert(revs.take(0) == Seq::<RevisionView>::empty());
        assert(event_views(commits@) == Seq::<EventView>::empty());
        while i < self.revisions.len()
            invariant
                revs == self@,
                revs.len() == self.revisions.len(),
                i <= self.revisions.len(),
                before == (i >= 1 && present(revs[i - 1], task_id@)),
                timeline(revs.take(i as int), task_id@) == Ok::<Seq<EventView>, HistoryError>(
                    event_views(commits@),
                ),
            decreases self.revisions.len() - i,
        {
            let ghost prefix = revs.take(i + 1);
            let ghost done = event_views(commits@);
            assert(prefix.drop_last() == revs.take(i as int));
            assert(prefix[i as int] == revs[i as int]);
            assert(i >= 1 ==> prefix[i - 1] == revs[i - 1]);
            let now = self.present_at(i, task_id);
            match classify(before, now) {
                Some(c) => {
                    let date_ok = timestamp_is_representable(self.revisions[i].timestamp);
                    match TaskCommit::record(&self.revisions[i], c, date_ok) {
                        Some(commit) => {
                            let ghost ev = commit@;
                            commits.push(commit);
                            assert(event_views(commits@) == done.push(ev));
                        },
                        None => {
                            proof {
                                lemma_timeline_error(revs, i as int, task_id@);
                            }
                            return Err(HistoryError::InvalidTimestamp { revision: i });
                        },
                    }
                },
                None => {},
            }
            before = now;
            i += 1;
        }
        assert(revs.take(i as int) == revs);
        Ok(TaskHistory { task_id, commits })
    }

    /// The tasks that some revision holds and the current document does
    /// not, each with the type and subject it had where it was first seen
    /// in walking order, in ascending order of identifier. A current
    /// document that does not parse is an error.
    pub fn deleted_tasks(&self, current: &str) -> (r: Result<
        Vec<(TaskId, TaskType, String)>,
        ParseError,
    >)
        ensures
            match r {
                Ok(v) => document_of(current@) is Ok && lists_deleted(
                    record_views(v@),
                    observed(self@),
                    document_of(current@)->Ok_0.tasks,
                ),
                Err(e) => document_of(current@) == Err::<
                    crate::domain::document::DocView,
                    ParseError,
                >(e),
            },
    {
        let doc = match parse(current) {
            Ok(doc) => doc,
            Err(e) => {
                return Err(e);
            },
        };
        let ghost revs = self@;
        let mut seen: Vec<(TaskId, TaskType, String)> = Vec::new();
        let mut i: usize = 0;
        assert(revs.take(0) == Seq::<RevisionView>::empty());
        assert(record_views(seen@) == Seq::<RecordView>::empty());
        while i < self.revisions.len()
            invariant
                revs == self@,
                i <= self.revisions.len(),
                record_views(seen@) == observed(revs.take(i as int)),
            decreases self.revisions.len() - i,
        {
            assert(revs.take(i + 1).drop_last() == revs.take(i as int));
            assert(revs.take(i + 1).last() == self.revisions[i as int]@);
            match &self.revisions[i].content {
                Some(text) => match parse(text.as_str()) {
                    Ok(snapshot) => {
                        observe_tasks(&mut seen, snapshot.tasks.tasks());
                    },
                    Err(_) => {},
                },
                None => {},
            }
            i += 1;
        }
        assert(revs.take(i as int) == revs);
        proof {
            lemma_observed_distinct(revs);
        }
        let ghost records = record_views(seen@);
        let ghost current_tasks = doc@.tasks;
        let mut out: Vec<(TaskId, TaskType, String)> = Vec::new();
        let mut k: usize = 0;
        assert(record_views(out@) == Seq::<RecordView>::empty());
        while k < seen.len()
            invariant
                records == record_views(seen@),
                current_tasks == doc@.tasks,
                distinct_ids(records),
                k <= seen.len(),
                ascending(record_views(out@)),
                forall|r: RecordView|
                    record_views(out@).contains(r) <==> (records.take(k as int).contains(r)
                        && !contains_id(current_tasks, r.id)),
            decreases seen.len() - k,
        {
            let ghost before = record_views(out@);
            let ghost rv = records[k as int];
            assert(rv == record_view(seen[k as int]));
            let ghost shorter = records.take(k as int);
            let ghost longer = records.take(k + 1);
            assert(longer == shorter.push(rv));
            assert forall|r: RecordView| longer.contains(r) <==> (shorter.contains(r) || r
                == rv) by {
                if shorter.contains(r) {
                    let j = choose|j: int| 0 <= j < shorter.len() && shorter[j] == r;
                    assert(longer[j] == r);
                }
                if r == rv {
                    assert(longer[k as int] == r);
                }
                if longer.contains(r) {
                    let j = choose|j: int| 0 <= j < longer.len() && longer[j] == r;
                    if j < k {
                        assert(shorter[j] == r);
                    }
                }
            }
            if doc.tasks.find_by_id(seen[k].0).is_none() {
                assert forall|i: int| 0 <= i < before.len() implies (#[trigger] before[i]).id
                    != rv.id by {
                    assert(before.contains(before[i]));
                    let j = choose|j: int| 0 <= j < shorter.len() && shorter[j] == before[i];
                    assert(records[j] == before[i]);
                }
                let record = (seen[k].0, seen[k].1.clone(), seen[k].2.clone());
                assert(record_view(record) == rv);
                insert_ascending(&mut out, record);
            }
            k += 1;
        }
        assert(records.take(k as int) == records);
        Ok(out)
    }
}

/// The larger of the largest identifier among `tasks` and `historical`,
/// where no identifier counts as zero.
pub open spec fn highest_known(tasks: Seq<TaskView>, historical: Option<nat>) -> nat {
    let past = match historical {
        Some(id) => id,
        None => 0,
    };
    if past > max_id(tasks) {
        past
    } else {
        max_id(tasks)
    }
}

/// The identifier for a new task: one more than the largest that the
/// collection or the history holds, so that no identifier is ever used
/// again. There is none if the largest is the largest there can be.
pub fn next_unused_id(tasks: &crate::domain::document::TaskCollection, historical: Option<TaskId>) -> (r:
    Option<TaskId>)
    ensures
        match r {
            Some(id) => id@ == highest_known(
                tasks@,
                match historical {
                    Some(h) => Some(h@),
                    None => None,
                },
            ) + 1,
            None => highest_known(
                tasks@,
                match historical {
                    Some(h) => Some(h@),
                    None => None,
                },
            ) >= u32::MAX,
        },
{
    let current: u32 = match tasks.max_id() {
        Some(id) => id.value(),
        None => 0,
    };
    let past: u32 = match historical {
        Some(id) => id.value(),
        None => 0,
    };
    let top = if past > current {
        past
    } else {
        current
    };
    if top == u32::MAX {
        return None;
    }
    match TaskId::new(top + 1) {
        Ok(id) => Some(id),
        Err(_) => None,
    }
}

/// A change at a date that is not representable makes the timeline of
/// every longer history the same error.
pub proof fn lemma_timeline_error(revs: Seq<RevisionView>, i: int, id: nat)
    requires
        0 <= i < revs.len(),
        timeline(revs.take(i), id) is Ok,
        change(i >= 1 && present(revs[i - 1], id), present(revs[i], id)) is Some,
        !representable_timestamp(revs[i].timestamp),
    ensures
        timeline(revs, id) == Err::<Seq<EventView>, HistoryError>(
            HistoryError::InvalidTimestamp { revision: i as usize },
        ),
    decreases revs.len() - i,
{
    let e = Err::<Seq<EventView>, HistoryError>(
        HistoryError::InvalidTimestamp { revision: i as usize },
    );
    assert(revs.take(i + 1).drop_last() == revs.take(i));
    assert(revs.take(i + 1)[i] == revs[i]);
    if i >= 1 {
        assert(revs.take(i + 1)[i - 1] == revs[i - 1]);
    }
    assert(timeline(revs.take(i + 1), id) == e);
    lemma_timeline_error_stays(revs, i + 1, id, e);
}

/// Once a prefix of a history has an error for timeline, so has the whole.
proof fn lemma_timeline_error_stays(
    revs: Seq<RevisionView>,
    k: int,
    id: nat,
    e: Result<Seq<EventView>, HistoryError>,
)
    requires
        0 <= k <= revs.len(),
        e is Err,
        timeline(revs.take(k), id) == e,
    ensures
        timeline(revs, id) == e,
    decreases revs.len() - k,
{
    if k == revs.len() {
        assert(revs.take(k) == revs);
    } else {
        assert(revs.take(k + 1).drop_last() == revs.take(k));
        lemma_timeline_error_stays(revs, k + 1, id, e);
    }
}

/// The kinds of change of the events, in order.
pub open spec fn kinds(events: Seq<EventView>) -> Seq<ChangeType> {
    Seq::new(events.len(), |i: int| events[i].change_type)
}

/// The changes of a timeline are those that the presences of the task
/// amount to: created where it appears, modified where it stays, deleted
/// where it goes, and nothing where it stays away.
pub proof fn lemma_timeline_follows_presence(revs: Seq<RevisionView>, id: nat)
    requires
        timeline(revs, id) is Ok,
    ensures
        kinds(timeline(revs, id)->Ok_0) == changes(presences(revs, id)),
    decreases revs.len(),
{
    let presence = presences(revs, id);
    if revs.len() > 0 {
        let init = revs.drop_last();
        lemma_timeline_follows_presence(init, id);
        assert(presence.drop_last() == presences(init, id));
        let before = timeline(init, id)->Ok_0;
        let now = timeline(revs, id)->Ok_0;
        let last = revs.len() - 1;
        match change(last >= 1 && present(revs[last - 1], id), present(revs[last], id)) {
            Some(c) => {
                assert(now == before.push(event(revs[last], c)));
                assert(kinds(now) == kinds(before).push(c));
            },
            None => {},
        }
    } else {
        assert(kinds(timeline(revs, id)->Ok_0) == Seq::<ChangeType>::empty());
    }
}

/// A task that no revision holds has an empty timeline.
pub proof fn lemma_absent_task_has_no_history(revs: Seq<RevisionView>, id: nat)
    requires
        forall|i: int| 0 <= i < revs.len() ==> !present(#[trigger] revs[i], id),
    ensures
        timeline(revs, id) == Ok::<Seq<EventView>, HistoryError>(Seq::empty()),
    decreases revs.len(),
{
    if revs.len() > 0 {
        let init = revs.drop_last();
        assert forall|i: int| 0 <= i < init.len() implies !present(#[trigger] init[i], id) by {
            assert(init[i] == revs[i]);
        }
        lemma_absent_task_has_no_history(init, id);
        assert(!present(revs[revs.len() - 1], id));
        if revs.len() >= 2 {
            assert(!present(revs[revs.len() - 2], id));
        }
    }
}

/// Whether the revision holds a task: its document parses and is not
/// without tasks.
pub open spec fn holds_a_task(r: RevisionView) -> bool {
    match snapshot(r.content) {
        Some(tasks) => tasks.len() > 0,
        None => false,
    }
}

/// The largest identifier of a history is zero exactly when no revision
/// holds a task.
pub proof fn lemma_no_identifier_without_tasks(revs: Seq<RevisionView>)
    ensures
        historical_max(revs) == 0 <==> forall|i: int|
            0 <= i < revs.len() ==> !holds_a_task(#[trigger] revs[i]),
    decreases revs.len(),
{
    if revs.len() > 0 {
        let init = revs.drop_last();
        let last = revs.last();
        lemma_no_identifier_without_tasks(init);
        assert forall|i: int| 0 <= i < init.len() implies init[i] == revs[i] by {}
        let here = match snapshot(last.content) {
            Some(tasks) => max_id(tasks),
            None => 0,
        };
        assert(here == 0 <==> !holds_a_task(last)) by {
            match last.content {
                Some(text) => {
                    match document_of(text) {
                        Ok(d) => {
                            crate::parser::shape::lemma_parsed_is_well_formed(text, d);
                            crate::domain::document::lemma_max_id(d.tasks);
                            if d.tasks.len() > 0 {
                                let k = choose|k: int|
                                    0 <= k < d.tasks.len() && (#[trigger] d.tasks[k]).id == max_id(
                                        d.tasks,
                                    );
                                assert(crate::parser::shape::well_formed_task(d.tasks[k]));
                            }
                        },
                        Err(_) => {},
                    }
                },
                None => {},
            }
        }
        if historical_max(revs) == 0 {
            assert forall|i: int| 0 <= i < revs.len() implies !holds_a_task(#[trigger] revs[i]) by {
                if i < init.len() {
                    assert(init[i] == revs[i]);
                }
            }
        } else {
            if historical_max(init) != 0 {
                let i = choose|i: int| 0 <= i < init.len() && holds_a_task(#[trigger] init[i]);
                assert(init[i] == revs[i]);
                assert(holds_a_task(revs[i]));
            } else {
                assert(holds_a_task(revs[revs.len() - 1]));
            }
        }
    }
}

} // verus!
