//! Operations on whole collections: what the commands of a task tracker do
//! once the document is read, and before it is written back.

use crate::domain::document::{
    assigned_to, borrowed_task_views, has_status, id_index, max_id, task_views, TaskCollection,
};
use crate::domain::property::{PropertyKey, PropertyView};
use crate::domain::task::{stored, Task, TaskView};
use crate::domain::task_id::TaskId;
use crate::domain::task_type::{TaskType, TypeView};
use crate::text::{chars_of, contains_text, has_text, lowercase, str_eq, to_lowercase};
use vstd::prelude::*;

verus! {

// ---------------------------------------------------------------------------
// Listing
// ---------------------------------------------------------------------------

/// Whether a task passes the filters of a listing: each filter that is
/// given must hold.
pub open spec fn passes(
    t: TaskView,
    task_type: Option<TypeView>,
    status: Option<Seq<char>>,
    assignee: Option<Seq<char>>,
) -> bool {
    &&& task_type matches Some(ty) ==> t.task_type == ty
    &&& status matches Some(s) ==> has_status(t, s)
    &&& assignee matches Some(a) ==> assigned_to(t, a)
}

/// The view of an optional string.
pub open spec fn optional_view(s: Option<&str>) -> Option<Seq<char>> {
    match s {
        Some(s) => Some(s@),
        None => None,
    }
}

/// The view of an optional type.
pub open spec fn optional_type_view(t: Option<&TaskType>) -> Option<TypeView> {
    match t {
        Some(t) => Some(t@),
        None => None,
    }
}

fn task_has_status(task: &Task, status: &str) -> (r: bool)
    ensures
        r == has_status(task@, status@),
{
    match task.status() {
        Some(s) => str_eq(s, status),
        None => false,
    }
}

fn task_assigned_to(task: &Task, assignee: &str) -> (r: bool)
    ensures
        r == assigned_to(task@, assignee@),
{
    match task.assignee() {
        Some(a) => str_eq(a, assignee),
        None => false,
    }
}

/// The tasks that pass the given filters, in order.
pub fn select<'a>(
    collection: &'a TaskCollection,
    task_type: Option<&TaskType>,
    status: Option<&str>,
    assignee: Option<&str>,
) -> (r: Vec<&'a Task>)
    ensures
        borrowed_task_views(r@) == collection@.filter(
            |t: TaskView|
                passes(
                    t,
                    optional_type_view(task_type),
                    optional_view(status),
                    optional_view(assignee),
                ),
        ),
{
    let tasks = collection.tasks();
    let ghost all = task_views(tasks@);
    let ghost keep = |t: TaskView|
        passes(t, optional_type_view(task_type), optional_view(status), optional_view(assignee));
    let mut found: Vec<&Task> = Vec::new();
    let mut i: usize = 0;
    proof {
        reveal(Seq::filter);
    }
    while i < tasks.len()
        invariant
            all == task_views(tasks@),
            keep == (|t: TaskView|
                passes(
                    t,
                    optional_type_view(task_type),
                    optional_view(status),
                    optional_view(assignee),
                )),
            i <= tasks.len(),
            borrowed_task_views(found@) == all.take(i as int).filter(keep),
        decreases tasks.len() - i,
    {
        proof {
            reveal(Seq::filter);
        }
        assert(all.take(i + 1).drop_last() == all.take(i as int));
        assert(all.take(i + 1).last() == tasks[i as int]@);
        let ghost before = borrowed_task_views(found@);
        let task = &tasks[i];
        let type_ok = match task_type {
            Some(ty) => task.task_type.same(ty),
            None => true,
        };
        let status_ok = match status {
            Some(s) => task_has_status(task, s),
            None => true,
        };
        let assignee_ok = match assignee {
            Some(a) => task_assigned_to(task, a),
            None => true,
        };
        if type_ok && status_ok && assignee_ok {
            found.push(task);
            assert(borrowed_task_views(found@) == before.push(task@));
        }
        i += 1;
    }
    assert(all.take(i as int) == all);
    found
}

// ---------------------------------------------------------------------------
// Closing, assigning and setting in bulk
// ---------------------------------------------------------------------------

/// The tasks without the first one with identifier `id`.
pub open spec fn without_first(tasks: Seq<TaskView>, id: nat) -> Seq<TaskView> {
    let i = id_index(tasks, id);
    if 0 <= i < tasks.len() {
        tasks.remove(i)
    } else {
        tasks
    }
}

/// The tasks after, for each of `ids` in turn, the first task with that
/// identifier was removed.
pub open spec fn closed(tasks: Seq<TaskView>, ids: Seq<nat>) -> Seq<TaskView>
    decreases ids.len(),
{
    if ids.len() == 0 {
        tasks
    } else {
        without_first(closed(tasks, ids.drop_last()), ids.last())
    }
}

/// The identifiers of the tasks with status `status`, in order.
pub open spec fn ids_with_status(tasks: Seq<TaskView>, status: Seq<char>) -> Seq<nat> {
    let found = tasks.filter(|t: TaskView| has_status(t, status));
    Seq::new(found.len(), |i: int| found[i].id)
}

/// The views of a sequence of identifiers.
pub open spec fn id_views(ids: Seq<TaskId>) -> Seq<nat> {
    Seq::new(ids.len(), |i: int| ids[i]@)
}

/// Closes the tasks with status `status`: for the identifier of each of
/// them, the first task with that identifier leaves the collection. The
/// result is the number of tasks that had the status.
pub fn close_by_status(collection: &mut TaskCollection, status: &str) -> (count: usize)
    ensures
        count == ids_with_status(old(collection)@, status@).len(),
        final(collection)@ == closed(old(collection)@, ids_with_status(old(collection)@, status@)),
{
    let ghost start = collection@;
    let mut ids: Vec<TaskId> = Vec::new();
    {
        let found = collection.filter_by_status(status);
        let ghost views = borrowed_task_views(found@);
        let mut i: usize = 0;
        while i < found.len()
            invariant
                views == borrowed_task_views(found@),
                i <= found.len(),
                ids@.len() == i,
                forall|j: int| 0 <= j < i ==> (#[trigger] ids@[j])@ == views[j].id,
            decreases found.len() - i,
        {
            assert(views[i as int] == found[i as int]@);
            ids.push(found[i].id);
            i += 1;
        }
        assert(id_views(ids@) == ids_with_status(start, status@));
    }
    let ghost all = id_views(ids@);
    let mut k: usize = 0;
    assert(all.take(0) == Seq::<nat>::empty());
    while k < ids.len()
        invariant
            all == id_views(ids@),
            k <= ids.len(),
            collection@ == closed(start, all.take(k as int)),
        decreases ids.len() - k,
    {
        assert(all.take(k + 1).drop_last() == all.take(k as int));
        assert(all.take(k + 1).last() == ids[k as int]@);
        proof {
            crate::domain::document::lemma_id_index(collection@, ids[k as int]@);
        }
        collection.remove(ids[k]);
        k += 1;
    }
    assert(all.take(k as int) == all);
    ids.len()
}

/// A task as it is once it was given a property in bulk: with the
/// property stored if `chosen` holds of it, unchanged otherwise.
pub open spec fn with_property_if(
    t: TaskView,
    chosen: bool,
    key: Seq<char>,
    value: Seq<char>,
) -> TaskView {
    if chosen {
        TaskView { properties: stored(t.properties, key, value), ..t }
    } else {
        t
    }
}

/// Assigns every task of type `task_type` to `assignee`, as `set_assignee`
/// does. The result is the number of those tasks.
pub fn assign_by_type(collection: &mut TaskCollection, task_type: &TaskType, assignee: &str) -> (count:
    usize)
    ensures
        final(collection)@ == old(collection)@.map_values(
            |t: TaskView|
                with_property_if(t, t.task_type == task_type@, "Assigned To"@, assignee@),
        ),
        count == old(collection)@.filter(|t: TaskView| t.task_type == task_type@).len(),
{
    let tasks = collection.tasks();
    let ghost all = task_views(tasks@);
    let ghost chosen = |t: TaskView| t.task_type == task_type@;
    let mut changed: Vec<Task> = Vec::new();
    let mut count: usize = 0;
    let mut i: usize = 0;
    proof {
        reveal(Seq::filter);
    }
    while i < tasks.len()
        invariant
            all == task_views(tasks@),
            chosen == (|t: TaskView| t.task_type == task_type@),
            i <= tasks.len(),
            changed@.len() == i,
            forall|j: int|
                0 <= j < i ==> (#[trigger] changed@[j])@ == with_property_if(
                    all[j],
                    all[j].task_type == task_type@,
                    "Assigned To"@,
                    assignee@,
                ),
            count == all.take(i as int).filter(chosen).len(),
            count <= i,
        decreases tasks.len() - i,
    {
        proof {
            reveal(Seq::filter);
        }
        assert(all.take(i + 1).drop_last() == all.take(i as int));
        assert(all.take(i + 1).last() == tasks[i as int]@);
        let mut task = tasks[i].clone();
        if task.task_type.same(task_type) {
            task.set_assignee(assignee.to_owned());
            count += 1;
        }
        changed.push(task);
        i += 1;
    }
    assert(all.take(i as int) == all);
    *collection = TaskCollection::new(changed);
    assert(collection@ == all.map_values(
        |t: TaskView| with_property_if(t, t.task_type == task_type@, "Assigned To"@, assignee@),
    ));
    count
}

/// Gives every task with status `status` the property `key` with value
/// `value`, as `set_property` does. The result is the number of those
/// tasks.
pub fn set_by_status(
    collection: &mut TaskCollection,
    status: &str,
    key: &PropertyKey,
    value: &str,
) -> (count: usize)
    ensures
        final(collection)@ == old(collection)@.map_values(
            |t: TaskView| with_property_if(t, has_status(t, status@), key@, value@),
        ),
        count == old(collection)@.filter(|t: TaskView| has_status(t, status@)).len(),
{
    let tasks = collection.tasks();
    let ghost all = task_views(tasks@);
    let ghost chosen = |t: TaskView| has_status(t, status@);
    let mut changed: Vec<Task> = Vec::new();
    let mut count: usize = 0;
    let mut i: usize = 0;
    proof {
        reveal(Seq::filter);
    }
    while i < tasks.len()
        invariant
            all == task_views(tasks@),
            chosen == (|t: TaskView| has_status(t, status@)),
            i <= tasks.len(),
            changed@.len() == i,
            forall|j: int|
                0 <= j < i ==> (#[trigger] changed@[j])@ == with_property_if(
                    all[j],
                    has_status(all[j], status@),
                    key@,
                    value@,
                ),
            count == all.take(i as int).filter(chosen).len(),
            count <= i,
        decreases tasks.len() - i,
    {
        proof {
            reveal(Seq::filter);
        }
        assert(all.take(i + 1).drop_last() == all.take(i as int));
        assert(all.take(i + 1).last() == tasks[i as int]@);
        let mut task = tasks[i].clone();
        if task_has_status(&task, status) {
            task.set_property(key.clone(), value.to_owned());
            count += 1;
        }
        changed.push(task);
        i += 1;
    }
    assert(all.take(i as int) == all);
    *collection = TaskCollection::new(changed);
    assert(collection@ == all.map_values(
        |t: TaskView| with_property_if(t, has_status(t, status@), key@, value@),
    ));
    count
}

// ---------------------------------------------------------------------------
// Merging
// ---------------------------------------------------------------------------

/// Why tasks could not be merged.
#[derive(Debug, Clone, Copy, PartialEq, Eq, Structural)]
pub enum MergeError {
    /// There are more tasks to add than identifiers above the largest one.
    IdentifiersExhausted,
}

/// The tasks as they are added to a collection whose largest identifier is
/// `top`: each with the next identifier after those before it.
pub open spec fn renumbered_from(tasks: Seq<TaskView>, top: nat) -> Seq<TaskView> {
    Seq::new(tasks.len(), |i: int| TaskView { id: (top + 1 + i) as nat, ..tasks[i] })
}

/// Adds copies of the tasks of `imported` to `collection`, each under a
/// fresh identifier: the first gets the one after the largest in
/// `collection`, and so on. The result is the number of tasks added.
/// Nothing is added if there are not enough identifiers left.
pub fn merge_tasks(collection: &mut TaskCollection, imported: &TaskCollection) -> (r: Result<
    usize,
    MergeError,
>)
    ensures
        match r {
            Ok(n) => n == imported@.len() && max_id(old(collection)@) + imported@.len()
                <= u32::MAX && final(collection)@ == old(collection)@ + renumbered_from(
                imported@,
                max_id(old(collection)@),
            ),
            Err(_) => max_id(old(collection)@) + imported@.len() > u32::MAX
                && final(collection)@ == old(collection)@,
        },
{
    let ghost start = collection@;
    let tasks = imported.tasks();
    let ghost all = task_views(tasks@);
    let top: u32 = match collection.max_id() {
        Some(id) => id.value(),
        None => 0,
    };
    let n = tasks.len();
    if n > 0xffff_ffff || n as u64 + top as u64 > 0xffff_ffff {
        return Err(MergeError::IdentifiersExhausted);
    }
    let mut i: usize = 0;
    assert(start + renumbered_from(all, top as nat).take(0) == start);
    while i < n
        invariant
            all == task_views(tasks@),
            n == tasks.len(),
            n + top <= u32::MAX,
            i <= n,
            collection@ == start + renumbered_from(all, top as nat).take(i as int),
        decreases n - i,
    {
        let ghost before = collection@;
        let mut task = tasks[i].clone();
        assert(all[i as int] == tasks[i as int]@);
        let fresh: u32 = top + 1 + i as u32;
        task.id = match TaskId::new(fresh) {
            Ok(id) => id,
            Err(_) => unreached(),
        };
        collection.add(task);
        assert(renumbered_from(all, top as nat).take(i + 1) == renumbered_from(
            all,
            top as nat,
        ).take(i as int).push(renumbered_from(all, top as nat)[i as int]));
        assert(collection@ == start + renumbered_from(all, top as nat).take(i + 1));
        i += 1;
    }
    assert(renumbered_from(all, top as nat).take(n as int) == renumbered_from(all, top as nat));
    Ok(n)
}

// ---------------------------------------------------------------------------
// Gaps between identifiers
// ---------------------------------------------------------------------------

/// `sorted` with `x` inserted before the first number that is larger.
pub open spec fn inserted(sorted: Seq<u32>, x: u32) -> Seq<u32>
    decreases sorted.len(),
{
    if sorted.len() == 0 {
        seq![x]
    } else if sorted.last() <= x {
        sorted.push(x)
    } else {
        inserted(sorted.drop_last(), x).push(sorted.last())
    }
}

/// The numbers in ascending order.
pub open spec fn ascending_order(numbers: Seq<u32>) -> Seq<u32>
    decreases numbers.len(),
{
    if numbers.len() == 0 {
        Seq::empty()
    } else {
        inserted(ascending_order(numbers.drop_last()), numbers.last())
    }
}

/// The gaps among the first `n` of numbers in ascending order: for each
/// number that is more than one above the number before it, the first and
/// the last number between the two.
pub open spec fn gaps_among(sorted: Seq<u32>, n: int) -> Seq<(u32, u32)>
    decreases n,
{
    if n <= 1 {
        Seq::empty()
    } else if sorted[n - 1] > sorted[n - 2] + 1 {
        gaps_among(sorted, n - 1).push(((sorted[n - 2] + 1) as u32, (sorted[n - 1] - 1) as u32))
    } else {
        gaps_among(sorted, n - 1)
    }
}

/// Whether the numbers ascend.
pub open spec fn ascends(numbers: Seq<u32>) -> bool {
    forall|i: int, j: int| 0 <= i <= j < numbers.len() ==> numbers[i] <= numbers[j]
}

/// Inserting keeps the order and adds one occurrence of the number.
pub proof fn lemma_inserted(sorted: Seq<u32>, x: u32)
    requires
        ascends(sorted),
    ensures
        ascends(inserted(sorted, x)),
        inserted(sorted, x).len() == sorted.len() + 1,
        inserted(sorted, x).to_multiset() == sorted.to_multiset().insert(x),
        forall|i: int|
            0 <= i < inserted(sorted, x).len() ==> (#[trigger] inserted(sorted, x)[i]) == x
                || sorted.contains(inserted(sorted, x)[i]),
    decreases sorted.len(),
{
    broadcast use vstd::seq_lib::group_to_multiset_ensures;

    let out = inserted(sorted, x);
    if sorted.len() == 0 {
        assert(sorted == Seq::<u32>::empty());
        assert(out == Seq::<u32>::empty().push(x));
    } else if sorted.last() <= x {
        assert forall|i: int| 0 <= i < out.len() implies (#[trigger] out[i]) == x
            || sorted.contains(out[i]) by {
            if i < sorted.len() {
                assert(sorted[i] == out[i]);
            }
        }
    } else {
        let init = sorted.drop_last();
        assert(ascends(init)) by {
            assert forall|i: int, j: int| 0 <= i <= j < init.len() implies init[i] <= init[j] by {
                assert(init[i] == sorted[i] && init[j] == sorted[j]);
            }
        }
        lemma_inserted(init, x);
        let inner = inserted(init, x);
        assert(init.push(sorted.last()) == sorted);
        assert forall|i: int| 0 <= i < out.len() implies (#[trigger] out[i]) == x
            || sorted.contains(out[i]) by {
            if i < inner.len() {
                assert(out[i] == inner[i]);
                if inner[i] != x {
                    let k = choose|k: int| 0 <= k < init.len() && init[k] == inner[i];
                    assert(sorted[k] == inner[i]);
                }
            } else {
                assert(sorted[sorted.len() - 1] == out[i]);
            }
        }
        assert forall|i: int, j: int| 0 <= i <= j < out.len() implies out[i] <= out[j] by {
            if j < inner.len() {
                assert(out[i] == inner[i] && out[j] == inner[j]);
            } else if i < inner.len() {
                assert(out[i] == inner[i]);
                if inner[i] != x {
                    let k = choose|k: int| 0 <= k < init.len() && init[k] == inner[i];
                    assert(sorted[k] <= sorted[sorted.len() - 1]);
                }
            }
        }
    }
}

/// The numbers in ascending order ascend, and are the same numbers.
pub proof fn lemma_ascending_order(numbers: Seq<u32>)
    ensures
        ascends(ascending_order(numbers)),
        ascending_order(numbers).len() == numbers.len(),
        ascending_order(numbers).to_multiset() == numbers.to_multiset(),
    decreases numbers.len(),
{
    broadcast use vstd::seq_lib::group_to_multiset_ensures;

    if numbers.len() > 0 {
        lemma_ascending_order(numbers.drop_last());
        lemma_inserted(ascending_order(numbers.drop_last()), numbers.last());
        assert(numbers.drop_last().push(numbers.last()) == numbers);
    }
}

fn insert_number(sorted: &mut Vec<u32>, x: u32)
    ensures
        final(sorted)@ == inserted(old(sorted)@, x),
{
    let ghost start = sorted@;
    let mut p: usize = sorted.len();
    assert(start.take(p as int) == start);
    assert(inserted(start, x) + start.skip(p as int) == inserted(start, x));
    while p > 0 && sorted[p - 1] > x
        invariant
            sorted@ == start,
            p <= sorted.len(),
            inserted(start, x) == inserted(start.take(p as int), x) + start.skip(p as int),
        decreases p,
    {
        let ghost head = start.take(p as int);
        assert(head.last() == start[p - 1]);
        assert(head.drop_last() == start.take(p - 1));
        assert(inserted(head.drop_last(), x).push(head.last()) + start.skip(p as int) == inserted(
            start.take(p - 1),
            x,
        ) + start.skip(p - 1));
        p -= 1;
    }
    proof {
        let head = start.take(p as int);
        if p > 0 {
            assert(head.last() == start[p - 1]);
        }
        assert(inserted(head, x) == head.push(x));
        assert(head.push(x) + start.skip(p as int) == start.insert(p as int, x));
    }
    sorted.insert(p, x);
}

/// The identifiers of the tasks, as numbers.
pub open spec fn id_numbers(tasks: Seq<TaskView>) -> Seq<u32> {
    Seq::new(tasks.len(), |i: int| tasks[i].id as u32)
}

/// The gaps between the identifiers of the collection: each run of
/// numbers that lies between two identifiers and is none, given by its
/// first and its last number, in ascending order.
pub fn id_gaps(collection: &TaskCollection) -> (r: Vec<(u32, u32)>)
    ensures
        r@ == gaps_among(
            ascending_order(id_numbers(collection@)),
            id_numbers(collection@).len() as int,
        ),
{
    let tasks = collection.tasks();
    let ghost numbers = id_numbers(collection@);
    let mut sorted: Vec<u32> = Vec::new();
    let mut i: usize = 0;
    assert(numbers.take(0) == Seq::<u32>::empty());
    while i < tasks.len()
        invariant
            task_views(tasks@) == collection@,
            numbers == id_numbers(collection@),
            i <= tasks.len(),
            sorted@ == ascending_order(numbers.take(i as int)),
        decreases tasks.len() - i,
    {
        assert(numbers.take(i + 1).drop_last() == numbers.take(i as int));
        assert(collection@[i as int] == tasks[i as int]@);
        assert(numbers.take(i + 1).last() == tasks[i as int].id@ as u32);
        insert_number(&mut sorted, tasks[i].id.value());
        i += 1;
    }
    assert(numbers.take(i as int) == numbers);
    proof {
        lemma_ascending_order(numbers);
    }
    let mut gaps: Vec<(u32, u32)> = Vec::new();
    let mut k: usize = 1;
    while k < sorted.len()
        invariant
            1 <= k,
            ascends(sorted@),
            gaps@ == gaps_among(sorted@, if k <= sorted.len() {
                k as int
            } else {
                sorted.len() as int
            }),
        decreases sorted.len() - k,
    {
        assert(sorted@[k - 1] <= sorted@[k as int]);
        if sorted[k] - sorted[k - 1] > 1 {
            gaps.push((sorted[k - 1] + 1, sorted[k] - 1));
        }
        k += 1;
    }
    gaps
}

// ---------------------------------------------------------------------------
// Searching
// ---------------------------------------------------------------------------

/// Whether a task matches a query: the query stands in its subject, or,
/// in a full search, in its body, without regard to letter case.
pub open spec fn matches_query(t: TaskView, query: Seq<char>, full: bool) -> bool {
    ||| contains_text(to_lowercase(t.subject), to_lowercase(query))
    ||| full && contains_text(to_lowercase(t.body), to_lowercase(query))
}

/// The tasks that match the query, in order.
pub fn search<'a>(collection: &'a TaskCollection, query: &str, full: bool) -> (r: Vec<&'a Task>)
    ensures
        borrowed_task_views(r@) == collection@.filter(
            |t: TaskView| matches_query(t, query@, full),
        ),
{
    let tasks = collection.tasks();
    let ghost all = task_views(tasks@);
    let ghost keep = |t: TaskView| matches_query(t, query@, full);
    let wanted = chars_of(lowercase(query).as_str());
    let mut found: Vec<&Task> = Vec::new();
    let mut i: usize = 0;
    proof {
        reveal(Seq::filter);
    }
    while i < tasks.len()
        invariant
            all == task_views(tasks@),
            keep == (|t: TaskView| matches_query(t, query@, full)),
            wanted@ == to_lowercase(query@),
            i <= tasks.len(),
            borrowed_task_views(found@) == all.take(i as int).filter(keep),
        decreases tasks.len() - i,
    {
        proof {
            reveal(Seq::filter);
        }
        assert(all.take(i + 1).drop_last() == all.take(i as int));
        assert(all.take(i + 1).last() == tasks[i as int]@);
        let ghost before = borrowed_task_views(found@);
        let task = &tasks[i];
        let subject = chars_of(lowercase(task.subject.as_str()).as_str());
        let mut hit = has_text(&subject, &wanted);
        if !hit && full {
            let body = chars_of(lowercase(task.body.as_str()).as_str());
            hit = has_text(&body, &wanted);
        }
        if hit {
            found.push(task);
            assert(borrowed_task_views(found@) == before.push(task@));
        }
        i += 1;
    }
    assert(all.take(i as int) == all);
    found
}

// ---------------------------------------------------------------------------
// Counting
// ---------------------------------------------------------------------------

/// How often a name was counted.
pub struct CountView {
    pub name: Seq<char>,
    pub count: nat,
}

/// The view of a counted name.
pub open spec fn count_view(entry: (String, usize)) -> CountView {
    CountView { name: entry.0@, count: entry.1 as nat }
}

/// The views of counted names.
pub open spec fn count_views(entries: Seq<(String, usize)>) -> Seq<CountView> {
    Seq::new(entries.len(), |i: int| count_view(entries[i]))
}

/// The index of the entry for `name`, or the number of entries if there
/// is none.
pub open spec fn entry_index(entries: Seq<CountView>, name: Seq<char>) -> int
    decreases entries.len(),
{
    if entries.len() == 0 || entries[0].name == name {
        0
    } else {
        1 + entry_index(entries.skip(1), name)
    }
}

/// The entries after `name` was counted once more: its entry is raised by
/// one, or, if it has none, it gets one at the end.
pub open spec fn counted(entries: Seq<CountView>, name: Seq<char>) -> Seq<CountView> {
    let i = entry_index(entries, name);
    if 0 <= i < entries.len() {
        entries.update(i, CountView { name, count: entries[i].count + 1 })
    } else {
        entries.push(CountView { name, count: 1 })
    }
}

/// How often each name occurs among `names`: one entry for each name, in
/// the order in which the names first occur.
pub open spec fn tally(names: Seq<Seq<char>>) -> Seq<CountView>
    decreases names.len(),
{
    if names.len() == 0 {
        Seq::empty()
    } else {
        counted(tally(names.drop_last()), names.last())
    }
}

/// `ranked` with `entry` placed behind the entries that were counted at
/// least as often.
pub open spec fn placed(ranked: Seq<CountView>, entry: CountView) -> Seq<CountView>
    decreases ranked.len(),
{
    if ranked.len() == 0 || ranked.last().count >= entry.count {
        ranked.push(entry)
    } else {
        placed(ranked.drop_last(), entry).push(ranked.last())
    }
}

/// The entries by descending count; entries with the same count keep
/// their order.
pub open spec fn by_count(entries: Seq<CountView>) -> Seq<CountView>
    decreases entries.len(),
{
    if entries.len() == 0 {
        Seq::empty()
    } else {
        placed(by_count(entries.drop_last()), entries.last())
    }
}

/// No name is counted more often than there are names.
proof fn lemma_tally_bound(names: Seq<Seq<char>>)
    ensures
        forall|i: int| 0 <= i < tally(names).len() ==> (#[trigger] tally(names)[i]).count <= names.len(),
    decreases names.len(),
{
    if names.len() > 0 {
        lemma_tally_bound(names.drop_last());
        let before = tally(names.drop_last());
        let after = tally(names);
        lemma_entry_index(before, names.last());
        assert forall|i: int| 0 <= i < after.len() implies (#[trigger] after[i]).count
            <= names.len() by {
            if i < before.len() && i != entry_index(before, names.last()) {
                assert(after[i] == before[i]);
            }
        }
    }
}

/// `entry_index` lies within the entries.
proof fn lemma_entry_index(entries: Seq<CountView>, name: Seq<char>)
    ensures
        0 <= entry_index(entries, name) <= entries.len(),
    decreases entries.len(),
{
    if entries.len() == 0 || entries[0].name == name {
    } else {
        lemma_entry_index(entries.skip(1), name);
    }
}

fn find_entry(entries: &Vec<(String, usize)>, name: &str) -> (i: usize)
    ensures
        i == entry_index(count_views(entries@), name@),
        i <= entries.len(),
{
    let ghost all = count_views(entries@);
    let mut i: usize = 0;
    assert(all.skip(0) == all);
    while i < entries.len()
        invariant
            all == count_views(entries@),
            i <= entries.len(),
            entry_index(all, name@) == i + entry_index(all.skip(i as int), name@),
        decreases entries.len() - i,
    {
        assert(all.skip(i as int)[0] == all[i as int]);
        if str_eq(entries[i].0.as_str(), name) {
            return i;
        }
        assert(all.skip(i as int).skip(1) == all.skip(i + 1));
        i += 1;
    }
    i
}

/// The views of a sequence of strings.
pub open spec fn name_views(names: Seq<String>) -> Seq<Seq<char>> {
    Seq::new(names.len(), |i: int| names[i]@)
}

/// Counts how often each name occurs.
pub fn count_names(names: &Vec<String>) -> (r: Vec<(String, usize)>)
    ensures
        count_views(r@) == tally(name_views(names@)),
{
    let ghost all = name_views(names@);
    let mut entries: Vec<(String, usize)> = Vec::new();
    let mut i: usize = 0;
    assert(all.take(0) == Seq::<Seq<char>>::empty());
    assert(count_views(entries@) == Seq::<CountView>::empty());
    while i < names.len()
        invariant
            all == name_views(names@),
            i <= names.len(),
            count_views(entries@) == tally(all.take(i as int)),
        decreases names.len() - i,
    {
        assert(all.take(i + 1).drop_last() == all.take(i as int));
        assert(all.take(i + 1).last() == names[i as int]@);
        let ghost before = count_views(entries@);
        proof {
            lemma_tally_bound(all.take(i as int));
        }
        let k = find_entry(&entries, names[i].as_str());
        if k < entries.len() {
            assert(before[k as int].count <= i);
            assert(before[k as int] == count_view(entries[k as int]));
            let raised = entries[k].1 + 1;
            entries[k] = (names[i].clone(), raised);
            assert(count_views(entries@) == before.update(
                k as int,
                CountView { name: names[i as int]@, count: before[k as int].count + 1 },
            ));
        } else {
            entries.push((names[i].clone(), 1));
            assert(count_views(entries@) == before.push(
                CountView { name: names[i as int]@, count: 1 },
            ));
        }
        i += 1;
    }
    assert(all.take(i as int) == all);
    entries
}

fn place_entry(ranked: &mut Vec<(String, usize)>, entry: (String, usize))
    ensures
        count_views(final(ranked)@) == placed(count_views(old(ranked)@), count_view(entry)),
{
    let ghost start = count_views(ranked@);
    let ghost ev = count_view(entry);
    let mut p: usize = ranked.len();
    assert(start.take(p as int) == start);
    assert(placed(start, ev) + start.skip(p as int) == placed(start, ev));
    while p > 0 && ranked[p - 1].1 < entry.1
        invariant
            start == count_views(ranked@),
            ev == count_view(entry),
            p <= ranked.len(),
            placed(start, ev) == placed(start.take(p as int), ev) + start.skip(p as int),
        decreases p,
    {
        let ghost head = start.take(p as int);
        assert(head.last() == start[p - 1]);
        assert(start[p - 1] == count_view(ranked[p - 1]));
        assert(head.drop_last() == start.take(p - 1));
        assert(placed(head.drop_last(), ev).push(head.last()) + start.skip(p as int) == placed(
            start.take(p - 1),
            ev,
        ) + start.skip(p - 1));
        p -= 1;
    }
    proof {
        let head = start.take(p as int);
        if p > 0 {
            assert(head.last() == start[p - 1]);
            assert(start[p - 1] == count_view(ranked[p - 1]));
        }
        assert(placed(head, ev) == head.push(ev));
        assert(head.push(ev) + start.skip(p as int) == start.insert(p as int, ev));
    }
    ranked.insert(p, entry);
    assert(count_views(ranked@) == start.insert(p as int, ev));
}

/// Orders counted names by descending count.
pub fn rank_by_count(entries: &Vec<(String, usize)>) -> (r: Vec<(String, usize)>)
    ensures
        count_views(r@) == by_count(count_views(entries@)),
{
    let ghost all = count_views(entries@);
    let mut ranked: Vec<(String, usize)> = Vec::new();
    let mut i: usize = 0;
    assert(all.take(0) == Seq::<CountView>::empty());
    assert(count_views(ranked@) == Seq::<CountView>::empty());
    while i < entries.len()
        invariant
            all == count_views(entries@),
            i <= entries.len(),
            count_views(ranked@) == by_count(all.take(i as int)),
        decreases entries.len() - i,
    {
        assert(all.take(i + 1).drop_last() == all.take(i as int));
        assert(all.take(i + 1).last() == count_view(entries[i as int]));
        place_entry(&mut ranked, (entries[i].0.clone(), entries[i].1));
        i += 1;
    }
    assert(all.take(i as int) == all);
    ranked
}

/// The values that the tasks have for `key`, in order; tasks without the
/// property give none.
pub open spec fn values_of(tasks: Seq<TaskView>, key: Seq<char>) -> Seq<Seq<char>>
    decreases tasks.len(),
{
    if tasks.len() == 0 {
        Seq::empty()
    } else {
        match crate::domain::task::lookup(tasks.last().properties, key) {
            Some(v) => values_of(tasks.drop_last(), key).push(v),
            None => values_of(tasks.drop_last(), key),
        }
    }
}

/// How the tasks of a collection spread over the values of a property:
/// the values by descending count, and the number of tasks without the
/// property.
pub fn count_by_property(collection: &TaskCollection, key: &PropertyKey) -> (r: (
    Vec<(String, usize)>,
    usize,
))
    ensures
        count_views(r.0@) == by_count(tally(values_of(collection@, key@))),
        r.1 == collection@.len() - values_of(collection@, key@).len(),
{
    let tasks = collection.tasks();
    let ghost all = task_views(tasks@);
    let mut values: Vec<String> = Vec::new();
    let mut missing: usize = 0;
    let mut i: usize = 0;
    assert(all.take(0) == Seq::<TaskView>::empty());
    assert(name_views(values@) == Seq::<Seq<char>>::empty());
    while i < tasks.len()
        invariant
            all == task_views(tasks@),
            i <= tasks.len(),
            name_views(values@) == values_of(all.take(i as int), key@),
            missing + values@.len() == i,
        decreases tasks.len() - i,
    {
        assert(all.take(i + 1).drop_last() == all.take(i as int));
        assert(all.take(i + 1).last() == tasks[i as int]@);
        let ghost before = name_views(values@);
        match tasks[i].get_property(key) {
            Some(v) => {
                values.push(v.to_owned());
                assert(name_views(values@) == before.push(v@));
            },
            None => {
                missing += 1;
            },
        }
        i += 1;
    }
    assert(all.take(i as int) == all);
    (rank_by_count(&count_names(&values)), missing)
}

/// The tokens of the types of the tasks, in order.
pub open spec fn type_tokens(tasks: Seq<TaskView>) -> Seq<Seq<char>> {
    Seq::new(tasks.len(), |i: int| crate::domain::task_type::token_of_type(tasks[i].task_type))
}

/// How the tasks of a collection spread over the types: the types by
/// descending count.
pub fn count_by_type(collection: &TaskCollection) -> (r: Vec<(String, usize)>)
    ensures
        count_views(r@) == by_count(tally(type_tokens(collection@))),
{
    let tasks = collection.tasks();
    let ghost all = task_views(tasks@);
    let mut names: Vec<String> = Vec::new();
    let mut i: usize = 0;
    while i < tasks.len()
        invariant
            all == task_views(tasks@),
            i <= tasks.len(),
            name_views(names@) == type_tokens(all).take(i as int),
        decreases tasks.len() - i,
    {
        let ghost before = name_views(names@);
        let token = tasks[i].task_type.to_string();
        assert(type_tokens(all)[i as int] == token@);
        names.push(token);
        assert(name_views(names@) == before.push(type_tokens(all)[i as int]));
        i += 1;
    }
    assert(type_tokens(all).take(i as int) == type_tokens(all));
    rank_by_count(&count_names(&names))
}

} // verus!
