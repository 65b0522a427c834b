//! Tasks that share an identifier: finding them, and giving all but the
//! first of each group a fresh identifier.

use crate::domain::document::{
    id_index, lemma_id_index, lemma_max_id, max_id, task_views, DocView, FrumpDoc, TaskCollection,
};
use crate::domain::task::{Task, TaskView};
use crate::domain::task_id::TaskId;
use vstd::prelude::*;

verus! {

/// The positions of the tasks with identifier `id`, in ascending order.
pub open spec fn occurrences(tasks: Seq<TaskView>, id: nat) -> Seq<int>
    decreases tasks.len(),
{
    if tasks.len() == 0 {
        Seq::empty()
    } else {
        let before = occurrences(tasks.drop_last(), id);
        if tasks.last().id == id {
            before.push(tasks.len() - 1)
        } else {
            before
        }
    }
}

/// Whether the task at position `p` repeats the identifier of an earlier task.
pub open spec fn is_repeat(tasks: Seq<TaskView>, p: int) -> bool {
    0 <= p < tasks.len() && id_index(tasks, tasks[p].id) < p
}

/// Whether the repeat at position `q` is given its new identifier before
/// the one at position `p`: repeats are taken in ascending order of the
/// identifier they repeat, and in order of position among equals.
pub open spec fn precedes(tasks: Seq<TaskView>, q: int, p: int) -> bool {
    is_repeat(tasks, q) && (tasks[q].id < tasks[p].id || (tasks[q].id == tasks[p].id && q < p))
}

/// How many repeats at positions below `n` are taken before the one at `p`.
pub open spec fn rank(tasks: Seq<TaskView>, p: int, n: int) -> nat
    decreases n,
{
    if n <= 0 {
        0
    } else {
        rank(tasks, p, n - 1) + if precedes(tasks, n - 1, p) {
            1nat
        } else {
            0nat
        }
    }
}

/// How many repeats there are at positions below `n`.
pub open spec fn repeats(tasks: Seq<TaskView>, n: int) -> nat
    decreases n,
{
    if n <= 0 {
        0
    } else {
        repeats(tasks, n - 1) + if is_repeat(tasks, n - 1) {
            1nat
        } else {
            0nat
        }
    }
}

/// The identifier of the task at position `p` once conflicts are resolved:
/// its own, unless it is a repeat; the repeats get the identifiers that
/// follow the largest one in the document, in the order in which they are
/// taken.
pub open spec fn resolved_id(tasks: Seq<TaskView>, p: int) -> nat {
    if is_repeat(tasks, p) {
        max_id(tasks) + 1 + rank(tasks, p, tasks.len() as int)
    } else {
        tasks[p].id
    }
}

/// The tasks once conflicts are resolved.
pub open spec fn resolved(tasks: Seq<TaskView>) -> Seq<TaskView> {
    Seq::new(tasks.len(), |p: int| TaskView { id: resolved_id(tasks, p), ..tasks[p] })
}

/// The mathematical value of a renumbering.
pub struct RenumberingView {
    pub position: int,
    pub old_id: nat,
    pub new_id: nat,
    pub subject: Seq<char>,
}

/// The renumberings among the first `n` tasks, in order of position.
pub open spec fn renumberings(tasks: Seq<TaskView>, n: int) -> Seq<RenumberingView>
    decreases n,
{
    if n <= 0 {
        Seq::empty()
    } else if is_repeat(tasks, n - 1) {
        renumberings(tasks, n - 1).push(
            RenumberingView {
                position: n - 1,
                old_id: tasks[n - 1].id,
                new_id: resolved_id(tasks, n - 1),
                subject: tasks[n - 1].subject,
            },
        )
    } else {
        renumberings(tasks, n - 1)
    }
}

/// Fewer repeats are taken before a repeat than there are repeats.
pub proof fn lemma_rank_below_repeats(tasks: Seq<TaskView>, p: int, n: int)
    requires
        0 <= n <= tasks.len(),
    ensures
        rank(tasks, p, n) <= repeats(tasks, n),
        0 <= p < n && is_repeat(tasks, p) ==> rank(tasks, p, n) < repeats(tasks, n),
    decreases n,
{
    if n > 0 {
        lemma_rank_below_repeats(tasks, p, n - 1);
    }
}

/// Two repeats never get the same new identifier, and no new identifier is
/// one that was in the document.
pub proof fn lemma_new_identifiers_are_fresh(tasks: Seq<TaskView>, p: int, q: int)
    requires
        is_repeat(tasks, p),
        is_repeat(tasks, q),
        p != q,
    ensures
        resolved_id(tasks, p) != resolved_id(tasks, q),
        forall|j: int| 0 <= j < tasks.len() ==> (#[trigger] tasks[j]).id < resolved_id(tasks, p),
{
    lemma_max_id(tasks);
    if precedes(tasks, p, q) {
        lemma_rank_order(tasks, p, q, tasks.len() as int);
    } else {
        assert(precedes(tasks, q, p));
        lemma_rank_order(tasks, q, p, tasks.len() as int);
    }
}

/// Whether no two tasks share an identifier.
pub open spec fn free_of_conflicts(tasks: Seq<TaskView>) -> bool {
    forall|p: int, q: int| 0 <= p < q < tasks.len() ==> tasks[p].id != tasks[q].id
}

/// Resolution resolves: once every repeat has its new identifier, no two
/// tasks share one.
pub proof fn lemma_resolved_is_free_of_conflicts(tasks: Seq<TaskView>)
    ensures
        free_of_conflicts(resolved(tasks)),
{
    let after = resolved(tasks);
    lemma_max_id(tasks);
    assert forall|p: int, q: int| 0 <= p < q < after.len() implies after[p].id != after[q].id by {
        lemma_id_index(tasks, tasks[p].id);
        lemma_id_index(tasks, tasks[q].id);
        if is_repeat(tasks, p) && is_repeat(tasks, q) {
            lemma_new_identifiers_are_fresh(tasks, p, q);
        } else if is_repeat(tasks, p) {
            assert(tasks[q].id <= max_id(tasks));
        } else if is_repeat(tasks, q) {
            assert(tasks[p].id <= max_id(tasks));
        } else {
            if tasks[p].id == tasks[q].id {
                assert(id_index(tasks, tasks[q].id) <= p);
            }
        }
    }
}

/// Among tasks of which no two share an identifier, no identifier occurs
/// twice, so that there is no conflict to report.
pub proof fn lemma_no_conflict_to_report(tasks: Seq<TaskView>, id: nat)
    requires
        free_of_conflicts(tasks),
    ensures
        occurrences(tasks, id).len() <= 1,
{
    lemma_occurrences(tasks, id);
    let occ = occurrences(tasks, id);
    if occ.len() >= 2 {
        lemma_occurrences_ascending(tasks, id, 0, 1);
        assert(tasks[occ[0]].id == id);
        assert(tasks[occ[1]].id == id);
    }
}

/// A repeat that is taken before another has the smaller rank.
pub proof fn lemma_rank_order(tasks: Seq<TaskView>, a: int, b: int, n: int)
    requires
        precedes(tasks, a, b),
        is_repeat(tasks, b),
        0 <= n <= tasks.len(),
    ensures
        rank(tasks, a, n) <= rank(tasks, b, n),
        a < n ==> rank(tasks, a, n) < rank(tasks, b, n),
    decreases n,
{
    if n > 0 {
        lemma_rank_order(tasks, a, b, n - 1);
        if precedes(tasks, n - 1, a) {
            assert(precedes(tasks, n - 1, b));
        }
    }
}

/// A group of tasks that share an identifier: the identifier, and the
/// positions of the tasks in the document, counted from zero.
#[derive(Debug)]
pub struct Conflict {
    pub id: TaskId,
    pub positions: Vec<usize>,
}

/// The positions of a group as integers.
pub open spec fn positions_of(c: Conflict) -> Seq<int> {
    Seq::new(c.positions@.len(), |i: int| c.positions@[i] as int)
}

/// Whether `groups` reports the conflicts of `tasks`: one group for each
/// identifier that occurs more than once, with all the positions at which
/// it occurs, the groups in strictly ascending order of identifier.
pub open spec fn reports_conflicts(groups: Seq<Conflict>, tasks: Seq<TaskView>) -> bool {
    &&& forall|i: int, j: int| 0 <= i < j < groups.len() ==> groups[i].id@ < groups[j].id@
    &&& forall|i: int|
        0 <= i < groups.len() ==> positions_of(#[trigger] groups[i]) == occurrences(
            tasks,
            groups[i].id@,
        ) && groups[i].positions@.len() >= 2
    &&& forall|id: nat| #[trigger]
        occurrences(tasks, id).len() >= 2 ==> exists|i: int|
            0 <= i < groups.len() && (#[trigger] groups[i]).id@ == id
}

/// A task that was given a new identifier: where it stands in the
/// document, what it was called, what it is called now, and its subject.
#[derive(Debug)]
pub struct Renumbering {
    pub position: usize,
    pub old_id: TaskId,
    pub new_id: TaskId,
    pub subject: String,
}

impl View for Renumbering {
    type V = RenumberingView;

    open spec fn view(&self) -> RenumberingView {
        RenumberingView {
            position: self.position as int,
            old_id: self.old_id@,
            new_id: self.new_id@,
            subject: self.subject@,
        }
    }
}

/// The values of a sequence of renumberings.
pub open spec fn renumbering_views(s: Seq<Renumbering>) -> Seq<RenumberingView> {
    Seq::new(s.len(), |i: int| s[i]@)
}

/// Why conflicts could not be resolved.
#[derive(Debug, Clone, Copy, PartialEq, Eq, Structural)]
pub enum ConflictError {
    /// There are more repeats than identifiers above the largest one.
    IdentifiersExhausted,
}

/// The position of the first task with identifier `id`.
fn first_position(tasks: &[Task], id: TaskId) -> (i: usize)
    ensures
        i == id_index(task_views(tasks@), id@),
        i <= tasks.len(),
{
    let ghost all = task_views(tasks@);
    let mut i: usize = 0;
    assert(all.skip(0) == all);
    while i < tasks.len()
        invariant
            all == task_views(tasks@),
            i <= tasks.len(),
            id_index(all, id@) == i + id_index(all.skip(i as int), id@),
        decreases tasks.len() - i,
    {
        assert(all.skip(i as int)[0] == tasks[i as int]@);
        if tasks[i].id.value() == id.value() {
            return i;
        }
        assert(all.skip(i as int).skip(1) == all.skip(i + 1));
        i += 1;
    }
    i
}

/// The positions of the tasks with identifier `id`.
fn positions_with(tasks: &[Task], id: TaskId) -> (r: Vec<usize>)
    ensures
        Seq::new(r@.len(), |i: int| r@[i] as int) == occurrences(task_views(tasks@), id@),
{
    let ghost all = task_views(tasks@);
    let mut r: Vec<usize> = Vec::new();
    let mut i: usize = 0;
    assert(all.take(0) == Seq::<TaskView>::empty());
    assert(Seq::new(r@.len(), |k: int| r@[k] as int) == Seq::<int>::empty());
    while i < tasks.len()
        invariant
            all == task_views(tasks@),
            i <= tasks.len(),
            Seq::new(r@.len(), |k: int| r@[k] as int) == occurrences(all.take(i as int), id@),
        decreases tasks.len() - i,
    {
        assert(all.take(i + 1).drop_last() == all.take(i as int));
        assert(all.take(i + 1).last() == tasks[i as int]@);
        let ghost before = Seq::new(r@.len(), |k: int| r@[k] as int);
        if tasks[i].id.value() == id.value() {
            r.push(i);
            assert(Seq::new(r@.len(), |k: int| r@[k] as int) == before.push(i as int));
        }
        i += 1;
    }
    assert(all.take(i as int) == all);
    r
}

/// The first occurrence of an identifier is the first position listed for it.
proof fn lemma_occurrences(tasks: Seq<TaskView>, id: nat)
    ensures
        forall|k: int|
            0 <= k < occurrences(tasks, id).len() ==> 0 <= (#[trigger] occurrences(tasks, id)[k])
                < tasks.len() && tasks[occurrences(tasks, id)[k]].id == id,
        forall|p: int|
            0 <= p < tasks.len() && tasks[p].id == id ==> occurrences(tasks, id).contains(p),
        occurrences(tasks, id).len() > 0 ==> occurrences(tasks, id)[0] == id_index(tasks, id),
        occurrences(tasks, id).len() == 0 ==> id_index(tasks, id) == tasks.len(),
    decreases tasks.len(),
{
    lemma_id_index(tasks, id);
    if tasks.len() > 0 {
        let init = tasks.drop_last();
        let before = occurrences(init, id);
        let here = occurrences(tasks, id);
        lemma_occurrences(init, id);
        lemma_id_index(init, id);
        assert forall|k: int| 0 <= k < here.len() implies 0 <= (#[trigger] here[k]) < tasks.len()
            && tasks[here[k]].id == id by {
            if k < before.len() {
                assert(here[k] == before[k]);
                assert(init[before[k]] == tasks[before[k]]);
            }
        }
        assert forall|p: int| 0 <= p < tasks.len() && tasks[p].id == id implies here.contains(
            p,
        ) by {
            if p < init.len() {
                assert(init[p] == tasks[p]);
                assert(before.contains(p));
                let k = choose|k: int| 0 <= k < before.len() && before[k] == p;
                assert(here[k] == p);
            } else {
                assert(here[here.len() - 1] == p);
            }
        }
        if here.len() > 0 {
            let f = here[0];
            assert(tasks[f].id == id);
            assert(id_index(tasks, id) <= f) by {
                if id_index(tasks, id) > f {
                    assert(tasks[f].id != id);
                }
            }
            let g = id_index(tasks, id);
            assert(here.contains(g));
            let k = choose|k: int| 0 <= k < here.len() && here[k] == g;
            lemma_occurrences_ascending(tasks, id, 0, k);
        } else {
            if id_index(tasks, id) < tasks.len() {
                assert(here.contains(id_index(tasks, id)));
            }
        }
    }
}

/// The positions listed for an identifier ascend.
proof fn lemma_occurrences_ascending(tasks: Seq<TaskView>, id: nat, i: int, j: int)
    requires
        0 <= i <= j < occurrences(tasks, id).len(),
    ensures
        occurrences(tasks, id)[i] <= occurrences(tasks, id)[j],
        i < j ==> occurrences(tasks, id)[i] < occurrences(tasks, id)[j],
        occurrences(tasks, id)[j] < tasks.len(),
    decreases tasks.len(),
{
    if tasks.len() > 0 {
        let before = occurrences(tasks.drop_last(), id);
        if j < before.len() {
            lemma_occurrences_ascending(tasks.drop_last(), id, i, j);
        } else if i < before.len() {
            lemma_occurrences_ascending(tasks.drop_last(), id, i, i);
        }
    }
}

/// Finds the groups of tasks that share an identifier.
pub fn find_conflicts(collection: &TaskCollection) -> (r: Vec<Conflict>)
    ensures
        reports_conflicts(r@, collection@),
{
    let tasks = collection.tasks();
    let ghost all = task_views(tasks@);
    let mut groups: Vec<Conflict> = Vec::new();
    let mut p: usize = 0;
    assert forall|id: nat| id_index(all, id) >= 0 by {
        lemma_id_index(all, id);
    }
    while p < tasks.len()
        invariant
            all == task_views(tasks@),
            p <= tasks.len(),
            forall|i: int, j: int| 0 <= i < j < groups@.len() ==> groups@[i].id@ < groups@[j].id@,
            forall|i: int|
                0 <= i < groups@.len() ==> positions_of(#[trigger] groups@[i]) == occurrences(
                    all,
                    groups@[i].id@,
                ) && groups@[i].positions@.len() >= 2,
            forall|id: nat| #[trigger]
                occurrences(all, id).len() >= 2 && id_index(all, id) < p ==> exists|i: int|
                    0 <= i < groups@.len() && (#[trigger] groups@[i]).id@ == id,
            forall|i: int| 0 <= i < groups@.len() ==> id_index(all, (#[trigger] groups@[i]).id@) < p,
        decreases tasks.len() - p,
    {
        let id = tasks[p].id;
        let ghost old_groups = groups@;
        assert(all[p as int] == tasks[p as int]@);
        proof {
            lemma_id_index(all, id@);
        }
        if first_position(tasks, id) == p {
            let positions = positions_with(tasks, id);
            if positions.len() >= 2 {
                let value = id.value();
                let mut k: usize = 0;
                while k < groups.len() && groups[k].id.value() < value
                    invariant
                        k <= groups.len(),
                        value == id@,
                        groups@ == old_groups,
                        forall|j: int| 0 <= j < k ==> (#[trigger] groups@[j]).id@ < value,
                    decreases groups.len() - k,
                {
                    k += 1;
                }
                proof {
                    if k < groups.len() {
                        assert(id_index(all, groups@[k as int].id@) < p);
                        assert(groups@[k as int].id@ != id@);
                    }
                }
                let group = Conflict { id, positions };
                groups.insert(k, group);
                assert(groups@ == old_groups.insert(k as int, group));
                assert forall|i: int, j: int| 0 <= i < j < groups@.len() implies groups@[i].id@
                    < groups@[j].id@ by {
                    if i != k {
                        assert(groups@[i] == old_groups[if i < k {
                            i
                        } else {
                            i - 1
                        }]);
                    }
                    if j != k {
                        assert(groups@[j] == old_groups[if j < k {
                            j
                        } else {
                            j - 1
                        }]);
                    }
                }
                assert forall|i: int| 0 <= i < groups@.len() implies positions_of(
                    #[trigger] groups@[i],
                ) == occurrences(all, groups@[i].id@) && groups@[i].positions@.len() >= 2
                    && id_index(all, groups@[i].id@) < p + 1 by {
                    if i != k {
                        assert(groups@[i] == old_groups[if i < k {
                            i
                        } else {
                            i - 1
                        }]);
                    }
                }
                assert forall|other: nat| #[trigger]
                    occurrences(all, other).len() >= 2 && id_index(all, other) < p
                        + 1 implies exists|i: int|
                    0 <= i < groups@.len() && (#[trigger] groups@[i]).id@ == other by {
                    if id_index(all, other) < p {
                        let i = choose|i: int|
                            0 <= i < old_groups.len() && (#[trigger] old_groups[i]).id@ == other;
                        let ni = if i < k {
                            i
                        } else {
                            i + 1
                        };
                        assert(groups@[ni] == old_groups[i]);
                    } else {
                        lemma_id_index(all, other);
                        assert(groups@[k as int].id@ == other);
                    }
                }
            } else {
                assert forall|other: nat| #[trigger]
                    occurrences(all, other).len() >= 2 && id_index(all, other) < p
                        + 1 implies exists|i: int|
                    0 <= i < groups@.len() && (#[trigger] groups@[i]).id@ == other by {
                    lemma_id_index(all, other);
                }
            }
        } else {
            assert forall|other: nat| #[trigger]
                occurrences(all, other).len() >= 2 && id_index(all, other) < p
                    + 1 implies exists|i: int|
                0 <= i < groups@.len() && (#[trigger] groups@[i]).id@ == other by {
                lemma_id_index(all, other);
            }
        }
        p += 1;
    }
    proof {
        assert forall|id: nat| #[trigger] occurrences(all, id).len() >= 2 implies exists|i: int|
            0 <= i < groups@.len() && (#[trigger] groups@[i]).id@ == id by {
            lemma_occurrences(all, id);
            lemma_id_index(all, id);
        }
        assert(all == collection@);
    }
    groups
}

/// How many repeats are taken before the one at position `p`.
fn rank_of(tasks: &[Task], flags: &Vec<bool>, p: usize) -> (r: usize)
    requires
        p < tasks.len(),
        flags@.len() == tasks@.len(),
        forall|q: int| 0 <= q < tasks@.len() ==> flags@[q] == is_repeat(task_views(tasks@), q),
    ensures
        r == rank(task_views(tasks@), p as int, tasks@.len() as int),
{
    let ghost all = task_views(tasks@);
    let id = tasks[p].id.value();
    let mut r: usize = 0;
    let mut q: usize = 0;
    while q < tasks.len()
        invariant
            all == task_views(tasks@),
            p < tasks.len(),
            flags@.len() == tasks@.len(),
            forall|q: int| 0 <= q < tasks@.len() ==> flags@[q] == is_repeat(all, q),
            id == all[p as int].id,
            q <= tasks.len(),
            r == rank(all, p as int, q as int),
            r <= q,
        decreases tasks.len() - q,
    {
        let other = tasks[q].id.value();
        assert(all[q as int] == tasks[q as int]@);
        if flags[q] && (other < id || (other == id && q < p)) {
            r += 1;
        }
        q += 1;
    }
    r
}

/// Gives every task that repeats the identifier of an earlier one a fresh
/// identifier. The first task of each group keeps its identifier. The
/// fresh ones follow the largest identifier of the document, one by one,
/// the repeats being taken in ascending order of the identifier they
/// repeat, and in order of position within a group. The result lists the
/// renumbered tasks in order of position. Nothing changes if there are more
/// repeats than identifiers left.
pub fn resolve_conflicts(doc: &mut FrumpDoc) -> (r: Result<Vec<Renumbering>, ConflictError>)
    ensures
        match r {
            Ok(list) => {
                let tasks = old(doc)@.tasks;
                &&& max_id(tasks) + repeats(tasks, tasks.len() as int) <= u32::MAX
                &&& final(doc)@ == (DocView { tasks: resolved(tasks), ..old(doc)@ })
                &&& renumbering_views(list@) == renumberings(tasks, tasks.len() as int)
            },
            Err(e) => {
                let tasks = old(doc)@.tasks;
                &&& max_id(tasks) + repeats(tasks, tasks.len() as int) > u32::MAX
                &&& final(doc)@ == old(doc)@
            },
        },
{
    let tasks = doc.tasks.tasks();
    let ghost all = task_views(tasks@);
    let n = tasks.len();
    let top: u32 = match doc.tasks.max_id() {
        Some(id) => id.value(),
        None => 0,
    };
    assert(top == max_id(all));
    let mut flags: Vec<bool> = Vec::new();
    let mut count: usize = 0;
    let mut p: usize = 0;
    while p < n
        invariant
            all == task_views(tasks@),
            n == tasks.len(),
            p <= n,
            flags@.len() == p,
            forall|q: int| 0 <= q < p ==> flags@[q] == is_repeat(all, q),
            count == repeats(all, p as int),
            count <= p,
        decreases n - p,
    {
        assert(all[p as int] == tasks[p as int]@);
        let repeat = first_position(tasks, tasks[p].id) < p;
        flags.push(repeat);
        if repeat {
            count += 1;
        }
        p += 1;
    }
    if count > 0xffff_ffff || count as u64 + top as u64 > 0xffff_ffff {
        return Err(ConflictError::IdentifiersExhausted);
    }
    let mut renumbered: Vec<Task> = Vec::new();
    let mut list: Vec<Renumbering> = Vec::new();
    let mut p: usize = 0;
    assert(renumbering_views(list@) == Seq::<RenumberingView>::empty());
    while p < n
        invariant
            all == task_views(tasks@),
            n == tasks.len(),
            p <= n,
            flags@.len() == n,
            forall|q: int| 0 <= q < n ==> flags@[q] == is_repeat(all, q),
            top == max_id(all),
            count == repeats(all, n as int),
            count + top <= u32::MAX,
            renumbered@.len() == p,
            forall|q: int|
                0 <= q < p ==> (#[trigger] renumbered@[q])@ == (TaskView {
                    id: resolved_id(all, q),
                    ..all[q]
                }),
            renumbering_views(list@) == renumberings(all, p as int),
        decreases n - p,
    {
        assert(all[p as int] == tasks[p as int]@);
        let mut task = tasks[p].clone();
        if flags[p] {
            let rank = rank_of(tasks, &flags, p);
            proof {
                lemma_rank_below_repeats(all, p as int, n as int);
            }
            let fresh: u32 = top + 1 + rank as u32;
            let new_id = match TaskId::new(fresh) {
                Ok(id) => id,
                Err(_) => unreached(),
            };
            let ghost before = renumbering_views(list@);
            let entry = Renumbering {
                position: p,
                old_id: task.id,
                new_id,
                subject: task.subject.clone(),
            };
            let ghost ev = entry@;
            list.push(entry);
            assert(renumbering_views(list@) == before.push(ev));
            task.id = new_id;
        }
        renumbered.push(task);
        p += 1;
    }
    doc.tasks = TaskCollection::new(renumbered);
    assert(doc@.tasks == resolved(all));
    Ok(list)
}

// ---------------------------------------------------------------------------
// Recording a resolution
// ---------------------------------------------------------------------------

/// How the recording of a resolution ended.
#[derive(Debug, Clone, Copy, PartialEq, Eq, Structural)]
pub enum RecordOutcome {
    /// The changed document could not be staged; no record was made.
    NotStaged,
    /// The changed document was staged and recorded.
    Recorded,
    /// The changed document was staged, but the record could not be made:
    /// the document is changed and not recorded.
    SavedNotRecorded,
}

/// Where the recording of a resolution stands. The changed document is
/// first staged, then recorded; these are two steps, and the second is
/// taken only if the first succeeded.
#[derive(Debug, Clone, Copy, PartialEq, Eq, Structural)]
pub enum Recording {
    ToStage,
    ToRecord,
    Done(RecordOutcome),
}

/// What is to be done next.
#[derive(Debug, Clone, Copy, PartialEq, Eq, Structural)]
pub enum RecordAction {
    Stage,
    Record,
    Stop,
}

/// What is to be done in a state.
pub open spec fn action_in(state: Recording) -> RecordAction {
    match state {
        Recording::ToStage => RecordAction::Stage,
        Recording::ToRecord => RecordAction::Record,
        Recording::Done(_) => RecordAction::Stop,
    }
}

/// The state after the action of a state succeeded or failed.
pub open spec fn recording_after(state: Recording, succeeded: bool) -> Recording {
    match state {
        Recording::ToStage => if succeeded {
            Recording::ToRecord
        } else {
            Recording::Done(RecordOutcome::NotStaged)
        },
        Recording::ToRecord => if succeeded {
            Recording::Done(RecordOutcome::Recorded)
        } else {
            Recording::Done(RecordOutcome::SavedNotRecorded)
        },
        Recording::Done(outcome) => Recording::Done(outcome),
    }
}

impl Recording {
    /// The state in which nothing was done yet.
    pub fn start() -> (r: Recording)
        ensures
            r == Recording::ToStage,
    {
        Recording::ToStage
    }

    /// What is to be done next.
    pub fn action(&self) -> (r: RecordAction)
        ensures
            r == action_in(*self),
    {
        match self {
            Recording::ToStage => RecordAction::Stage,
            Recording::ToRecord => RecordAction::Record,
            Recording::Done(_) => RecordAction::Stop,
        }
    }

    /// The state after the action succeeded or failed.
    pub fn after(self, succeeded: bool) -> (r: Recording)
        ensures
            r == recording_after(self, succeeded),
    {
        match self {
            Recording::ToStage => if succeeded {
                Recording::ToRecord
            } else {
                Recording::Done(RecordOutcome::NotStaged)
            },
            Recording::ToRecord => if succeeded {
                Recording::Done(RecordOutcome::Recorded)
            } else {
                Recording::Done(RecordOutcome::SavedNotRecorded)
            },
            Recording::Done(outcome) => Recording::Done(outcome),
        }
    }
}

/// A record is made only of what was staged: where staging fails, the
/// recording stops at once, and where it succeeds, the outcome is that of
/// the record.
pub proof fn lemma_recording(staged: bool, recorded: bool)
    ensures
        !staged ==> recording_after(Recording::ToStage, staged) == Recording::Done(
            RecordOutcome::NotStaged,
        ),
        action_in(recording_after(Recording::ToStage, false)) == RecordAction::Stop,
        staged ==> action_in(recording_after(Recording::ToStage, staged)) == RecordAction::Record,
        staged ==> recording_after(recording_after(Recording::ToStage, staged), recorded)
            == Recording::Done(
            if recorded {
                RecordOutcome::Recorded
            } else {
                RecordOutcome::SavedNotRecorded
            },
        ),
{
}

} // verus!
