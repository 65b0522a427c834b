//! Task collections and whole documents.

use super::property::{PropertyKey, PropertyView};
use super::task::{lookup, Task, TaskView};
use super::task_id::TaskId;
use super::task_type::TaskType;
use super::team::{MemberView, Team};
use crate::text::str_eq;
use vstd::prelude::*;

verus! {

/// The values of a sequence of tasks.
pub open spec fn task_views(s: Seq<Task>) -> Seq<TaskView> {
    Seq::new(s.len(), |i: int| s[i]@)
}

/// The values of a sequence of borrowed tasks.
pub open spec fn borrowed_task_views(s: Seq<&Task>) -> Seq<TaskView> {
    Seq::new(s.len(), |i: int| s[i]@)
}

/// The index of the first task with identifier `id`, or the number of tasks
/// if there is none.
pub open spec fn id_index(tasks: Seq<TaskView>, id: nat) -> int
    decreases tasks.len(),
{
    if tasks.len() == 0 || tasks[0].id == id {
        0
    } else {
        1 + id_index(tasks.skip(1), id)
    }
}

/// `id_index` lies within the list, finds the identifier, and no task before
/// it has the identifier.
pub proof fn lemma_id_index(tasks: Seq<TaskView>, id: nat)
    ensures
        0 <= id_index(tasks, id) <= tasks.len(),
        id_index(tasks, id) < tasks.len() ==> tasks[id_index(tasks, id)].id == id,
        forall|j: int| 0 <= j < id_index(tasks, id) ==> tasks[j].id != id,
    decreases tasks.len(),
{
    if tasks.len() == 0 || tasks[0].id == id {
    } else {
        lemma_id_index(tasks.skip(1), id);
        assert forall|j: int| 0 <= j < id_index(tasks, id) implies tasks[j].id != id by {
            if j > 0 {
                assert(tasks.skip(1)[j - 1] == tasks[j]);
            }
        }
    }
}

/// The largest identifier among `tasks`, or zero if there is no task.
pub open spec fn max_id(tasks: Seq<TaskView>) -> nat
    decreases tasks.len(),
{
    if tasks.len() == 0 {
        0
    } else {
        let m = max_id(tasks.drop_last());
        if tasks.last().id > m {
            tasks.last().id
        } else {
            m
        }
    }
}

/// `max_id` is an upper bound of the identifiers, and, if there is a task,
/// the identifier of one.
pub proof fn lemma_max_id(tasks: Seq<TaskView>)
    ensures
        forall|j: int| 0 <= j < tasks.len() ==> (#[trigger] tasks[j]).id <= max_id(tasks),
        tasks.len() > 0 ==> exists|i: int| 0 <= i < tasks.len() && (#[trigger] tasks[i]).id
            == max_id(tasks),
    decreases tasks.len(),
{
    if tasks.len() > 0 {
        let init = tasks.drop_last();
        lemma_max_id(init);
        assert forall|j: int| 0 <= j < tasks.len() implies (#[trigger] tasks[j]).id <= max_id(
            tasks,
        ) by {
            if j < init.len() {
                assert(init[j] == tasks[j]);
            }
        }
        if tasks.last().id > max_id(init) {
            assert(tasks[tasks.len() - 1].id == max_id(tasks));
        } else if init.len() > 0 {
            let i = choose|i: int| 0 <= i < init.len() && (#[trigger] init[i]).id == max_id(init);
            assert(tasks[i] == init[i]);
        } else {
            assert(tasks[tasks.len() - 1].id == max_id(tasks));
        }
    }
}

/// Whether the task is assigned to `name`.
pub open spec fn assigned_to(t: TaskView, name: Seq<char>) -> bool {
    lookup(t.properties, "Assigned To"@) == Some(name)
}

/// Whether the task has the status `status`.
pub open spec fn has_status(t: TaskView, status: Seq<char>) -> bool {
    lookup(t.properties, "Status"@) == Some(status)
}

/// An ordered list of tasks. Nothing keeps two of them from sharing an
/// identifier.
#[derive(Debug)]
pub struct TaskCollection {
    tasks: Vec<Task>,
}

impl View for TaskCollection {
    type V = Seq<TaskView>;

    closed spec fn view(&self) -> Seq<TaskView> {
        task_views(self.tasks@)
    }
}

impl Clone for TaskCollection {
    fn clone(&self) -> (r: Self)
        ensures
            r@ == self@,
    {
        let mut tasks: Vec<Task> = Vec::new();
        let mut i: usize = 0;
        while i < self.tasks.len()
            invariant
                i <= self.tasks.len(),
                task_views(tasks@) == task_views(self.tasks@).take(i as int),
            decreases self.tasks.len() - i,
        {
            let ghost before = task_views(tasks@);
            tasks.push(self.tasks[i].clone());
            assert(task_views(tasks@) == before.push(self.tasks[i as int]@));
            i += 1;
        }
        assert(task_views(self.tasks@).take(i as int) == task_views(self.tasks@));
        TaskCollection { tasks }
    }
}

impl TaskCollection {
    /// The collection of the given tasks.
    pub fn new(tasks: Vec<Task>) -> (r: TaskCollection)
        ensures
            r@ == task_views(tasks@),
    {
        TaskCollection { tasks }
    }

    /// The collection without tasks.
    pub fn empty() -> (r: TaskCollection)
        ensures
            r@ == Seq::<TaskView>::empty(),
    {
        let r = TaskCollection { tasks: Vec::new() };
        assert(r@ == Seq::<TaskView>::empty());
        r
    }

    /// The tasks, in order.
    pub fn tasks(&self) -> (r: &[Task])
        ensures
            task_views(r@) == self@,
    {
        self.tasks.as_slice()
    }

    /// The tasks, to be changed in place.
    pub fn tasks_mut(&mut self) -> (r: &mut Vec<Task>)
        ensures
            task_views(r@) == old(self)@,
            final(self)@ == task_views(final(r)@),
    {
        &mut self.tasks
    }

    /// The position of the first task with identifier `id`.
    fn position_of(&self, id: TaskId) -> (i: usize)
        ensures
            i == id_index(self@, id@),
            i <= self.tasks.len(),
            i <= self@.len(),
    {
        let ghost tasks = self@;
        let mut i: usize = 0;
        assert(tasks.skip(0) == tasks);
        while i < self.tasks.len()
            invariant
                tasks == self@,
                i <= self.tasks.len(),
                id_index(tasks, id@) == i + id_index(tasks.skip(i as int), id@),
            decreases self.tasks.len() - i,
        {
            assert(tasks.skip(i as int)[0] == self.tasks[i as int]@);
            if self.tasks[i].id.value() == id.value() {
                return i;
            }
            assert(tasks.skip(i as int).skip(1) == tasks.skip(i + 1));
            i += 1;
        }
        i
    }

    /// The first task with identifier `id`.
    pub fn find_by_id(&self, id: TaskId) -> (r: Option<&Task>)
        ensures
            match r {
                Some(t) => id_index(self@, id@) < self@.len() && t@ == self@[id_index(self@, id@)],
                None => id_index(self@, id@) == self@.len(),
            },
    {
        let i = self.position_of(id);
        if i < self.tasks.len() {
            Some(&self.tasks[i])
        } else {
            None
        }
    }

    /// The first task with identifier `id`, to be changed in place.
    pub fn find_by_id_mut(&mut self, id: TaskId) -> (r: Option<&mut Task>)
        ensures
            match r {
                Some(t) => {
                    let i = id_index(old(self)@, id@);
                    &&& i < old(self)@.len()
                    &&& t@ == old(self)@[i]
                    &&& final(self)@ == old(self)@.update(i, final(t)@)
                },
                None => id_index(old(self)@, id@) == old(self)@.len() && final(self)@ == old(
                    self,
                )@,
            },
    {
        let i = self.position_of(id);
        if i < self.tasks.len() {
            Some(&mut self.tasks[i])
        } else {
            None
        }
    }

    /// The largest identifier in the collection.
    pub fn max_id(&self) -> (r: Option<TaskId>)
        ensures
            match r {
                Some(id) => self@.len() > 0 && id@ == max_id(self@),
                None => self@.len() == 0,
            },
    {
        let ghost tasks = self@;
        let mut best: Option<TaskId> = None;
        let mut i: usize = 0;
        while i < self.tasks.len()
            invariant
                tasks == self@,
                i <= self.tasks.len(),
                match best {
                    Some(id) => i > 0 && id@ == max_id(tasks.take(i as int)),
                    None => i == 0,
                },
            decreases self.tasks.len() - i,
        {
            assert(tasks.take(i + 1).drop_last() == tasks.take(i as int));
            assert(tasks.take(i + 1).last() == self.tasks[i as int]@);
            let id = self.tasks[i].id;
            best = match best {
                Some(b) => if id.value() > b.value() {
                    Some(id)
                } else {
                    Some(b)
                },
                None => {
                    assert(max_id(tasks.take(0)) == 0);
                    Some(id)
                },
            };
            i += 1;
        }
        assert(tasks.take(i as int) == tasks);
        best
    }

    /// The identifier for a new task: one more than the largest in the
    /// collection, or one if the collection is empty.
    pub fn next_id(&self) -> (r: TaskId)
        requires
            max_id(self@) < u32::MAX,
        ensures
            r@ == max_id(self@) + 1,
    {
        match self.max_id() {
            Some(id) => id.next(),
            None => {
                match TaskId::new(1) {
                    Ok(id) => id,
                    Err(_) => unreached(),
                }
            },
        }
    }

    /// Adds a task at the end.
    pub fn add(&mut self, task: Task)
        ensures
            final(self)@ == old(self)@.push(task@),
    {
        self.tasks.push(task);
        assert(self@ == old(self)@.push(task@));
    }

    /// Removes the first task with identifier `id` and returns it.
    pub fn remove(&mut self, id: TaskId) -> (r: Option<Task>)
        ensures
            match r {
                Some(t) => {
                    let i = id_index(old(self)@, id@);
                    &&& i < old(self)@.len()
                    &&& t@ == old(self)@[i]
                    &&& final(self)@ == old(self)@.remove(i)
                },
                None => id_index(old(self)@, id@) == old(self)@.len() && final(self)@ == old(
                    self,
                )@,
            },
    {
        let i = self.position_of(id);
        if i < self.tasks.len() {
            let t = self.tasks.remove(i);
            assert(self@ == old(self)@.remove(i as int));
            Some(t)
        } else {
            None
        }
    }

    /// The tasks assigned to `assignee`, in order.
    pub fn filter_by_assignee(&self, assignee: &str) -> (r: Vec<&Task>)
        ensures
            borrowed_task_views(r@) == self@.filter(|t: TaskView| assigned_to(t, assignee@)),
    {
        let ghost tasks = self@;
        let ghost keep = |t: TaskView| assigned_to(t, assignee@);
        let mut found: Vec<&Task> = Vec::new();
        let mut i: usize = 0;
        proof {
            reveal(Seq::filter);
        }
        while i < self.tasks.len()
            invariant
                tasks == self@,
                keep == (|t: TaskView| assigned_to(t, assignee@)),
                i <= self.tasks.len(),
                borrowed_task_views(found@) == tasks.take(i as int).filter(keep),
            decreases self.tasks.len() - i,
        {
            proof {
                reveal(Seq::filter);
            }
            assert(tasks.take(i + 1).drop_last() == tasks.take(i as int));
            let ghost before = borrowed_task_views(found@);
            let matches = match self.tasks[i].assignee() {
                Some(a) => str_eq(a, assignee),
                None => false,
            };
            if matches {
                found.push(&self.tasks[i]);
                assert(borrowed_task_views(found@) == before.push(self.tasks[i as int]@));
            }
            i += 1;
        }
        assert(tasks.take(i as int) == tasks);
        found
    }

    /// The tasks with status `status`, in order.
    pub fn filter_by_status(&self, status: &str) -> (r: Vec<&Task>)
        ensures
            borrowed_task_views(r@) == self@.filter(|t: TaskView| has_status(t, status@)),
    {
        let ghost tasks = self@;
        let ghost keep = |t: TaskView| has_status(t, status@);
        let mut found: Vec<&Task> = Vec::new();
        let mut i: usize = 0;
        proof {
            reveal(Seq::filter);
        }
        while i < self.tasks.len()
            invariant
                tasks == self@,
                keep == (|t: TaskView| has_status(t, status@)),
                i <= self.tasks.len(),
                borrowed_task_views(found@) == tasks.take(i as int).filter(keep),
            decreases self.tasks.len() - i,
        {
            proof {
                reveal(Seq::filter);
            }
            assert(tasks.take(i + 1).drop_last() == tasks.take(i as int));
            let ghost before = borrowed_task_views(found@);
            let matches = match self.tasks[i].status() {
                Some(s) => str_eq(s, status),
                None => false,
            };
            if matches {
                found.push(&self.tasks[i]);
                assert(borrowed_task_views(found@) == before.push(self.tasks[i as int]@));
            }
            i += 1;
        }
        assert(tasks.take(i as int) == tasks);
        found
    }

    /// The tasks of type `task_type`, in order.
    pub fn filter_by_type(&self, task_type: &TaskType) -> (r: Vec<&Task>)
        ensures
            borrowed_task_views(r@) == self@.filter(|t: TaskView| t.task_type == task_type@),
    {
        let ghost tasks = self@;
        let ghost keep = |t: TaskView| t.task_type == task_type@;
        let mut found: Vec<&Task> = Vec::new();
        let mut i: usize = 0;
        proof {
            reveal(Seq::filter);
        }
        while i < self.tasks.len()
            invariant
                tasks == self@,
                keep == (|t: TaskView| t.task_type == task_type@),
                i <= self.tasks.len(),
                borrowed_task_views(found@) == tasks.take(i as int).filter(keep),
            decreases self.tasks.len() - i,
        {
            proof {
                reveal(Seq::filter);
            }
            assert(tasks.take(i + 1).drop_last() == tasks.take(i as int));
            let ghost before = borrowed_task_views(found@);
            if self.tasks[i].task_type.same(task_type) {
                found.push(&self.tasks[i]);
                assert(borrowed_task_views(found@) == before.push(self.tasks[i as int]@));
            }
            i += 1;
        }
        assert(tasks.take(i as int) == tasks);
        found
    }

    /// Whether the collection has no task.
    pub fn is_empty(&self) -> (r: bool)
        ensures
            r == (self@.len() == 0),
    {
        self.tasks.len() == 0
    }

    /// The number of tasks.
    pub fn len(&self) -> (r: usize)
        ensures
            r == self@.len(),
    {
        self.tasks.len()
    }

    /// Assigns every task that has no `Assigned To` property to `name`.
    fn assign_unassigned(&mut self, name: &str)
        ensures
            final(self)@ == old(self)@.map_values(|t: TaskView| with_default_assignee(t, name@)),
    {
        let ghost tasks = self@;
        let mut i: usize = 0;
        while i < self.tasks.len()
            invariant
                i <= self.tasks.len(),
                self@.len() == tasks.len(),
                forall|j: int| 0 <= j < i ==> self@[j] == with_default_assignee(tasks[j], name@),
                forall|j: int| i <= j < tasks.len() ==> self@[j] == tasks[j],
            decreases self.tasks.len() - i,
        {
            let ghost before = self@;
            if self.tasks[i].assignee().is_none() {
                let mut task = self.tasks[i].clone();
                task.add_property(PropertyKey::assigned_to(), name.to_owned());
                self.tasks[i] = task;
                assert(self@ == before.update(i as int, with_default_assignee(tasks[i as int], name@)));
            }
            i += 1;
        }
        assert(self@ == tasks.map_values(|t: TaskView| with_default_assignee(t, name@)));
    }
}

/// The task as it is once a default assignee is applied: assigned to `name`
/// if it had no `Assigned To` property, unchanged otherwise.
pub open spec fn with_default_assignee(t: TaskView, name: Seq<char>) -> TaskView {
    if lookup(t.properties, "Assigned To"@) is None {
        TaskView {
            properties: t.properties.push(PropertyView { key: "Assigned To"@, value: name }),
            ..t
        }
    } else {
        t
    }
}

/// The mathematical value of a document.
pub struct DocView {
    pub header: Seq<char>,
    pub team: Seq<MemberView>,
    pub tasks: Seq<TaskView>,
}

/// The document as it is once default assignees are applied: with a team,
/// every unassigned task goes to the first member; without one, nothing changes.
pub open spec fn with_default_assignees(d: DocView) -> DocView {
    if d.team.len() == 0 {
        d
    } else {
        DocView {
            tasks: d.tasks.map_values(|t: TaskView| with_default_assignee(t, d.team[0].name)),
            ..d
        }
    }
}

/// A whole document: the header text before the sections, the team, and the
/// tasks.
#[derive(Debug)]
pub struct FrumpDoc {
    pub header: String,
    pub team: Team,
    pub tasks: TaskCollection,
}

impl View for FrumpDoc {
    type V = DocView;

    open spec fn view(&self) -> DocView {
        DocView { header: self.header@, team: self.team@, tasks: self.tasks@ }
    }
}

impl FrumpDoc {
    /// The document of the given parts.
    pub fn new(header: String, team: Team, tasks: TaskCollection) -> (r: FrumpDoc)
        ensures
            r@ == (DocView { header: header@, team: team@, tasks: tasks@ }),
    {
        FrumpDoc { header, team, tasks }
    }

    /// Assigns every task without an `Assigned To` property to the first
    /// member of the team, if there is one.
    pub fn apply_default_assignees(&mut self)
        ensures
            final(self)@ == with_default_assignees(old(self)@),
    {
        let name = match self.team.default_assignee() {
            Some(member) => member.name.clone(),
            None => {
                return ;
            },
        };
        self.tasks.assign_unassigned(name.as_str());
    }
}

} // verus!
