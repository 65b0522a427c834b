//! Plain records of a document, for exchange with other programs.
//!
//! An `ExportDoc` carries a document as unvalidated strings and numbers. A
//! document turns into one without loss but for repeated property keys, of
//! which the last value is kept; turning one into a document validates
//! every value again.

use crate::domain::document::{task_views, DocView, FrumpDoc, TaskCollection};
use crate::domain::property::{valid_key, PropertyKey, PropertyView};
use crate::domain::task::{key_index, lookup, property_views, stored, Task, TaskView};
use crate::domain::task_id::TaskId;
use crate::domain::task_type::{token_of_type, type_of_token, TaskType};
use crate::domain::team::{email_error, member_views, Email, MemberView, Team, TeamMember};
use crate::error::ValidationError;
use crate::text::trim;
use vstd::prelude::*;

verus! {

/// The values of a sequence of pairs of strings, each read as a key and
/// its value.
pub open spec fn pair_views(s: Seq<(String, String)>) -> Seq<PropertyView> {
    Seq::new(s.len(), |i: int| PropertyView { key: s[i].0@, value: s[i].1@ })
}

/// The mathematical value of an exported task.
pub struct ExportTaskView {
    pub id: nat,
    pub task_type: Seq<char>,
    pub subject: Seq<char>,
    pub body: Seq<char>,
    pub properties: Seq<PropertyView>,
}

/// A task as plain values. No key occurs twice among the properties of a
/// task that was exported.
#[derive(Debug, PartialEq, Eq)]
pub struct ExportTask {
    pub id: u32,
    pub task_type: String,
    pub subject: String,
    pub body: String,
    pub properties: Vec<(String, String)>,
}

impl View for ExportTask {
    type V = ExportTaskView;

    open spec fn view(&self) -> ExportTaskView {
        ExportTaskView {
            id: self.id as nat,
            task_type: self.task_type@,
            subject: self.subject@,
            body: self.body@,
            properties: pair_views(self.properties@),
        }
    }
}

/// The mathematical value of an exported team member.
pub struct ExportMemberView {
    pub name: Seq<char>,
    pub email: Seq<char>,
    pub role: Option<Seq<char>>,
}

/// A team member as plain values.
#[derive(Debug, PartialEq, Eq)]
pub struct ExportTeamMember {
    pub name: String,
    pub email: String,
    pub role: Option<String>,
}

impl View for ExportTeamMember {
    type V = ExportMemberView;

    open spec fn view(&self) -> ExportMemberView {
        ExportMemberView {
            name: self.name@,
            email: self.email@,
            role: match self.role {
                Some(r) => Some(r@),
                None => None,
            },
        }
    }
}

/// The values of a sequence of exported members.
pub open spec fn export_member_views(s: Seq<ExportTeamMember>) -> Seq<ExportMemberView> {
    Seq::new(s.len(), |i: int| s[i]@)
}

/// The values of a sequence of exported tasks.
pub open spec fn export_task_views(s: Seq<ExportTask>) -> Seq<ExportTaskView> {
    Seq::new(s.len(), |i: int| s[i]@)
}

/// The mathematical value of an exported document.
pub struct ExportDocView {
    pub header: Seq<char>,
    pub team: Seq<ExportMemberView>,
    pub tasks: Seq<ExportTaskView>,
}

/// A document as plain values.
#[derive(Debug, PartialEq, Eq)]
pub struct ExportDoc {
    pub header: String,
    pub team: Vec<ExportTeamMember>,
    pub tasks: Vec<ExportTask>,
}

impl View for ExportDoc {
    type V = ExportDocView;

    open spec fn view(&self) -> ExportDocView {
        ExportDocView {
            header: self.header@,
            team: export_member_views(self.team@),
            tasks: export_task_views(self.tasks@),
        }
    }
}

/// The properties with each key once: a key stands where it first
/// occurred, with the value it had last.
pub open spec fn merged(props: Seq<PropertyView>) -> Seq<PropertyView>
    decreases props.len(),
{
    if props.len() == 0 {
        Seq::empty()
    } else {
        stored(merged(props.drop_last()), props.last().key, props.last().value)
    }
}

/// A member as it is exported.
pub open spec fn exported_member(m: MemberView) -> ExportMemberView {
    ExportMemberView { name: m.name, email: m.email, role: m.role }
}

/// A task as it is exported.
pub open spec fn exported_task(t: TaskView) -> ExportTaskView {
    ExportTaskView {
        id: t.id,
        task_type: token_of_type(t.task_type),
        subject: t.subject,
        body: t.body,
        properties: merged(t.properties),
    }
}

/// A document as it is exported.
pub open spec fn exported(d: DocView) -> ExportDocView {
    ExportDocView {
        header: d.header,
        team: Seq::new(d.team.len(), |i: int| exported_member(d.team[i])),
        tasks: Seq::new(d.tasks.len(), |i: int| exported_task(d.tasks[i])),
    }
}

/// The member that an exported member stands for, unless its address is
/// refused.
pub open spec fn imported_member(m: ExportMemberView) -> Result<MemberView, ValidationError> {
    match email_error(m.email) {
        Some(e) => Err(e),
        None => Ok(MemberView { name: m.name, email: trim(m.email), role: m.role }),
    }
}

/// The properties whose key is a valid key; the others are dropped.
pub open spec fn valid_properties(props: Seq<PropertyView>) -> Seq<PropertyView> {
    props.filter(|p: PropertyView| valid_key(p.key))
}

/// The task that an exported task stands for, unless its identifier is zero.
pub open spec fn imported_task(t: ExportTaskView) -> Result<TaskView, ValidationError> {
    if t.id == 0 {
        Err(ValidationError::ZeroTaskId)
    } else {
        Ok(
            TaskView {
                id: t.id,
                task_type: type_of_token(t.task_type),
                subject: t.subject,
                body: t.body,
                properties: valid_properties(t.properties),
            },
        )
    }
}

/// The members that exported members stand for, or the first error.
pub open spec fn imported_team(team: Seq<ExportMemberView>) -> Result<
    Seq<MemberView>,
    ValidationError,
>
    decreases team.len(),
{
    if team.len() == 0 {
        Ok(Seq::empty())
    } else {
        match imported_team(team.drop_last()) {
            Err(e) => Err(e),
            Ok(before) => match imported_member(team.last()) {
                Err(e) => Err(e),
                Ok(m) => Ok(before.push(m)),
            },
        }
    }
}

/// The tasks that exported tasks stand for, or the first error.
pub open spec fn imported_tasks(tasks: Seq<ExportTaskView>) -> Result<
    Seq<TaskView>,
    ValidationError,
>
    decreases tasks.len(),
{
    if tasks.len() == 0 {
        Ok(Seq::empty())
    } else {
        match imported_tasks(tasks.drop_last()) {
            Err(e) => Err(e),
            Ok(before) => match imported_task(tasks.last()) {
                Err(e) => Err(e),
                Ok(t) => Ok(before.push(t)),
            },
        }
    }
}

/// The document that an exported document stands for, or the first error:
/// that of the team, if it has one, else that of the tasks.
pub open spec fn imported(d: ExportDocView) -> Result<DocView, ValidationError> {
    match imported_team(d.team) {
        Err(e) => Err(e),
        Ok(team) => match imported_tasks(d.tasks) {
            Err(e) => Err(e),
            Ok(tasks) => Ok(DocView { header: d.header, team, tasks }),
        },
    }
}

/// Once a prefix of a team has an error, so has the whole team.
proof fn lemma_team_error_stays(team: Seq<ExportMemberView>, k: int, e: ValidationError)
    requires
        0 <= k <= team.len(),
        imported_team(team.take(k)) == Err::<Seq<MemberView>, ValidationError>(e),
    ensures
        imported_team(team) == Err::<Seq<MemberView>, ValidationError>(e),
    decreases team.len() - k,
{
    if k == team.len() {
        assert(team.take(k) == team);
    } else {
        assert(team.take(k + 1).drop_last() == team.take(k));
        lemma_team_error_stays(team, k + 1, e);
    }
}

/// Once a prefix of a task list has an error, so has the whole list.
proof fn lemma_tasks_error_stays(tasks: Seq<ExportTaskView>, k: int, e: ValidationError)
    requires
        0 <= k <= tasks.len(),
        imported_tasks(tasks.take(k)) == Err::<Seq<TaskView>, ValidationError>(e),
    ensures
        imported_tasks(tasks) == Err::<Seq<TaskView>, ValidationError>(e),
    decreases tasks.len() - k,
{
    if k == tasks.len() {
        assert(tasks.take(k) == tasks);
    } else {
        assert(tasks.take(k + 1).drop_last() == tasks.take(k));
        lemma_tasks_error_stays(tasks, k + 1, e);
    }
}

/// Adds to `task` each of `props` whose key is a valid key.
pub fn add_valid_properties(task: &mut Task, props: &Vec<(String, String)>)
    ensures
        final(task)@ == (TaskView {
            properties: old(task)@.properties + valid_properties(pair_views(props@)),
            ..old(task)@
        }),
{
    let ghost all = pair_views(props@);
    let ghost start = task@;
    let ghost keep = |p: PropertyView| valid_key(p.key);
    let mut i: usize = 0;
    proof {
        reveal(Seq::filter);
        assert(all.take(0).filter(keep) == Seq::<PropertyView>::empty());
        assert(start.properties + Seq::<PropertyView>::empty() == start.properties);
    }
    while i < props.len()
        invariant
            all == pair_views(props@),
            keep == (|p: PropertyView| valid_key(p.key)),
            i <= props.len(),
            task@ == (TaskView {
                properties: start.properties + all.take(i as int).filter(keep),
                ..start
            }),
        decreases props.len() - i,
    {
        proof {
            reveal(Seq::filter);
        }
        assert(all.take(i + 1).drop_last() == all.take(i as int));
        assert(all.take(i + 1).last() == all[i as int]);
        let ghost before = task@.properties;
        match PropertyKey::new(props[i].0.as_str()) {
            Ok(key) => {
                proof {
                    crate::domain::property::lemma_key_error_iff_invalid(props[i as int].0@);
                }
                task.add_property(key, props[i].1.clone());
                assert(task@.properties == start.properties + all.take(i + 1).filter(keep));
            },
            Err(_) => {
                proof {
                    crate::domain::property::lemma_key_error_iff_invalid(props[i as int].0@);
                }
            },
        }
        i += 1;
    }
    assert(all.take(i as int) == all);
}

fn merge_properties(task: &Task) -> (r: Vec<(String, String)>)
    ensures
        pair_views(r@) == merged(task@.properties),
{
    let ghost props = task@.properties;
    let mut out: Vec<(String, String)> = Vec::new();
    let mut i: usize = 0;
    assert(props.take(0) == Seq::<PropertyView>::empty());
    assert(pair_views(out@) == Seq::<PropertyView>::empty());
    while i < task.properties.len()
        invariant
            props == property_views(task.properties@),
            i <= task.properties.len(),
            pair_views(out@) == merged(props.take(i as int)),
        decreases task.properties.len() - i,
    {
        assert(props.take(i + 1).drop_last() == props.take(i as int));
        assert(props.take(i + 1).last() == task.properties[i as int]@);
        let ghost before = pair_views(out@);
        let key = task.properties[i].key.as_str();
        let value = task.properties[i].value.clone();
        let k = find_pair(&out, key);
        if k < out.len() {
            out[k] = (key.to_owned(), value);
            assert(pair_views(out@) == before.update(
                k as int,
                PropertyView { key: key@, value: value@ },
            ));
        } else {
            out.push((key.to_owned(), value));
            assert(pair_views(out@) == before.push(PropertyView { key: key@, value: value@ }));
        }
        i += 1;
    }
    assert(props.take(i as int) == props);
    out
}

fn find_pair(pairs: &Vec<(String, String)>, key: &str) -> (i: usize)
    ensures
        i == key_index(pair_views(pairs@), key@),
        i <= pairs.len(),
{
    let ghost props = pair_views(pairs@);
    let mut i: usize = 0;
    assert(props.skip(0) == props);
    while i < pairs.len()
        invariant
            props == pair_views(pairs@),
            i <= pairs.len(),
            key_index(props, key@) == i + key_index(props.skip(i as int), key@),
        decreases pairs.len() - i,
    {
        assert(props.skip(i as int)[0] == props[i as int]);
        if crate::text::str_eq(pairs[i].0.as_str(), key) {
            return i;
        }
        assert(props.skip(i as int).skip(1) == props.skip(i + 1));
        i += 1;
    }
    i
}

impl ExportTeamMember {
    /// The member that this record stands for, unless its address is refused.
    pub fn to_member(&self) -> (r: Result<TeamMember, ValidationError>)
        ensures
            match r {
                Ok(m) => imported_member(self@) == Ok::<MemberView, ValidationError>(m@),
                Err(e) => imported_member(self@) == Err::<MemberView, ValidationError>(e),
            },
    {
        let email = match Email::new(self.email.as_str()) {
            Ok(email) => email,
            Err(e) => {
                return Err(e);
            },
        };
        let mut member = TeamMember::new(self.name.clone(), email);
        match &self.role {
            Some(role) => {
                member.set_role(role.clone());
            },
            None => {},
        }
        Ok(member)
    }
}

impl ExportTask {
    /// The task that this record stands for, unless its identifier is zero.
    /// Properties whose key is not a valid key are dropped.
    pub fn to_task(&self) -> (r: Result<Task, ValidationError>)
        ensures
            match r {
                Ok(t) => imported_task(self@) == Ok::<TaskView, ValidationError>(t@),
                Err(e) => imported_task(self@) == Err::<TaskView, ValidationError>(e),
            },
    {
        let id = match TaskId::new(self.id) {
            Ok(id) => id,
            Err(e) => {
                return Err(e);
            },
        };
        let task_type = TaskType::parse(self.task_type.as_str());
        let mut task = Task::new(id, task_type, self.subject.clone());
        task.set_body(self.body.clone());
        add_valid_properties(&mut task, &self.properties);
        assert(Seq::<PropertyView>::empty() + valid_properties(pair_views(self.properties@))
            == valid_properties(pair_views(self.properties@)));
        Ok(task)
    }
}

impl ExportDoc {
    /// The record of a document.
    pub fn from(doc: &FrumpDoc) -> (r: ExportDoc)
        ensures
            r@ == exported(doc@),
    {
        let members = doc.team.members();
        let mut team: Vec<ExportTeamMember> = Vec::new();
        let mut i: usize = 0;
        while i < members.len()
            invariant
                member_views(members@) == doc@.team,
                i <= members.len(),
                team@.len() == i,
                forall|j: int| 0 <= j < i ==> (#[trigger] team@[j])@ == exported_member(doc@.team[j]),
            decreases members.len() - i,
        {
            let m = &members[i];
            assert(doc@.team[i as int] == m@);
            let role = match &m.role {
                Some(r) => Some(r.clone()),
                None => None,
            };
            team.push(
                ExportTeamMember { name: m.name.clone(), email: m.email.to_string(), role },
            );
            i += 1;
        }
        let list = doc.tasks.tasks();
        let mut tasks: Vec<ExportTask> = Vec::new();
        let mut i: usize = 0;
        while i < list.len()
            invariant
                task_views(list@) == doc@.tasks,
                i <= list.len(),
                tasks@.len() == i,
                forall|j: int| 0 <= j < i ==> (#[trigger] tasks@[j])@ == exported_task(doc@.tasks[j]),
            decreases list.len() - i,
        {
            let t = &list[i];
            assert(doc@.tasks[i as int] == t@);
            tasks.push(
                ExportTask {
                    id: t.id.value(),
                    task_type: t.task_type.to_string(),
                    subject: t.subject.clone(),
                    body: t.body.clone(),
                    properties: merge_properties(t),
                },
            );
            i += 1;
        }
        let r = ExportDoc { header: doc.header.clone(), team, tasks };
        assert(r@.team == exported(doc@).team);
        assert(r@.tasks == exported(doc@).tasks);
        r
    }

    /// The document that this record stands for. Every address and every
    /// identifier is validated again; the first one refused, the team's
    /// before the tasks', is the error.
    pub fn to_frump_doc(&self) -> (r: Result<FrumpDoc, ValidationError>)
        ensures
            match r {
                Ok(d) => imported(self@) == Ok::<DocView, ValidationError>(d@),
                Err(e) => imported(self@) == Err::<DocView, ValidationError>(e),
            },
    {
        let ghost team = self@.team;
        let mut members: Vec<TeamMember> = Vec::new();
        let mut i: usize = 0;
        assert(team.take(0) == Seq::<ExportMemberView>::empty());
        assert(member_views(members@) == Seq::<MemberView>::empty());
        while i < self.team.len()
            invariant
                team == export_member_views(self.team@),
                i <= self.team.len(),
                imported_team(team.take(i as int)) == Ok::<Seq<MemberView>, ValidationError>(
                    member_views(members@),
                ),
            decreases self.team.len() - i,
        {
            assert(team.take(i + 1).drop_last() == team.take(i as int));
            assert(team.take(i + 1).last() == self.team[i as int]@);
            let ghost before = member_views(members@);
            match self.team[i].to_member() {
                Ok(m) => {
                    let ghost mv = m@;
                    members.push(m);
                    assert(member_views(members@) == before.push(mv));
                },
                Err(e) => {
                    proof {
                        lemma_team_error_stays(team, i + 1, e);
                    }
                    return Err(e);
                },
            }
            i += 1;
        }
        assert(team.take(i as int) == team);
        let ghost list = self@.tasks;
        let mut tasks: Vec<Task> = Vec::new();
        let mut i: usize = 0;
        assert(list.take(0) == Seq::<ExportTaskView>::empty());
        assert(task_views(tasks@) == Seq::<TaskView>::empty());
        while i < self.tasks.len()
            invariant
                list == export_task_views(self.tasks@),
                list == self@.tasks,
                i <= self.tasks.len(),
                imported_team(self@.team) is Ok,
                imported_tasks(list.take(i as int)) == Ok::<Seq<TaskView>, ValidationError>(
                    task_views(tasks@),
                ),
            decreases self.tasks.len() - i,
        {
            assert(list.take(i + 1).drop_last() == list.take(i as int));
            assert(list.take(i + 1).last() == self.tasks[i as int]@);
            let ghost before = task_views(tasks@);
            match self.tasks[i].to_task() {
                Ok(t) => {
                    let ghost tv = t@;
                    tasks.push(t);
                    assert(task_views(tasks@) == before.push(tv));
                },
                Err(e) => {
                    proof {
                        lemma_tasks_error_stays(list, i + 1, e);
                    }
                    return Err(e);
                },
            }
            i += 1;
        }
        assert(list.take(i as int) == list);
        Ok(FrumpDoc::new(self.header.clone(), Team::new(members), TaskCollection::new(tasks)))
    }
}

/// The mathematical value of a row of the task table.
pub struct CsvTaskView {
    pub id: nat,
    pub task_type: Seq<char>,
    pub subject: Seq<char>,
    pub body: Seq<char>,
    pub status: Seq<char>,
    pub assignee: Seq<char>,
    pub tags: Seq<char>,
}

/// A task as a row of a table: a property that the task lacks is empty.
#[derive(Debug, PartialEq, Eq)]
pub struct CsvTask {
    pub id: u32,
    pub task_type: String,
    pub subject: String,
    pub body: String,
    pub status: String,
    pub assignee: String,
    pub tags: String,
}

impl View for CsvTask {
    type V = CsvTaskView;

    open spec fn view(&self) -> CsvTaskView {
        CsvTaskView {
            id: self.id as nat,
            task_type: self.task_type@,
            subject: self.subject@,
            body: self.body@,
            status: self.status@,
            assignee: self.assignee@,
            tags: self.tags@,
        }
    }
}

/// The value of a property, or the empty text if the task lacks it.
pub open spec fn value_or_empty(props: Seq<PropertyView>, key: Seq<char>) -> Seq<char> {
    match lookup(props, key) {
        Some(v) => v,
        None => Seq::empty(),
    }
}

/// The row of a task.
pub open spec fn csv_row(t: TaskView) -> CsvTaskView {
    CsvTaskView {
        id: t.id,
        task_type: token_of_type(t.task_type),
        subject: t.subject,
        body: t.body,
        status: value_or_empty(t.properties, "Status"@),
        assignee: value_or_empty(t.properties, "Assigned To"@),
        tags: value_or_empty(t.properties, "Tags"@),
    }
}

fn owned_or_empty(value: Option<&str>) -> (r: String)
    ensures
        r@ == match value {
            Some(v) => v@,
            None => Seq::<char>::empty(),
        },
{
    match value {
        Some(v) => v.to_owned(),
        None => String::new(),
    }
}

/// The rows of the task table of a document, one for each task, in order.
pub fn csv_records(doc: &FrumpDoc) -> (r: Vec<CsvTask>)
    ensures
        r@.len() == doc@.tasks.len(),
        forall|i: int| 0 <= i < r@.len() ==> (#[trigger] r@[i])@ == csv_row(doc@.tasks[i]),
{
    let list = doc.tasks.tasks();
    let mut rows: Vec<CsvTask> = Vec::new();
    let mut i: usize = 0;
    while i < list.len()
        invariant
            task_views(list@) == doc@.tasks,
            i <= list.len(),
            rows@.len() == i,
            forall|j: int| 0 <= j < i ==> (#[trigger] rows@[j])@ == csv_row(doc@.tasks[j]),
        decreases list.len() - i,
    {
        let t = &list[i];
        assert(doc@.tasks[i as int] == t@);
        let tags_key = PropertyKey::tags();
        rows.push(
            CsvTask {
                id: t.id.value(),
                task_type: t.task_type.to_string(),
                subject: t.subject.clone(),
                body: t.body.clone(),
                status: owned_or_empty(t.status()),
                assignee: owned_or_empty(t.assignee()),
                tags: owned_or_empty(t.get_property(&tags_key)),
            },
        );
        i += 1;
    }
    rows
}

// ---------------------------------------------------------------------------
// Exporting and importing again
// ---------------------------------------------------------------------------

/// Whether no two properties share a key.
pub open spec fn distinct_keys(props: Seq<PropertyView>) -> bool {
    forall|i: int, j: int| 0 <= i < j < props.len() ==> props[i].key != props[j].key
}

/// Whether a member comes back from its record as it is: its address is
/// trimmed and valid.
pub open spec fn member_survives(m: MemberView) -> bool {
    email_error(m.email) is None && trim(m.email) == m.email
}

/// Whether a task comes back from its record as it is: its identifier is
/// not zero, its type is the type of its token, and its keys are valid and
/// distinct.
pub open spec fn task_survives(t: TaskView) -> bool {
    &&& t.id != 0
    &&& type_of_token(token_of_type(t.task_type)) == t.task_type
    &&& distinct_keys(t.properties)
    &&& forall|i: int| 0 <= i < t.properties.len() ==> valid_key((#[trigger] t.properties[i]).key)
}

/// Whether a document comes back from its record as it is.
pub open spec fn survives_export(d: DocView) -> bool {
    &&& forall|i: int| 0 <= i < d.team.len() ==> member_survives(#[trigger] d.team[i])
    &&& forall|i: int| 0 <= i < d.tasks.len() ==> task_survives(#[trigger] d.tasks[i])
}

/// Properties with distinct keys are merged into themselves.
pub proof fn lemma_merged_distinct(props: Seq<PropertyView>)
    requires
        distinct_keys(props),
    ensures
        merged(props) == props,
    decreases props.len(),
{
    if props.len() > 0 {
        let init = props.drop_last();
        let last = props.last();
        assert(distinct_keys(init)) by {
            assert forall|i: int, j: int| 0 <= i < j < init.len() implies init[i].key
                != init[j].key by {
                assert(init[i] == props[i] && init[j] == props[j]);
            }
        }
        lemma_merged_distinct(init);
        crate::domain::task::lemma_key_index(init, last.key);
        let k = key_index(init, last.key);
        if k < init.len() {
            assert(init[k] == props[k]);
            assert(props[k].key != props[props.len() - 1].key);
        }
        assert(init.push(PropertyView { key: last.key, value: last.value }) == props);
    }
}

/// Properties with valid keys are all kept.
pub proof fn lemma_valid_properties_kept(props: Seq<PropertyView>)
    requires
        forall|i: int| 0 <= i < props.len() ==> valid_key((#[trigger] props[i]).key),
    ensures
        valid_properties(props) == props,
    decreases props.len(),
{
    reveal(Seq::filter);
    if props.len() > 0 {
        let init = props.drop_last();
        assert forall|i: int| 0 <= i < init.len() implies valid_key((#[trigger] init[i]).key) by {
            assert(init[i] == props[i]);
        }
        lemma_valid_properties_kept(init);
        assert(valid_key(props[props.len() - 1].key));
        assert(init.push(props.last()) == props);
    }
}

/// The record of a task that survives gives the task back.
pub proof fn lemma_task_survives(t: TaskView)
    requires
        task_survives(t),
    ensures
        imported_task(exported_task(t)) == Ok::<TaskView, ValidationError>(t),
{
    lemma_merged_distinct(t.properties);
    lemma_valid_properties_kept(t.properties);
}

/// Exporting and importing again: the record of a document that survives
/// gives the document back.
pub proof fn lemma_export_import(d: DocView)
    requires
        survives_export(d),
    ensures
        imported(exported(d)) == Ok::<DocView, ValidationError>(d),
{
    let record = exported(d);
    lemma_team_survives(d.team);
    lemma_tasks_survive(d.tasks);
    assert(record.team == Seq::new(d.team.len(), |i: int| exported_member(d.team[i])));
    assert(record.tasks == Seq::new(d.tasks.len(), |i: int| exported_task(d.tasks[i])));
}

proof fn lemma_team_survives(team: Seq<MemberView>)
    requires
        forall|i: int| 0 <= i < team.len() ==> member_survives(#[trigger] team[i]),
    ensures
        imported_team(Seq::new(team.len(), |i: int| exported_member(team[i]))) == Ok::<
            Seq<MemberView>,
            ValidationError,
        >(team),
    decreases team.len(),
{
    let records = Seq::new(team.len(), |i: int| exported_member(team[i]));
    if team.len() > 0 {
        let init = team.drop_last();
        assert forall|i: int| 0 <= i < init.len() implies member_survives(#[trigger] init[i]) by {
            assert(init[i] == team[i]);
        }
        lemma_team_survives(init);
        assert(records.drop_last() == Seq::new(init.len(), |i: int| exported_member(init[i])));
        assert(records.last() == exported_member(team.last()));
        assert(member_survives(team[team.len() - 1]));
        let m = team.last();
        assert(MemberView { name: m.name, email: trim(m.email), role: m.role } == m);
        assert(init.push(m) == team);
    } else {
        assert(team == Seq::<MemberView>::empty());
    }
}

proof fn lemma_tasks_survive(tasks: Seq<TaskView>)
    requires
        forall|i: int| 0 <= i < tasks.len() ==> task_survives(#[trigger] tasks[i]),
    ensures
        imported_tasks(Seq::new(tasks.len(), |i: int| exported_task(tasks[i]))) == Ok::<
            Seq<TaskView>,
            ValidationError,
        >(tasks),
    decreases tasks.len(),
{
    let records = Seq::new(tasks.len(), |i: int| exported_task(tasks[i]));
    if tasks.len() > 0 {
        let init = tasks.drop_last();
        assert forall|i: int| 0 <= i < init.len() implies task_survives(#[trigger] init[i]) by {
            assert(init[i] == tasks[i]);
        }
        lemma_tasks_survive(init);
        assert(records.drop_last() == Seq::new(init.len(), |i: int| exported_task(init[i])));
        assert(records.last() == exported_task(tasks.last()));
        assert(task_survives(tasks[tasks.len() - 1]));
        lemma_task_survives(tasks.last());
        assert(init.push(tasks.last()) == tasks);
    } else {
        assert(tasks == Seq::<TaskView>::empty());
    }
}

} // verus!
