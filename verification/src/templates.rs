//! Task templates: named patterns from which tasks are made.
//!
//! A template carries a subject and a body with placeholders of the form
//! `{name}`. A `TemplateManager` holds the templates of a project, no two
//! under the same name once they were added one by one.

use crate::domain::property::PropertyView;
use crate::domain::task::{Task, TaskView};
use crate::domain::task_id::TaskId;
use crate::domain::task_type::{type_of_token, TaskType};
use crate::export::{add_valid_properties, pair_views, valid_properties};
use crate::text::{chars_of, extend, replace_all, replaced, str_eq, string_of};
use vstd::prelude::*;

verus! {

/// The mathematical value of a template.
pub struct TemplateView {
    pub name: Seq<char>,
    pub task_type: Seq<char>,
    pub subject_template: Seq<char>,
    pub body_template: Seq<char>,
    pub properties: Seq<PropertyView>,
}

/// A pattern for tasks.
#[derive(Debug, PartialEq, Eq)]
pub struct TaskTemplate {
    pub name: String,
    pub task_type: String,
    pub subject_template: String,
    pub body_template: String,
    pub properties: Vec<(String, String)>,
}

impl View for TaskTemplate {
    type V = TemplateView;

    open spec fn view(&self) -> TemplateView {
        TemplateView {
            name: self.name@,
            task_type: self.task_type@,
            subject_template: self.subject_template@,
            body_template: self.body_template@,
            properties: pair_views(self.properties@),
        }
    }
}

impl Clone for TaskTemplate {
    fn clone(&self) -> (r: Self)
        ensures
            r@ == self@,
    {
        let mut properties: Vec<(String, String)> = Vec::new();
        let mut i: usize = 0;
        while i < self.properties.len()
            invariant
                i <= self.properties.len(),
                pair_views(properties@) == pair_views(self.properties@).take(i as int),
            decreases self.properties.len() - i,
        {
            let ghost before = pair_views(properties@);
            properties.push((self.properties[i].0.clone(), self.properties[i].1.clone()));
            assert(pair_views(properties@) == before.push(pair_views(self.properties@)[i as int]));
            i += 1;
        }
        assert(pair_views(self.properties@).take(i as int) == pair_views(self.properties@));
        TaskTemplate {
            name: self.name.clone(),
            task_type: self.task_type.clone(),
            subject_template: self.subject_template.clone(),
            body_template: self.body_template.clone(),
            properties,
        }
    }
}

/// The values of a sequence of templates.
pub open spec fn template_views(s: Seq<TaskTemplate>) -> Seq<TemplateView> {
    Seq::new(s.len(), |i: int| s[i]@)
}

/// The placeholder for `name`: the name in braces.
pub open spec fn placeholder(name: Seq<char>) -> Seq<char> {
    seq!['{'] + name + seq!['}']
}

/// The text with the placeholders filled in: the replacements are applied
/// one after the other, each to the result of those before it.
pub open spec fn filled(text: Seq<char>, replacements: Seq<PropertyView>) -> Seq<char>
    decreases replacements.len(),
{
    if replacements.len() == 0 {
        text
    } else {
        replaced(
            filled(text, replacements.drop_last()),
            placeholder(replacements.last().key),
            replacements.last().value,
        )
    }
}

/// The task that a template gives for an identifier and replacements.
/// Properties of the template whose key is not a valid key are dropped.
pub open spec fn instance(t: TemplateView, id: nat, replacements: Seq<PropertyView>) -> TaskView {
    TaskView {
        id,
        task_type: type_of_token(t.task_type),
        subject: filled(t.subject_template, replacements),
        body: filled(t.body_template, replacements),
        properties: valid_properties(t.properties),
    }
}

/// The index of the first template named `name`, or the number of
/// templates if there is none.
pub open spec fn template_index(templates: Seq<TemplateView>, name: Seq<char>) -> int
    decreases templates.len(),
{
    if templates.len() == 0 || templates[0].name == name {
        0
    } else {
        1 + template_index(templates.skip(1), name)
    }
}

/// `template_index` lies within the templates, finds the name, and no
/// template before it has the name.
pub proof fn lemma_template_index(templates: Seq<TemplateView>, name: Seq<char>)
    ensures
        0 <= template_index(templates, name) <= templates.len(),
        template_index(templates, name) < templates.len() ==> templates[template_index(
            templates,
            name,
        )].name == name,
        forall|j: int| 0 <= j < template_index(templates, name) ==> templates[j].name != name,
    decreases templates.len(),
{
    if templates.len() == 0 || templates[0].name == name {
    } else {
        lemma_template_index(templates.skip(1), name);
        assert forall|j: int| 0 <= j < template_index(templates, name) implies templates[j].name
            != name by {
            if j > 0 {
                assert(templates.skip(1)[j - 1] == templates[j]);
            }
        }
    }
}

/// Whether a template named `name` is among `templates`.
pub open spec fn has_template(templates: Seq<TemplateView>, name: Seq<char>) -> bool {
    template_index(templates, name) < templates.len()
}

/// Why a template operation failed.
#[derive(Debug, Clone, Copy, PartialEq, Eq, Structural)]
pub enum TemplateError {
    /// A template of that name is there already.
    AlreadyExists,
    /// No template has that name.
    NotFound,
}

/// Fills the placeholders of a text.
pub fn fill(text: &str, replacements: &Vec<(String, String)>) -> (r: String)
    ensures
        r@ == filled(text@, pair_views(replacements@)),
{
    let ghost all = pair_views(replacements@);
    let mut current = chars_of(text);
    let mut i: usize = 0;
    assert(all.take(0) == Seq::<PropertyView>::empty());
    while i < replacements.len()
        invariant
            all == pair_views(replacements@),
            i <= replacements.len(),
            current@ == filled(text@, all.take(i as int)),
        decreases replacements.len() - i,
    {
        assert(all.take(i + 1).drop_last() == all.take(i as int));
        assert(all.take(i + 1).last() == all[i as int]);
        let mut pattern: Vec<char> = Vec::new();
        pattern.push('{');
        extend(&mut pattern, &chars_of(replacements[i].0.as_str()));
        pattern.push('}');
        assert(pattern@ == placeholder(replacements[i as int].0@));
        current = replace_all(&current, &pattern, &chars_of(replacements[i].1.as_str()));
        i += 1;
    }
    assert(all.take(i as int) == all);
    string_of(&current)
}

impl TaskTemplate {
    /// Makes a task from the template.
    pub fn instantiate(&self, id: TaskId, replacements: &Vec<(String, String)>) -> (r: Task)
        ensures
            r@ == instance(self@, id@, pair_views(replacements@)),
    {
        let subject = fill(self.subject_template.as_str(), replacements);
        let body = fill(self.body_template.as_str(), replacements);
        let mut task = Task::new(id, TaskType::parse(self.task_type.as_str()), subject);
        task.set_body(body);
        add_valid_properties(&mut task, &self.properties);
        assert(Seq::<PropertyView>::empty() + valid_properties(pair_views(self.properties@))
            == valid_properties(pair_views(self.properties@)));
        task
    }
}

/// The templates of a project.
#[derive(Debug)]
pub struct TemplateManager {
    templates: Vec<TaskTemplate>,
}

impl View for TemplateManager {
    type V = Seq<TemplateView>;

    closed spec fn view(&self) -> Seq<TemplateView> {
        template_views(self.templates@)
    }
}

impl TemplateManager {
    /// A manager without templates.
    pub fn new() -> (r: TemplateManager)
        ensures
            r@ == Seq::<TemplateView>::empty(),
    {
        let r = TemplateManager { templates: Vec::new() };
        assert(r@ == Seq::<TemplateView>::empty());
        r
    }

    /// A manager of the given templates.
    pub fn with_templates(templates: Vec<TaskTemplate>) -> (r: TemplateManager)
        ensures
            r@ == template_views(templates@),
    {
        TemplateManager { templates }
    }

    fn position_of(&self, name: &str) -> (i: usize)
        ensures
            i == template_index(self@, name@),
            i <= self.templates.len(),
            self.templates.len() == self@.len(),
    {
        let ghost all = self@;
        let mut i: usize = 0;
        assert(all.skip(0) == all);
        while i < self.templates.len()
            invariant
                all == self@,
                i <= self.templates.len(),
                template_index(all, name@) == i + template_index(all.skip(i as int), name@),
            decreases self.templates.len() - i,
        {
            assert(all.skip(i as int)[0] == self.templates[i as int]@);
            if str_eq(self.templates[i].name.as_str(), name) {
                return i;
            }
            assert(all.skip(i as int).skip(1) == all.skip(i + 1));
            i += 1;
        }
        i
    }

    /// Adds a template, unless one of its name is there already.
    pub fn add(&mut self, template: TaskTemplate) -> (r: Result<(), TemplateError>)
        ensures
            match r {
                Ok(_) => !has_template(old(self)@, template@.name) && final(self)@ == old(
                    self,
                )@.push(template@),
                Err(e) => e == TemplateError::AlreadyExists && has_template(
                    old(self)@,
                    template@.name,
                ) && final(self)@ == old(self)@,
            },
    {
        if self.position_of(template.name.as_str()) < self.templates.len() {
            return Err(TemplateError::AlreadyExists);
        }
        self.templates.push(template);
        assert(self@ == old(self)@.push(template@));
        Ok(())
    }

    /// The first template named `name`.
    pub fn get(&self, name: &str) -> (r: Result<TaskTemplate, TemplateError>)
        ensures
            match r {
                Ok(t) => has_template(self@, name@) && t@ == self@[template_index(self@, name@)],
                Err(e) => e == TemplateError::NotFound && !has_template(self@, name@),
            },
    {
        let i = self.position_of(name);
        if i < self.templates.len() {
            Ok(self.templates[i].clone())
        } else {
            Err(TemplateError::NotFound)
        }
    }

    /// All templates, in the order in which they were added.
    pub fn list(&self) -> (r: Vec<TaskTemplate>)
        ensures
            template_views(r@) == self@,
    {
        let mut out: Vec<TaskTemplate> = Vec::new();
        let mut i: usize = 0;
        while i < self.templates.len()
            invariant
                i <= self.templates.len(),
                template_views(out@) == self@.take(i as int),
            decreases self.templates.len() - i,
        {
            let ghost before = template_views(out@);
            out.push(self.templates[i].clone());
            assert(template_views(out@) == before.push(self.templates[i as int]@));
            i += 1;
        }
        assert(self@.take(i as int) == self@);
        out
    }

    /// Removes every template named `name`; an error if there is none.
    pub fn remove(&mut self, name: &str) -> (r: Result<(), TemplateError>)
        ensures
            match r {
                Ok(_) => has_template(old(self)@, name@) && final(self)@ == old(self)@.filter(
                    |t: TemplateView| t.name != name@,
                ),
                Err(e) => e == TemplateError::NotFound && !has_template(old(self)@, name@)
                    && final(self)@ == old(self)@,
            },
    {
        if self.position_of(name) >= self.templates.len() {
            return Err(TemplateError::NotFound);
        }
        let ghost all = self@;
        let ghost keep = |t: TemplateView| t.name != name@;
        let mut kept: Vec<TaskTemplate> = Vec::new();
        let mut i: usize = 0;
        proof {
            reveal(Seq::filter);
        }
        while i < self.templates.len()
            invariant
                all == template_views(self.templates@),
                keep == (|t: TemplateView| t.name != name@),
                i <= self.templates.len(),
                template_views(kept@) == all.take(i as int).filter(keep),
            decreases self.templates.len() - i,
        {
            proof {
                reveal(Seq::filter);
            }
            assert(all.take(i + 1).drop_last() == all.take(i as int));
            let ghost before = template_views(kept@);
            if !str_eq(self.templates[i].name.as_str(), name) {
                kept.push(self.templates[i].clone());
                assert(template_views(kept@) == before.push(self.templates[i as int]@));
            }
            i += 1;
        }
        assert(all.take(i as int) == all);
        self.templates = kept;
        Ok(())
    }

    /// Makes a task from the first template named `template_name`.
    pub fn instantiate(
        &self,
        template_name: &str,
        id: TaskId,
        replacements: &Vec<(String, String)>,
    ) -> (r: Result<Task, TemplateError>)
        ensures
            match r {
                Ok(t) => has_template(self@, template_name@) && t@ == instance(
                    self@[template_index(self@, template_name@)],
                    id@,
                    pair_views(replacements@),
                ),
                Err(e) => e == TemplateError::NotFound && !has_template(self@, template_name@),
            },
    {
        let i = self.position_of(template_name);
        if i < self.templates.len() {
            Ok(self.templates[i].instantiate(id, replacements))
        } else {
            Err(TemplateError::NotFound)
        }
    }
}

} // verus!
