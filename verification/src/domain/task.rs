//! Tasks and their property lists.

use super::property::{Property, PropertyKey, PropertyView};
use super::task_id::TaskId;
use super::task_type::{TaskType, TypeView};
use crate::text::{chars_of, find_char, slice, split_on, string_of, trim, trim_chars};
use vstd::prelude::*;

verus! {

/// The mathematical value of a task.
pub struct TaskView {
    pub id: nat,
    pub task_type: TypeView,
    pub subject: Seq<char>,
    pub body: Seq<char>,
    pub properties: Seq<PropertyView>,
}

/// The values of a sequence of properties.
pub open spec fn property_views(s: Seq<Property>) -> Seq<PropertyView> {
    Seq::new(s.len(), |i: int| s[i]@)
}

/// The index of the first property with key `key`, or the number of
/// properties if there is none.
pub open spec fn key_index(props: Seq<PropertyView>, key: Seq<char>) -> int
    decreases props.len(),
{
    if props.len() == 0 || props[0].key == key {
        0
    } else {
        1 + key_index(props.skip(1), key)
    }
}

/// `key_index` lies within the list, finds the key, and no property before
/// it has the key.
pub proof fn lemma_key_index(props: Seq<PropertyView>, key: Seq<char>)
    ensures
        0 <= key_index(props, key) <= props.len(),
        key_index(props, key) < props.len() ==> props[key_index(props, key)].key == key,
        forall|j: int| 0 <= j < key_index(props, key) ==> props[j].key != key,
    decreases props.len(),
{
    if props.len() == 0 || props[0].key == key {
    } else {
        lemma_key_index(props.skip(1), key);
        assert forall|j: int| 0 <= j < key_index(props, key) implies props[j].key != key by {
            if j > 0 {
                assert(props.skip(1)[j - 1] == props[j]);
            }
        }
    }
}

/// The value of the first property with key `key`.
pub open spec fn lookup(props: Seq<PropertyView>, key: Seq<char>) -> Option<Seq<char>> {
    let i = key_index(props, key);
    if 0 <= i < props.len() {
        Some(props[i].value)
    } else {
        None
    }
}

/// The list in which `key` has the value `value`: the first property with
/// that key is updated in place, or, if there is none, one is added at the end.
pub open spec fn stored(props: Seq<PropertyView>, key: Seq<char>, value: Seq<char>) -> Seq<
    PropertyView,
> {
    let i = key_index(props, key);
    if 0 <= i < props.len() {
        props.update(i, PropertyView { key, value })
    } else {
        props.push(PropertyView { key, value })
    }
}

/// The list without any property with key `key`.
pub open spec fn without(props: Seq<PropertyView>, key: Seq<char>) -> Seq<PropertyView> {
    props.filter(|p: PropertyView| p.key != key)
}

/// The tags that a `Tags` value lists: its pieces between commas, trimmed.
pub open spec fn tags_of(s: Seq<char>) -> Seq<Seq<char>> {
    split_on(s, ',').map_values(|t: Seq<char>| trim(t))
}

/// The views of a sequence of strings.
pub open spec fn string_views(v: Seq<String>) -> Seq<Seq<char>> {
    Seq::new(v.len(), |i: int| v[i]@)
}

/// A task: an identifier, a type, a one-line subject, a free-form body, and
/// an ordered list of properties, in which a key may occur more than once.
#[derive(Debug)]
pub struct Task {
    pub id: TaskId,
    pub task_type: TaskType,
    pub subject: String,
    pub body: String,
    pub properties: Vec<Property>,
}

impl View for Task {
    type V = TaskView;

    open spec fn view(&self) -> TaskView {
        TaskView {
            id: self.id@,
            task_type: self.task_type@,
            subject: self.subject@,
            body: self.body@,
            properties: property_views(self.properties@),
        }
    }
}

impl Clone for Task {
    fn clone(&self) -> (r: Self)
        ensures
            r@ == self@,
    {
        let mut properties: Vec<Property> = Vec::new();
        let mut i: usize = 0;
        while i < self.properties.len()
            invariant
                i <= self.properties.len(),
                property_views(properties@) == property_views(self.properties@).take(i as int),
            decreases self.properties.len() - i,
        {
            let ghost before = property_views(properties@);
            properties.push(self.properties[i].clone());
            assert(property_views(properties@) == before.push(self.properties[i as int]@));
            i += 1;
        }
        assert(property_views(self.properties@).take(i as int) == property_views(
            self.properties@,
        ));
        Task {
            id: self.id,
            task_type: self.task_type.clone(),
            subject: self.subject.clone(),
            body: self.body.clone(),
            properties,
        }
    }
}

impl Task {
    /// A task with an empty body and no properties.
    pub fn new(id: TaskId, task_type: TaskType, subject: String) -> (r: Task)
        ensures
            r@ == (TaskView {
                id: id@,
                task_type: task_type@,
                subject: subject@,
                body: Seq::empty(),
                properties: Seq::empty(),
            }),
    {
        let r = Task { id, task_type, subject, body: String::new(), properties: Vec::new() };
        assert(r@.properties == Seq::<PropertyView>::empty());
        r
    }

    /// The same task with the body `body`.
    pub fn with_body(self, body: String) -> (r: Task)
        ensures
            r@ == (TaskView { body: body@, ..self@ }),
    {
        Task {
            id: self.id,
            task_type: self.task_type,
            subject: self.subject,
            body,
            properties: self.properties,
        }
    }

    /// Replaces the body.
    pub fn set_body(&mut self, body: String)
        ensures
            final(self)@ == (TaskView { body: body@, ..old(self)@ }),
    {
        self.body = body;
    }

    /// Adds a property at the end of the list, whether or not the key is
    /// already there.
    pub fn add_property(&mut self, key: PropertyKey, value: String)
        ensures
            final(self)@ == (TaskView {
                properties: old(self)@.properties.push(PropertyView { key: key@, value: value@ }),
                ..old(self)@
            }),
    {
        self.properties.push(Property::new(key, value));
        assert(property_views(self.properties@) == old(self)@.properties.push(
            PropertyView { key: key@, value: value@ },
        ));
    }

    /// The position of the first property with key `key`.
    fn find_key(&self, key: &PropertyKey) -> (i: usize)
        ensures
            i == key_index(self@.properties, key@),
            i <= self.properties.len(),
    {
        let ghost props = self@.properties;
        let mut i: usize = 0;
        assert(props.skip(0) == props);
        while i < self.properties.len()
            invariant
                props == self@.properties,
                i <= self.properties.len(),
                key_index(props, key@) == i + key_index(props.skip(i as int), key@),
            decreases self.properties.len() - i,
        {
            assert(props.skip(i as int)[0] == self.properties[i as int]@);
            if self.properties[i].key.same(key) {
                return i;
            }
            assert(props.skip(i as int).skip(1) == props.skip(i + 1));
            i += 1;
        }
        i
    }

    /// The value of the first property with key `key`.
    pub fn get_property(&self, key: &PropertyKey) -> (r: Option<&str>)
        ensures
            match r {
                Some(v) => lookup(self@.properties, key@) == Some(v@),
                None => lookup(self@.properties, key@) is None,
            },
    {
        let i = self.find_key(key);
        if i < self.properties.len() {
            Some(self.properties[i].value.as_str())
        } else {
            None
        }
    }

    /// Gives `key` the value `value`: updates the first property with that
    /// key, or adds one at the end if there is none.
    pub fn set_property(&mut self, key: PropertyKey, value: String)
        ensures
            final(self)@ == (TaskView {
                properties: stored(old(self)@.properties, key@, value@),
                ..old(self)@
            }),
    {
        let i = self.find_key(&key);
        if i < self.properties.len() {
            let ghost before = property_views(self.properties@);
            self.properties[i] = Property::new(key, value);
            assert(property_views(self.properties@) == before.update(
                i as int,
                PropertyView { key: key@, value: value@ },
            ));
        } else {
            self.add_property(key, value);
        }
    }

    /// Removes every property with key `key`.
    pub fn remove_property(&mut self, key: &PropertyKey)
        ensures
            final(self)@ == (TaskView {
                properties: without(old(self)@.properties, key@),
                ..old(self)@
            }),
    {
        let ghost props = self@.properties;
        let ghost keep = |p: PropertyView| p.key != key@;
        let mut kept: Vec<Property> = Vec::new();
        let mut i: usize = 0;
        proof {
            reveal(Seq::filter);
        }
        while i < self.properties.len()
            invariant
                props == property_views(self.properties@),
                keep == (|p: PropertyView| p.key != key@),
                i <= self.properties.len(),
                property_views(kept@) == props.take(i as int).filter(keep),
            decreases self.properties.len() - i,
        {
            proof {
                reveal(Seq::filter);
            }
            assert(props.take(i + 1).drop_last() == props.take(i as int));
            let ghost before = property_views(kept@);
            if !self.properties[i].key.same(key) {
                kept.push(self.properties[i].clone());
                assert(property_views(kept@) == before.push(self.properties[i as int]@));
            }
            i += 1;
        }
        assert(props.take(i as int) == props);
        self.properties = kept;
    }

    /// The value of `Assigned To`.
    pub fn assignee(&self) -> (r: Option<&str>)
        ensures
            match r {
                Some(v) => lookup(self@.properties, "Assigned To"@) == Some(v@),
                None => lookup(self@.properties, "Assigned To"@) is None,
            },
    {
        let key = PropertyKey::assigned_to();
        self.get_property(&key)
    }

    /// Gives `Assigned To` the value `assignee`, as `set_property` does.
    pub fn set_assignee(&mut self, assignee: String)
        ensures
            final(self)@ == (TaskView {
                properties: stored(old(self)@.properties, "Assigned To"@, assignee@),
                ..old(self)@
            }),
    {
        self.set_property(PropertyKey::assigned_to(), assignee);
    }

    /// The value of `Status`.
    pub fn status(&self) -> (r: Option<&str>)
        ensures
            match r {
                Some(v) => lookup(self@.properties, "Status"@) == Some(v@),
                None => lookup(self@.properties, "Status"@) is None,
            },
    {
        let key = PropertyKey::status();
        self.get_property(&key)
    }

    /// Gives `Status` the value `status`, as `set_property` does.
    pub fn set_status(&mut self, status: String)
        ensures
            final(self)@ == (TaskView {
                properties: stored(old(self)@.properties, "Status"@, status@),
                ..old(self)@
            }),
    {
        self.set_property(PropertyKey::status(), status);
    }

    /// The tags that the value of `Tags` lists, separated by commas.
    pub fn tags(&self) -> (r: Option<Vec<String>>)
        ensures
            match r {
                Some(v) => lookup(self@.properties, "Tags"@) is Some && string_views(v@) == tags_of(
                    lookup(self@.properties, "Tags"@)->Some_0,
                ),
                None => lookup(self@.properties, "Tags"@) is None,
            },
    {
        let key = PropertyKey::tags();
        match self.get_property(&key) {
            Some(value) => Some(split_tags(value)),
            None => None,
        }
    }
}

/// Splits a list of tags at its commas and trims each tag.
pub fn split_tags(value: &str) -> (r: Vec<String>)
    ensures
        string_views(r@) == tags_of(value@),
{
    let s = chars_of(value);
    let mut tags: Vec<String> = Vec::new();
    let mut start: usize = 0;
    assert(s@.skip(0) == s@);
    loop
        invariant
            start <= s.len(),
            s@ == value@,
            tags_of(s@) == string_views(tags@) + tags_of(s@.skip(start as int)),
        decreases s.len() - start,
    {
        let ghost rest = s@.skip(start as int);
        let ghost before = string_views(tags@);
        let n = find_char(&s, ',', start);
        let piece = slice(&s, start, n);
        let tag = string_of(&trim_chars(&piece));
        assert(piece@ == rest.take(n - start));
        tags.push(tag);
        assert(string_views(tags@) == before.push(trim(rest.take(n - start))));
        if n == s.len() {
            assert(rest.take(n - start) == rest);
            assert(tags_of(rest) == seq![trim(rest)]);
            return tags;
        }
        assert(rest.skip(n - start + 1) == s@.skip(n + 1));
        assert(tags_of(rest) == seq![trim(rest.take(n - start))] + tags_of(
            rest.skip(n - start + 1),
        ));
        start = n + 1;
    }
}

} // verus!
