//! Task types.

use crate::text::str_eq;
use vstd::prelude::*;
use vstd::string::StringExecFns;

verus! {

/// The kind of a task: one of four common kinds, or any other token.
#[derive(Debug, PartialEq, Eq)]
pub enum TaskType {
    Task,
    Bug,
    Issue,
    Feature,
    Custom(String),
}

/// The mathematical value of a task type.
pub enum TypeView {
    Task,
    Bug,
    Issue,
    Feature,
    Custom(Seq<char>),
}

/// The type that a token stands for. Every token stands for one.
pub open spec fn type_of_token(s: Seq<char>) -> TypeView {
    if s == "Task"@ {
        TypeView::Task
    } else if s == "Bug"@ {
        TypeView::Bug
    } else if s == "Issue"@ {
        TypeView::Issue
    } else if s == "Feature"@ {
        TypeView::Feature
    } else {
        TypeView::Custom(s)
    }
}

/// The token by which a type is written.
pub open spec fn token_of_type(t: TypeView) -> Seq<char> {
    match t {
        TypeView::Task => "Task"@,
        TypeView::Bug => "Bug"@,
        TypeView::Issue => "Issue"@,
        TypeView::Feature => "Feature"@,
        TypeView::Custom(s) => s,
    }
}

/// Reading the token of a type that was read from a token gives that type.
pub proof fn lemma_type_token_round_trip(s: Seq<char>)
    ensures
        token_of_type(type_of_token(s)) == s,
        type_of_token(token_of_type(type_of_token(s))) == type_of_token(s),
{
}

impl View for TaskType {
    type V = TypeView;

    open spec fn view(&self) -> TypeView {
        match self {
            TaskType::Task => TypeView::Task,
            TaskType::Bug => TypeView::Bug,
            TaskType::Issue => TypeView::Issue,
            TaskType::Feature => TypeView::Feature,
            TaskType::Custom(s) => TypeView::Custom(s@),
        }
    }
}

impl Clone for TaskType {
    fn clone(&self) -> (r: Self)
        ensures
            r == *self,
    {
        match self {
            TaskType::Task => TaskType::Task,
            TaskType::Bug => TaskType::Bug,
            TaskType::Issue => TaskType::Issue,
            TaskType::Feature => TaskType::Feature,
            TaskType::Custom(s) => TaskType::Custom(s.clone()),
        }
    }
}

impl TaskType {
    /// The type that the token `s` stands for; a token that names none of the
    /// four common kinds is kept as a custom type.
    pub fn parse(s: &str) -> (r: TaskType)
        ensures
            r@ == type_of_token(s@),
    {
        if str_eq(s, "Task") {
            TaskType::Task
        } else if str_eq(s, "Bug") {
            TaskType::Bug
        } else if str_eq(s, "Issue") {
            TaskType::Issue
        } else if str_eq(s, "Feature") {
            TaskType::Feature
        } else {
            TaskType::Custom(String::from_str(s))
        }
    }

    /// The token by which the type is written.
    pub fn as_str(&self) -> (r: &str)
        ensures
            r@ == token_of_type(self@),
    {
        match self {
            TaskType::Task => "Task",
            TaskType::Bug => "Bug",
            TaskType::Issue => "Issue",
            TaskType::Feature => "Feature",
            TaskType::Custom(s) => s.as_str(),
        }
    }

    /// The token by which the type is written, as an owned string.
    pub fn to_string(&self) -> (r: String)
        ensures
            r@ == token_of_type(self@),
    {
        String::from_str(self.as_str())
    }

    /// Whether two types are the same type.
    pub fn same(&self, other: &TaskType) -> (r: bool)
        ensures
            r == (self@ == other@),
    {
        match (self, other) {
            (TaskType::Task, TaskType::Task) => true,
            (TaskType::Bug, TaskType::Bug) => true,
            (TaskType::Issue, TaskType::Issue) => true,
            (TaskType::Feature, TaskType::Feature) => true,
            (TaskType::Custom(a), TaskType::Custom(b)) => str_eq(a.as_str(), b.as_str()),
            _ => false,
        }
    }
}

impl From<String> for TaskType {
    /// The type that a token stands for.
    fn from(s: String) -> (r: TaskType)
        ensures
            r@ == type_of_token(s@),
    {
        TaskType::parse(s.as_str())
    }
}

impl vstd::std_specs::convert::FromSpecImpl<String> for TaskType {
    open spec fn obeys_from_spec() -> bool {
        false
    }

    open spec fn from_spec(s: String) -> TaskType {
        arbitrary()
    }
}

impl From<&str> for TaskType {
    /// The type that a token stands for.
    fn from(s: &str) -> (r: TaskType)
        ensures
            r@ == type_of_token(s@),
    {
        TaskType::parse(s)
    }
}

impl vstd::std_specs::convert::FromSpecImpl<&str> for TaskType {
    open spec fn obeys_from_spec() -> bool {
        false
    }

    open spec fn from_spec(s: &str) -> TaskType {
        arbitrary()
    }
}

} // verus!
