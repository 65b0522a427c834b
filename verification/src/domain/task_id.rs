//! Task identifiers.

use crate::error::ValidationError;
use crate::text::{decimal, string_of, write_u32};
use vstd::prelude::*;

verus! {

/// The identifier of a task: a positive 32-bit integer.
#[derive(Debug, Clone, Copy, PartialEq, Eq, PartialOrd, Ord, Hash, Structural)]
pub struct TaskId(u32);

impl View for TaskId {
    type V = nat;

    closed spec fn view(&self) -> nat {
        self.0 as nat
    }
}

impl TaskId {
    #[verifier::type_invariant]
    spec fn positive(self) -> bool {
        self.0 >= 1
    }

    /// The identifier `id`, unless `id` is zero.
    pub fn new(id: u32) -> (r: Result<TaskId, ValidationError>)
        ensures
            id == 0 ==> r == Err::<TaskId, ValidationError>(ValidationError::ZeroTaskId),
            id != 0 ==> r is Ok && r->Ok_0@ == id,
    {
        if id == 0 {
            return Err(ValidationError::ZeroTaskId);
        }
        Ok(TaskId(id))
    }

    /// The identifier that follows this one.
    pub fn next(&self) -> (r: TaskId)
        requires
            self@ < u32::MAX,
        ensures
            r@ == self@ + 1,
    {
        TaskId(self.0 + 1)
    }

    /// The identifier as a number, which is never zero.
    pub fn value(&self) -> (r: u32)
        ensures
            r == self@,
            r >= 1,
    {
        proof {
            use_type_invariant(self);
        }
        self.0
    }

    /// The identifier written in base ten.
    pub fn to_string(&self) -> (r: String)
        ensures
            r@ == decimal(self@),
    {
        let digits = write_u32(self.0);
        string_of(&digits)
    }
}

impl From<TaskId> for u32 {
    /// The identifier as a number.
    fn from(id: TaskId) -> (r: u32)
        ensures
            r == id@,
    {
        id.value()
    }
}

impl vstd::std_specs::convert::FromSpecImpl<TaskId> for u32 {
    open spec fn obeys_from_spec() -> bool {
        true
    }

    open spec fn from_spec(id: TaskId) -> u32 {
        id@ as u32
    }
}

} // verus!
