//! The validated domain model: tasks, their properties, and the team.

pub mod document;
pub mod property;
pub mod task;
pub mod task_id;
pub mod task_type;
pub mod team;

pub use property::{Property, PropertyKey, PropertyView};
pub use task_id::TaskId;
pub use task_type::{TaskType, TypeView};
pub use team::{Email, MemberView, Team, TeamMember};
pub use task::{Task, TaskView};
pub use document::{DocView, FrumpDoc, TaskCollection};
