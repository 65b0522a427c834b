//! Task tracking in a single plain-text document.
//!
//! A document holds a free-form header, a team, and a list of tasks. This
//! crate offers:
//!
//! - [`domain`]: the validated model of a document: identifiers, property
//!   keys, email addresses, tasks, the team, collections of tasks;
//! - [`parser`]: reading a document from its text and writing it back, with
//!   the grammar stated as functions on sequences of characters and the
//!   proof that what is written reads back;
//! - [`history`]: the timeline of a task, the tasks that were deleted, and
//!   the largest identifier ever used, derived from the revisions of a
//!   document;
//! - [`conflicts`]: finding tasks that share an identifier and giving them
//!   fresh ones;
//! - [`commands`]: listing, searching, counting and changing tasks in bulk;
//! - [`export`] and [`templates`]: plain records for exchange with other
//!   programs, and patterns from which tasks are made;
//! - [`text`]: the primitives on characters that all of this rests on.
//!
//! Every function states what it computes over mathematical values. But
//! for a handful of calls into the standard library and into `chrono`,
//! which are marked where they stand, each is proved to compute it.

pub mod commands;
pub mod conflicts;
pub mod domain;
pub mod error;
pub mod export;
pub mod history;
pub mod parser;
pub mod templates;
pub mod text;

pub use domain::{
    Email, FrumpDoc, Property, PropertyKey, Task, TaskCollection, TaskId, TaskType, Team,
    TeamMember,
};
pub use error::{ParseError, ParseErrorKind, ValidationError};
pub use export::{csv_records, CsvTask, ExportDoc, ExportTask, ExportTeamMember};
pub use history::{ChangeType, FrumpRepo, HistoryError, Revision, TaskCommit, TaskHistory};
pub use templates::{TaskTemplate, TemplateError, TemplateManager};
