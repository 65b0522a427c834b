//! The grammar of a document, as functions on sequences of characters.
//!
//! A document is read line by line. Everything before the first `## Team`
//! or `## Tasks` line is the header. A team section lists one member per
//! bulleted line; a tasks section is a sequence of blocks, each begun by a
//! `### ` heading.

use crate::domain::document::DocView;
use crate::domain::property::{valid_key, PropertyView};
use crate::domain::task::TaskView;
use crate::domain::task_type::{token_of_type, type_of_token, TypeView};
use crate::domain::team::{email_error, MemberView};
use crate::error::{ParseError, ParseErrorKind, ValidationError};
use crate::text::{
    decimal, is_blank, join_lines, lines_of, parse_u32, position, starts_with, strip_prefix,
    strip_prefixes, to_uppercase, trim, trim_start, unlines, whitespace_position,
};
use vstd::prelude::*;

verus! {

// ---------------------------------------------------------------------------
// Kinds of lines
// ---------------------------------------------------------------------------

/// Whether the line opens the team section: trimmed and in uppercase, it
/// begins with `## TEAM`.
pub open spec fn is_team_header(line: Seq<char>) -> bool {
    starts_with(to_uppercase(trim(line)), "## TEAM"@)
}

/// Whether the line opens the tasks section: trimmed and in uppercase, it
/// begins with `## TASKS`.
pub open spec fn is_tasks_header(line: Seq<char>) -> bool {
    starts_with(to_uppercase(trim(line)), "## TASKS"@)
}

/// Whether the line ends the header: it opens one of the two sections.
pub open spec fn ends_header(line: Seq<char>) -> bool {
    is_team_header(line) || is_tasks_header(line)
}

/// Whether the line opens a section of any name: trimmed, it begins with `## `.
pub open spec fn is_section(line: Seq<char>) -> bool {
    starts_with(trim(line), "## "@)
}

/// Whether the line is bulleted: trimmed, it begins with `* ` or `- `.
pub open spec fn is_bulleted(line: Seq<char>) -> bool {
    starts_with(trim(line), "* "@) || starts_with(trim(line), "- "@)
}

/// Whether the line begins a task block: trimmed, it begins with `### `.
pub open spec fn is_task_heading(line: Seq<char>) -> bool {
    starts_with(trim(line), "### "@)
}

/// The index of the first line at or after `from` that ends the header, or
/// the number of lines if there is none.
pub open spec fn header_end(lines: Seq<Seq<char>>, from: int) -> int
    decreases lines.len() - from,
{
    if from < 0 || from >= lines.len() {
        lines.len() as int
    } else if ends_header(lines[from]) {
        from
    } else {
        header_end(lines, from + 1)
    }
}

/// The index of the first line at or after `from` that opens a section, or
/// the number of lines if there is none.
pub open spec fn section_end(lines: Seq<Seq<char>>, from: int) -> int
    decreases lines.len() - from,
{
    if from < 0 || from >= lines.len() {
        lines.len() as int
    } else if is_section(lines[from]) {
        from
    } else {
        section_end(lines, from + 1)
    }
}

/// The index of the first line at or after `from` that begins a task block,
/// or the number of lines if there is none.
pub open spec fn block_end(lines: Seq<Seq<char>>, from: int) -> int
    decreases lines.len() - from,
{
    if from < 0 || from >= lines.len() {
        lines.len() as int
    } else if is_task_heading(lines[from]) {
        from
    } else {
        block_end(lines, from + 1)
    }
}

/// `block_end` lies between `from` and the number of lines.
pub proof fn lemma_block_end(lines: Seq<Seq<char>>, from: int)
    requires
        0 <= from <= lines.len(),
    ensures
        from <= block_end(lines, from) <= lines.len(),
        block_end(lines, from) < lines.len() ==> is_task_heading(lines[block_end(lines, from)]),
        forall|j: int| from <= j < block_end(lines, from) ==> !is_task_heading(lines[j]),
    decreases lines.len() - from,
{
    if from < lines.len() && !is_task_heading(lines[from]) {
        lemma_block_end(lines, from + 1);
    }
}

/// `section_end` lies between `from` and the number of lines.
pub proof fn lemma_section_end(lines: Seq<Seq<char>>, from: int)
    requires
        0 <= from <= lines.len(),
    ensures
        from <= section_end(lines, from) <= lines.len(),
        section_end(lines, from) < lines.len() ==> is_section(lines[section_end(lines, from)]),
        forall|j: int| from <= j < section_end(lines, from) ==> !is_section(lines[j]),
    decreases lines.len() - from,
{
    if from < lines.len() && !is_section(lines[from]) {
        lemma_section_end(lines, from + 1);
    }
}

/// `header_end` lies between `from` and the number of lines.
pub proof fn lemma_header_end(lines: Seq<Seq<char>>, from: int)
    requires
        0 <= from <= lines.len(),
    ensures
        from <= header_end(lines, from) <= lines.len(),
        header_end(lines, from) < lines.len() ==> ends_header(lines[header_end(lines, from)]),
        forall|j: int| from <= j < header_end(lines, from) ==> !ends_header(lines[j]),
    decreases lines.len() - from,
{
    if from < lines.len() && !ends_header(lines[from]) {
        lemma_header_end(lines, from + 1);
    }
}

// ---------------------------------------------------------------------------
// Team members
// ---------------------------------------------------------------------------

/// The role that the text after the closing `>` of a member line gives: what
/// follows a dash, trimmed; none without a dash.
pub open spec fn role_of(rest: Seq<char>) -> Option<Seq<char>> {
    let r = trim(rest);
    if r.len() > 0 && r[0] == '-' {
        Some(trim(r.skip(1)))
    } else {
        None
    }
}

/// A bulleted line without its bullets: every leading `* `, then every
/// leading `- `, is removed.
pub open spec fn unbulleted(line: Seq<char>) -> Seq<char> {
    strip_prefixes(strip_prefixes(line, "* "@), "- "@)
}

/// The member that a trimmed, bulleted line names. The name is what stands
/// before the first `<`, trimmed; the address stands between that `<` and
/// the first `>` after it. A line without such a pair names nobody; a line
/// whose address is refused is an error.
pub open spec fn member_of(line: Seq<char>) -> Result<Option<MemberView>, ValidationError> {
    let s = unbulleted(line);
    let lt = position(s, '<');
    if lt >= s.len() {
        Ok(None)
    } else {
        let after = s.skip(lt + 1);
        let gt = position(after, '>');
        if gt >= after.len() {
            Ok(None)
        } else {
            match email_error(after.take(gt)) {
                Some(e) => Err(e),
                None => Ok(
                    Some(
                        MemberView {
                            name: trim(s.take(lt)),
                            email: trim(after.take(gt)),
                            role: role_of(after.skip(gt + 1)),
                        },
                    ),
                ),
            }
        }
    }
}

/// `first`, followed by what `rest` holds, unless `rest` is an error.
pub open spec fn prepend<T>(first: T, rest: Result<Seq<T>, ParseError>) -> Result<
    Seq<T>,
    ParseError,
> {
    match rest {
        Ok(s) => Ok(seq![first] + s),
        Err(e) => Err(e),
    }
}

/// `done`, followed by what `rest` holds, unless `rest` is an error.
pub open spec fn prepend_all<T>(done: Seq<T>, rest: Result<Seq<T>, ParseError>) -> Result<
    Seq<T>,
    ParseError,
> {
    match rest {
        Ok(s) => Ok(done + s),
        Err(e) => Err(e),
    }
}

/// The members that the lines from `from` up to `to` name, or the first
/// error among them.
pub open spec fn members_from(lines: Seq<Seq<char>>, from: int, to: int) -> Result<
    Seq<MemberView>,
    ParseError,
>
    decreases to - from,
{
    if from < 0 || from >= to || from >= lines.len() {
        Ok(Seq::empty())
    } else if is_bulleted(lines[from]) {
        match member_of(trim(lines[from])) {
            Err(e) => Err(
                ParseError { line: (from + 1) as usize, kind: ParseErrorKind::Invalid(e) },
            ),
            Ok(None) => members_from(lines, from + 1, to),
            Ok(Some(m)) => prepend(m, members_from(lines, from + 1, to)),
        }
    } else {
        members_from(lines, from + 1, to)
    }
}

// ---------------------------------------------------------------------------
// Tasks
// ---------------------------------------------------------------------------

/// What a task heading gives.
pub struct HeadingView {
    pub task_type: TypeView,
    pub id: nat,
    pub subject: Seq<char>,
}

/// The subject that the rest of a heading, after the identifier, gives: that
/// rest without one leading `- `, trimmed.
pub open spec fn subject_of(rest: Seq<char>) -> Seq<char> {
    trim(strip_prefix(rest, "- "@))
}

/// What the first line of a task block gives. Without one leading `### `
/// and the white space that then stands in front, the line is cut at its
/// first two white-space characters into a type, an identifier and a rest.
/// The end of the line is not trimmed before the cut, so that a rest of
/// `- ` gives an empty subject. Fewer than two tokens, an identifier that
/// is no unsigned integer, and an identifier of zero are errors.
pub open spec fn heading_of(line: Seq<char>) -> Result<HeadingView, ParseErrorKind> {
    let h = trim_start(strip_prefix(line, "### "@));
    let type_end = whitespace_position(h);
    if type_end >= h.len() {
        Err(ParseErrorKind::InvalidHeading)
    } else {
        let rest = h.skip(type_end + 1);
        let id_end = whitespace_position(rest);
        match parse_u32(rest.take(id_end)) {
            None => Err(ParseErrorKind::InvalidTaskId),
            Some(n) => if n == 0 {
                Err(ParseErrorKind::Invalid(ValidationError::ZeroTaskId))
            } else {
                Ok(
                    HeadingView {
                        task_type: type_of_token(h.take(type_end)),
                        id: n as nat,
                        subject: if id_end < rest.len() {
                            subject_of(rest.skip(id_end + 1))
                        } else {
                            Seq::empty()
                        },
                    },
                )
            },
        }
    }
}

/// The property that a trimmed line states: a valid key before its first
/// colon, and the value after it, both trimmed. A line without a colon, or
/// with anything but a valid key before it, states none.
pub open spec fn property_of(line: Seq<char>) -> Option<PropertyView> {
    let c = position(line, ':');
    if c >= line.len() {
        None
    } else if valid_key(trim(line.take(c))) {
        Some(PropertyView { key: trim(line.take(c)), value: trim(line.skip(c + 1)) })
    } else {
        None
    }
}

/// Whether the line states a property.
pub open spec fn is_property(line: Seq<char>) -> bool {
    property_of(trim(line)) is Some
}

/// Where a block turns from body to properties: the index of the first line
/// at or after `from` that states a property, or the number of lines if
/// there is none.
pub open spec fn latch(lines: Seq<Seq<char>>, from: int) -> int
    decreases lines.len() - from,
{
    if from < 0 || from >= lines.len() {
        lines.len() as int
    } else if is_property(lines[from]) {
        from
    } else {
        latch(lines, from + 1)
    }
}

/// `latch` lies between `from` and the number of lines.
pub proof fn lemma_latch(lines: Seq<Seq<char>>, from: int)
    requires
        0 <= from <= lines.len(),
    ensures
        from <= latch(lines, from) <= lines.len(),
        latch(lines, from) < lines.len() ==> is_property(lines[latch(lines, from)]),
        forall|j: int| from <= j < latch(lines, from) ==> !is_property(lines[j]),
    decreases lines.len() - from,
{
    if from < lines.len() && !is_property(lines[from]) {
        lemma_latch(lines, from + 1);
    }
}

/// The state of the reader of a task block: in the body, or, from the
/// first line that states a property on, among the properties. There is no
/// way back from the properties to the body.
#[derive(Debug, Clone, Copy, PartialEq, Eq, Structural)]
pub enum Latch {
    Body,
    Property,
}

/// What the reader of a task block does with a line.
#[derive(Debug, Clone, Copy, PartialEq, Eq, Structural)]
pub enum LineUse {
    /// The line joins the body.
    Body,
    /// The line gives a property.
    Property,
    /// The line is left out.
    Dropped,
}

/// The state after a line that does or does not state a property.
pub open spec fn latch_step(state: Latch, states_property: bool) -> Latch {
    if states_property {
        Latch::Property
    } else {
        state
    }
}

/// What is done with a line that does or does not state a property: a
/// property is always taken; any other line joins the body before the
/// latch and is left out after it.
pub open spec fn line_use(state: Latch, states_property: bool) -> LineUse {
    if states_property {
        LineUse::Property
    } else {
        match state {
            Latch::Body => LineUse::Body,
            Latch::Property => LineUse::Dropped,
        }
    }
}

/// The state of the reader before line `at`, having begun in the body at
/// line `from`.
pub open spec fn latch_state(lines: Seq<Seq<char>>, from: int, at: int) -> Latch
    decreases at - from,
{
    if at <= from || at > lines.len() {
        Latch::Body
    } else {
        latch_step(latch_state(lines, from, at - 1), is_property(lines[at - 1]))
    }
}

/// The reader is in the body exactly up to the latch.
pub proof fn lemma_latch_state(lines: Seq<Seq<char>>, from: int, at: int)
    requires
        0 <= from <= at <= lines.len(),
    ensures
        latch_state(lines, from, at) == Latch::Body <==> at <= latch(lines, from),
    decreases at - from,
{
    lemma_latch(lines, from);
    if at > from {
        lemma_latch_state(lines, from, at - 1);
        if at - 1 < latch(lines, from) {
            assert(!is_property(lines[at - 1]));
        }
    }
}

impl Latch {
    /// Takes one line: the state after it, and what is done with it.
    pub fn step(self, states_property: bool) -> (r: (Latch, LineUse))
        ensures
            r.0 == latch_step(self, states_property),
            r.1 == line_use(self, states_property),
    {
        if states_property {
            (Latch::Property, LineUse::Property)
        } else {
            match self {
                Latch::Body => (Latch::Body, LineUse::Body),
                Latch::Property => (Latch::Property, LineUse::Dropped),
            }
        }
    }
}

/// A line as it enters a body: as it is, or empty if it is blank.
pub open spec fn body_line(line: Seq<char>) -> Seq<char> {
    if is_blank(line) {
        Seq::empty()
    } else {
        line
    }
}

/// The lines as they enter a body.
pub open spec fn body_lines(lines: Seq<Seq<char>>) -> Seq<Seq<char>> {
    Seq::new(lines.len(), |i: int| body_line(lines[i]))
}

/// The body that the lines before the latch give: joined, with blank lines
/// kept as empty separators, and trimmed as a whole.
pub open spec fn body_of(lines: Seq<Seq<char>>) -> Seq<char> {
    trim(join_lines(body_lines(lines)))
}

/// The properties that the lines from the latch on give: one for each line
/// that states one; the others are dropped.
pub open spec fn properties_of(lines: Seq<Seq<char>>) -> Seq<PropertyView>
    decreases lines.len(),
{
    if lines.len() == 0 {
        Seq::empty()
    } else {
        let before = properties_of(lines.drop_last());
        match property_of(trim(lines.last())) {
            Some(p) => before.push(p),
            None => before,
        }
    }
}

/// The task that a block gives: its first line is the heading, the lines up
/// to the latch are the body, the lines from the latch on are properties.
pub open spec fn task_of(block: Seq<Seq<char>>) -> Result<TaskView, ParseErrorKind> {
    match heading_of(block[0]) {
        Err(e) => Err(e),
        Ok(h) => {
            let k = latch(block, 1);
            Ok(
                TaskView {
                    id: h.id,
                    task_type: h.task_type,
                    subject: h.subject,
                    body: body_of(block.subrange(1, k)),
                    properties: properties_of(block.subrange(k, block.len() as int)),
                },
            )
        },
    }
}

/// The tasks that the lines from `from` on give, or the first error among
/// them. Lines before the first heading belong to no task.
pub open spec fn tasks_from(lines: Seq<Seq<char>>, from: int) -> Result<Seq<TaskView>, ParseError>
    decreases lines.len() - from,
{
    if from < 0 || from >= lines.len() {
        Ok(Seq::empty())
    } else if !is_task_heading(lines[from]) {
        tasks_from(lines, from + 1)
    } else {
        let end = block_end(lines, from + 1);
        if end <= from || end > lines.len() {
            Ok(Seq::empty())
        } else {
            match task_of(lines.subrange(from, end)) {
                Err(kind) => Err(ParseError { line: (from + 1) as usize, kind }),
                Ok(t) => prepend(t, tasks_from(lines, end)),
            }
        }
    }
}

// ---------------------------------------------------------------------------
// Documents
// ---------------------------------------------------------------------------

/// The document that the lines give, or the first error among them.
pub open spec fn document_of_lines(lines: Seq<Seq<char>>) -> Result<DocView, ParseError> {
    let h = header_end(lines, 0);
    let header = unlines(lines.take(h));
    let has_team = h < lines.len() && is_team_header(lines[h]);
    let t = if has_team {
        section_end(lines, h + 1)
    } else {
        h
    };
    let team = if has_team {
        members_from(lines, h + 1, t)
    } else {
        Ok(Seq::empty())
    };
    let tasks = if 0 <= t < lines.len() && is_tasks_header(lines[t]) {
        tasks_from(lines, t + 1)
    } else {
        Ok(Seq::empty())
    };
    match team {
        Err(e) => Err(e),
        Ok(members) => match tasks {
            Err(e) => Err(e),
            Ok(ts) => Ok(DocView { header, team: members, tasks: ts }),
        },
    }
}

/// The document that a text gives, or the first error in it.
pub open spec fn document_of(text: Seq<char>) -> Result<DocView, ParseError> {
    document_of_lines(lines_of(text))
}

// ---------------------------------------------------------------------------
// Writing
// ---------------------------------------------------------------------------

/// The line that lists a member.
pub open spec fn member_text(m: MemberView) -> Seq<char> {
    "* "@ + m.name + " <"@ + m.email + ">"@ + match m.role {
        Some(r) => " - "@ + r,
        None => Seq::empty(),
    } + "\n"@
}

/// The lines that list the members.
pub open spec fn members_text(team: Seq<MemberView>) -> Seq<char>
    decreases team.len(),
{
    if team.len() == 0 {
        Seq::empty()
    } else {
        members_text(team.drop_last()) + member_text(team.last())
    }
}

/// The team section: nothing for an empty team.
pub open spec fn team_text(team: Seq<MemberView>) -> Seq<char> {
    if team.len() == 0 {
        Seq::empty()
    } else {
        "## Team\n\n"@ + members_text(team) + "\n"@
    }
}

/// The line that states a property.
pub open spec fn property_text(p: PropertyView) -> Seq<char> {
    p.key + ": "@ + p.value + "\n"@
}

/// The lines that state the properties.
pub open spec fn properties_text(props: Seq<PropertyView>) -> Seq<char>
    decreases props.len(),
{
    if props.len() == 0 {
        Seq::empty()
    } else {
        properties_text(props.drop_last()) + property_text(props.last())
    }
}

/// The heading line of a task.
pub open spec fn heading_text(t: TaskView) -> Seq<char> {
    "### "@ + token_of_type(t.task_type) + " "@ + decimal(t.id) + " - "@ + t.subject + "\n"@
}

/// The body of a task as it is written: nothing for an empty body, else a
/// blank line and the trimmed body.
pub open spec fn body_text(t: TaskView) -> Seq<char> {
    if t.body.len() == 0 {
        Seq::empty()
    } else {
        "\n"@ + trim(t.body) + "\n"@
    }
}

/// The properties of a task as they are written: nothing without
/// properties, else their lines, after a blank line if there is a body.
pub open spec fn property_block_text(t: TaskView) -> Seq<char> {
    if t.properties.len() == 0 {
        Seq::empty()
    } else if t.body.len() == 0 {
        properties_text(t.properties)
    } else {
        "\n"@ + properties_text(t.properties)
    }
}

/// The block of a task: heading, body, properties, and a blank line.
pub open spec fn task_text(t: TaskView) -> Seq<char> {
    heading_text(t) + body_text(t) + property_block_text(t) + "\n"@
}

/// The blocks of the tasks.
pub open spec fn tasks_text(tasks: Seq<TaskView>) -> Seq<char>
    decreases tasks.len(),
{
    if tasks.len() == 0 {
        Seq::empty()
    } else {
        tasks_text(tasks.drop_last()) + task_text(tasks.last())
    }
}

/// The text of a document: the header as it is, the team section if there
/// is a team, and the tasks section.
pub open spec fn document_text(d: DocView) -> Seq<char> {
    d.header + team_text(d.team) + "## Tasks\n\n"@ + tasks_text(d.tasks)
}

} // verus!
