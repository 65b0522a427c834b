//! Reading and writing documents.
//!
//! `parse` turns the text of a document into a `FrumpDoc`, and `serialize`
//! writes one back. What each of them computes is stated by the functions
//! of `grammar`.

pub mod grammar;
pub mod round_trip;
pub mod shape;

use crate::domain::document::{task_views, DocView, FrumpDoc, TaskCollection};
use crate::domain::property::{Property, PropertyKey, PropertyView};
use crate::domain::task::{property_views, Task, TaskView};
use crate::domain::task_id::TaskId;
use crate::domain::task_type::TaskType;
use crate::domain::team::{member_views, Email, MemberView, Team, TeamMember};
use crate::error::{ParseError, ParseErrorKind, ValidationError};
use crate::text::{
    chars_of, extend, find_char, find_whitespace, has_prefix, join_lines, slice, split_lines,
    read_u32, string_of, strip_all_prefixes, strip_one_prefix, trim_chars, trim_start_chars,
    unlines, uppercase, views, write_u32,
};
use grammar::{
    block_end, body_line, body_lines, body_of, document_of, document_text, header_end, heading_of,
    heading_text, is_bulleted, is_section, is_task_heading, is_tasks_header, is_team_header, latch,
    member_of, member_text, members_from, members_text, prepend_all, properties_of,
    properties_text, property_of, property_text, section_end, task_of, task_text, tasks_from,
    tasks_text, team_text, HeadingView, Latch, LineUse,
};
use vstd::prelude::*;

verus! {

// ---------------------------------------------------------------------------
// Kinds of lines
// ---------------------------------------------------------------------------

fn line_is_team_header(line: &Vec<char>) -> (r: bool)
    ensures
        r == is_team_header(line@),
{
    let upper = uppercase(&trim_chars(line));
    has_prefix(&upper, &chars_of("## TEAM"))
}

fn line_is_tasks_header(line: &Vec<char>) -> (r: bool)
    ensures
        r == is_tasks_header(line@),
{
    let upper = uppercase(&trim_chars(line));
    has_prefix(&upper, &chars_of("## TASKS"))
}

fn line_is_section(line: &Vec<char>) -> (r: bool)
    ensures
        r == is_section(line@),
{
    has_prefix(&trim_chars(line), &chars_of("## "))
}

fn line_is_bulleted(line: &Vec<char>) -> (r: bool)
    ensures
        r == is_bulleted(line@),
{
    let t = trim_chars(line);
    has_prefix(&t, &chars_of("* ")) || has_prefix(&t, &chars_of("- "))
}

fn line_is_task_heading(line: &Vec<char>) -> (r: bool)
    ensures
        r == is_task_heading(line@),
{
    has_prefix(&trim_chars(line), &chars_of("### "))
}

fn find_header_end(lines: &Vec<Vec<char>>) -> (r: usize)
    ensures
        r == header_end(views(lines@), 0),
        r <= lines.len(),
{
    let mut i: usize = 0;
    while i < lines.len()
        invariant
            i <= lines.len(),
            header_end(views(lines@), 0) == header_end(views(lines@), i as int),
        decreases lines.len() - i,
    {
        if line_is_team_header(&lines[i]) || line_is_tasks_header(&lines[i]) {
            return i;
        }
        i += 1;
    }
    i
}

fn find_section_end(lines: &Vec<Vec<char>>, from: usize) -> (r: usize)
    requires
        from <= lines.len(),
    ensures
        r == section_end(views(lines@), from as int),
        from <= r <= lines.len(),
{
    let mut i: usize = from;
    while i < lines.len()
        invariant
            from <= i <= lines.len(),
            section_end(views(lines@), from as int) == section_end(views(lines@), i as int),
        decreases lines.len() - i,
    {
        if line_is_section(&lines[i]) {
            return i;
        }
        i += 1;
    }
    i
}

fn find_block_end(lines: &Vec<Vec<char>>, from: usize) -> (r: usize)
    requires
        from <= lines.len(),
    ensures
        r == block_end(views(lines@), from as int),
        from <= r <= lines.len(),
{
    let mut i: usize = from;
    while i < lines.len()
        invariant
            from <= i <= lines.len(),
            block_end(views(lines@), from as int) == block_end(views(lines@), i as int),
        decreases lines.len() - i,
    {
        if line_is_task_heading(&lines[i]) {
            return i;
        }
        i += 1;
    }
    i
}

// ---------------------------------------------------------------------------
// Team members
// ---------------------------------------------------------------------------

/// Reads the member that a trimmed, bulleted line names.
pub fn member_from_chars(line: &Vec<char>) -> (r: Result<Option<TeamMember>, ValidationError>)
    ensures
        match r {
            Ok(Some(m)) => member_of(line@) == Ok::<Option<MemberView>, ValidationError>(
                Some(m@),
            ),
            Ok(None) => member_of(line@) == Ok::<Option<MemberView>, ValidationError>(None),
            Err(e) => member_of(line@) == Err::<Option<MemberView>, ValidationError>(e),
        },
{
    let s = strip_all_prefixes(&strip_all_prefixes(line, &chars_of("* ")), &chars_of("- "));
    assert(s@.skip(0) == s@);
    let lt = find_char(&s, '<', 0);
    if lt >= s.len() {
        return Ok(None);
    }
    let after = slice(&s, lt + 1, s.len());
    assert(after@ == s@.skip(lt + 1));
    assert(after@.skip(0) == after@);
    let gt = find_char(&after, '>', 0);
    if gt >= after.len() {
        return Ok(None);
    }
    let address = slice(&after, 0, gt);
    assert(address@ == after@.take(gt as int));
    let email = match Email::from_chars(&address) {
        Ok(email) => email,
        Err(e) => {
            return Err(e);
        },
    };
    let name = string_of(&trim_chars(&slice(&s, 0, lt)));
    assert(s@.subrange(0, lt as int) == s@.take(lt as int));
    let rest = trim_chars(&slice(&after, gt + 1, after.len()));
    assert(after@.subrange(gt + 1, after.len() as int) == after@.skip(gt + 1));
    let mut member = TeamMember::new(name, email);
    if rest.len() > 0 && rest[0] == '-' {
        let role = trim_chars(&slice(&rest, 1, rest.len()));
        assert(rest@.subrange(1, rest.len() as int) == rest@.skip(1));
        member.set_role(string_of(&role));
    }
    Ok(Some(member))
}

/// Reads the member that a bulleted line names, bullets and surrounding
/// white space included.
pub fn parse_team_member(line: &str) -> (r: Result<Option<TeamMember>, ValidationError>)
    ensures
        match r {
            Ok(Some(m)) => member_of(crate::text::trim(line@)) == Ok::<
                Option<MemberView>,
                ValidationError,
            >(Some(m@)),
            Ok(None) => member_of(crate::text::trim(line@)) == Ok::<
                Option<MemberView>,
                ValidationError,
            >(None),
            Err(e) => member_of(crate::text::trim(line@)) == Err::<
                Option<MemberView>,
                ValidationError,
            >(e),
        },
{
    member_from_chars(&trim_chars(&chars_of(line)))
}

fn parse_members(lines: &Vec<Vec<char>>, from: usize, to: usize) -> (r: Result<
    Vec<TeamMember>,
    ParseError,
>)
    requires
        from <= to <= lines.len(),
    ensures
        match r {
            Ok(ms) => members_from(views(lines@), from as int, to as int) == Ok::<
                Seq<MemberView>,
                ParseError,
            >(member_views(ms@)),
            Err(e) => members_from(views(lines@), from as int, to as int) == Err::<
                Seq<MemberView>,
                ParseError,
            >(e),
        },
{
    let ghost all = views(lines@);
    let mut members: Vec<TeamMember> = Vec::new();
    let mut i: usize = from;
    assert(member_views(members@) + Seq::<MemberView>::empty() == member_views(members@));
    assert(member_views(members@) == Seq::<MemberView>::empty());
    while i < to
        invariant
            all == views(lines@),
            from <= i <= to <= lines.len(),
            members_from(all, from as int, to as int) == prepend_all(
                member_views(members@),
                members_from(all, i as int, to as int),
            ),
        decreases to - i,
    {
        let ghost done = member_views(members@);
        if line_is_bulleted(&lines[i]) {
            match member_from_chars(&trim_chars(&lines[i])) {
                Err(e) => {
                    return Err(ParseError { line: i + 1, kind: ParseErrorKind::Invalid(e) });
                },
                Ok(None) => {},
                Ok(Some(m)) => {
                    let ghost mv = m@;
                    members.push(m);
                    assert(member_views(members@) == done.push(mv));
                    assert forall|s: Seq<MemberView>| #[trigger]
                        (done + (seq![mv] + s)) == done.push(mv) + s by {
                        assert((done + (seq![mv] + s)) =~= done.push(mv) + s);
                    }
                },
            }
        }
        i += 1;
    }
    assert(member_views(members@) + Seq::<MemberView>::empty() == member_views(members@));
    Ok(members)
}

// ---------------------------------------------------------------------------
// Tasks
// ---------------------------------------------------------------------------

/// Reads the first line of a task block.
pub fn parse_heading(line: &Vec<char>) -> (r: Result<(TaskType, TaskId, String), ParseErrorKind>)
    ensures
        match r {
            Ok((task_type, id, subject)) => heading_of(line@) == Ok::<
                HeadingView,
                ParseErrorKind,
            >(HeadingView { task_type: task_type@, id: id@, subject: subject@ }),
            Err(e) => heading_of(line@) == Err::<HeadingView, ParseErrorKind>(e),
        },
{
    let h = trim_start_chars(&strip_one_prefix(line, &chars_of("### ")));
    assert(h@.skip(0) == h@);
    let type_end = find_whitespace(&h, 0);
    if type_end >= h.len() {
        return Err(ParseErrorKind::InvalidHeading);
    }
    let rest = slice(&h, type_end + 1, h.len());
    assert(rest@ == h@.skip(type_end + 1));
    assert(rest@.skip(0) == rest@);
    let id_end = find_whitespace(&rest, 0);
    let token = slice(&rest, 0, id_end);
    assert(token@ == rest@.take(id_end as int));
    let n = match read_u32(&token) {
        None => {
            return Err(ParseErrorKind::InvalidTaskId);
        },
        Some(n) => n,
    };
    let id = match TaskId::new(n) {
        Err(e) => {
            return Err(ParseErrorKind::Invalid(e));
        },
        Ok(id) => id,
    };
    let type_token = slice(&h, 0, type_end);
    assert(type_token@ == h@.take(type_end as int));
    let task_type = TaskType::parse(string_of(&type_token).as_str());
    let subject = if id_end < rest.len() {
        let tail = slice(&rest, id_end + 1, rest.len());
        assert(tail@ == rest@.skip(id_end + 1));
        trim_chars(&strip_one_prefix(&tail, &chars_of("- ")))
    } else {
        Vec::new()
    };
    Ok((task_type, id, string_of(&subject)))
}

/// Reads the property that a trimmed line states.
pub fn property_from_chars(line: &Vec<char>) -> (r: Option<Property>)
    ensures
        match r {
            Some(p) => property_of(line@) == Some(p@),
            None => property_of(line@) is None,
        },
{
    assert(line@.skip(0) == line@);
    let c = find_char(line, ':', 0);
    if c >= line.len() {
        return None;
    }
    let key_chars = trim_chars(&slice(line, 0, c));
    assert(line@.subrange(0, c as int) == line@.take(c as int));
    let key = match PropertyKey::try_parse(string_of(&key_chars).as_str()) {
        Some(key) => key,
        None => {
            return None;
        },
    };
    let value = trim_chars(&slice(line, c + 1, line.len()));
    assert(line@.subrange(c + 1, line.len() as int) == line@.skip(c + 1));
    Some(Property::new(key, string_of(&value)))
}

/// Reads the property that a trimmed line states, as a key and a value.
pub fn try_parse_property(line: &str) -> (r: Option<(PropertyKey, String)>)
    ensures
        match r {
            Some((key, value)) => property_of(line@) == Some(
                PropertyView { key: key@, value: value@ },
            ),
            None => property_of(line@) is None,
        },
{
    match property_from_chars(&chars_of(line)) {
        Some(p) => Some((p.key, p.value)),
        None => None,
    }
}

/// Reads a task block: a heading line and the lines that follow it up to
/// the next heading. An empty block gives no task.
pub fn parse_task(block: &Vec<Vec<char>>) -> (r: Result<Option<Task>, ParseErrorKind>)
    ensures
        match r {
            Ok(Some(t)) => block.len() > 0 && task_of(views(block@)) == Ok::<
                TaskView,
                ParseErrorKind,
            >(t@),
            Ok(None) => block.len() == 0,
            Err(e) => block.len() > 0 && task_of(views(block@)) == Err::<TaskView, ParseErrorKind>(
                e,
            ),
        },
{
    if block.len() == 0 {
        return Ok(None);
    }
    let (task_type, id, subject) = match parse_heading(&block[0]) {
        Ok(h) => h,
        Err(e) => {
            return Err(e);
        },
    };
    let ghost all = views(block@);
    let ghost k = latch(all, 1);
    let n = block.len();
    let mut state = Latch::Body;
    let mut body: Vec<char> = Vec::new();
    let mut properties: Vec<Property> = Vec::new();
    let mut i: usize = 1;
    proof {
        grammar::lemma_latch(all, 1);
        assert(body_lines(all.subrange(1, 1)) == Seq::<Seq<char>>::empty());
        assert(property_views(properties@) == Seq::<PropertyView>::empty());
    }
    while i < n
        invariant
            all == views(block@),
            n == block.len(),
            k == latch(all, 1),
            1 <= k <= n,
            1 <= i <= n,
            state == grammar::latch_state(all, 1, i as int),
            state == Latch::Body ==> i <= k && body@ == join_lines(
                body_lines(all.subrange(1, i as int)),
            ) && properties@.len() == 0,
            state == Latch::Property ==> k < i && body@ == join_lines(
                body_lines(all.subrange(1, k)),
            ) && property_views(properties@) == properties_of(all.subrange(k, i as int)),
        decreases n - i,
    {
        proof {
            grammar::lemma_latch_state(all, 1, i as int);
            grammar::lemma_latch_state(all, 1, i + 1);
            grammar::lemma_latch(all, 1);
        }
        let ghost done = property_views(properties@);
        let found = property_from_chars(&trim_chars(&block[i]));
        let (next, line_use) = state.step(found.is_some());
        match line_use {
            LineUse::Body => {
                let ghost before = body_lines(all.subrange(1, i as int));
                let ghost after = body_lines(all.subrange(1, i + 1));
                assert(after.drop_last() == before);
                assert(after.last() == body_line(all[i as int]));
                if i > 1 {
                    body.push('\n');
                    assert(body@ == join_lines(before) + seq!['\n']);
                } else {
                    assert(after.len() == 1);
                }
                if trim_chars(&block[i]).len() > 0 {
                    extend(&mut body, &block[i]);
                } else {
                    assert(body@ + Seq::<char>::empty() == body@);
                }
                assert(after.len() == 1 ==> body@ == after[0]);
            },
            LineUse::Property => {
                assert(all.subrange(k, i + 1).drop_last() == all.subrange(k, i as int));
                assert(all.subrange(k, i + 1).last() == block[i as int]@);
                proof {
                    if i as int == k {
                        assert(all.subrange(k, i as int) == Seq::<Seq<char>>::empty());
                        assert(properties_of(all.subrange(k, i as int)) == Seq::<
                            PropertyView,
                        >::empty());
                        assert(done == Seq::<PropertyView>::empty());
                    }
                }
                match found {
                    Some(p) => {
                        let ghost pv = p@;
                        properties.push(p);
                        assert(property_views(properties@) == done.push(pv));
                    },
                    None => {},
                }
            },
            LineUse::Dropped => {
                assert(all.subrange(k, i + 1).drop_last() == all.subrange(k, i as int));
                assert(all.subrange(k, i + 1).last() == block[i as int]@);
            },
        }
        state = next;
        i += 1;
    }
    proof {
        grammar::lemma_latch_state(all, 1, n as int);
        if state == Latch::Body {
            assert(k == n);
            assert(all.subrange(k, n as int) == Seq::<Seq<char>>::empty());
            assert(property_views(properties@) == Seq::<PropertyView>::empty());
        }
    }
    let body = string_of(&trim_chars(&body));
    Ok(Some(Task { id, task_type, subject, body, properties }))
}

fn copy_lines(lines: &Vec<Vec<char>>, from: usize, to: usize) -> (r: Vec<Vec<char>>)
    requires
        from <= to <= lines.len(),
    ensures
        views(r@) == views(lines@).subrange(from as int, to as int),
{
    let mut r: Vec<Vec<char>> = Vec::new();
    let mut i: usize = from;
    while i < to
        invariant
            from <= i <= to <= lines.len(),
            views(r@) == views(lines@).subrange(from as int, i as int),
        decreases to - i,
    {
        let ghost before = views(r@);
        let line = slice(&lines[i], 0, lines[i].len());
        assert(line@ == lines[i as int]@);
        r.push(line);
        assert(views(r@) == before.push(lines[i as int]@));
        i += 1;
    }
    r
}

fn parse_tasks(lines: &Vec<Vec<char>>, from: usize) -> (r: Result<Vec<Task>, ParseError>)
    requires
        from <= lines.len(),
    ensures
        match r {
            Ok(ts) => tasks_from(views(lines@), from as int) == Ok::<Seq<TaskView>, ParseError>(
                task_views(ts@),
            ),
            Err(e) => tasks_from(views(lines@), from as int) == Err::<Seq<TaskView>, ParseError>(
                e,
            ),
        },
{
    let ghost all = views(lines@);
    let mut tasks: Vec<Task> = Vec::new();
    let mut i: usize = from;
    assert(task_views(tasks@) == Seq::<TaskView>::empty());
    assert forall|s: Seq<TaskView>| #[trigger] (Seq::<TaskView>::empty() + s) == s by {
        assert(Seq::<TaskView>::empty() + s =~= s);
    }
    while i < lines.len()
        invariant
            all == views(lines@),
            from <= i <= lines.len(),
            tasks_from(all, from as int) == prepend_all(
                task_views(tasks@),
                tasks_from(all, i as int),
            ),
        decreases lines.len() - i,
    {
        let ghost done = task_views(tasks@);
        if !line_is_task_heading(&lines[i]) {
            i += 1;
        } else {
            let end = find_block_end(lines, i + 1);
            let block = copy_lines(lines, i, end);
            match parse_task(&block) {
                Err(kind) => {
                    return Err(ParseError { line: i + 1, kind });
                },
                Ok(None) => {
                    assert(false);
                    i = end;
                },
                Ok(Some(t)) => {
                    let ghost tv = t@;
                    tasks.push(t);
                    assert(task_views(tasks@) == done.push(tv));
                    assert forall|s: Seq<TaskView>| #[trigger]
                        (done + (seq![tv] + s)) == done.push(tv) + s by {
                        assert((done + (seq![tv] + s)) =~= done.push(tv) + s);
                    }
                    i = end;
                },
            }
        }
    }
    assert(task_views(tasks@) + Seq::<TaskView>::empty() == task_views(tasks@));
    Ok(tasks)
}

// ---------------------------------------------------------------------------
// Documents
// ---------------------------------------------------------------------------

fn read_header(lines: &Vec<Vec<char>>, to: usize) -> (r: String)
    requires
        to <= lines.len(),
    ensures
        r@ == unlines(views(lines@).take(to as int)),
{
    let ghost all = views(lines@);
    let mut header: Vec<char> = Vec::new();
    let mut i: usize = 0;
    while i < to
        invariant
            all == views(lines@),
            i <= to <= lines.len(),
            header@ == unlines(all.take(i as int)),
        decreases to - i,
    {
        assert(all.take(i + 1).drop_last() == all.take(i as int));
        assert(all.take(i + 1).last() == lines[i as int]@);
        extend(&mut header, &lines[i]);
        header.push('\n');
        assert(header@ == unlines(all.take(i as int)) + lines[i as int]@ + seq!['\n']);
        i += 1;
    }
    string_of(&header)
}

/// Reads a document. The result is the document that `document_of` gives
/// for the text, or the error it gives: the first line that cannot be read.
pub fn parse(content: &str) -> (r: Result<FrumpDoc, ParseError>)
    ensures
        match r {
            Ok(d) => document_of(content@) == Ok::<DocView, ParseError>(d@),
            Err(e) => document_of(content@) == Err::<DocView, ParseError>(e),
        },
{
    let text = chars_of(content);
    let lines = split_lines(&text);
    let n = lines.len();
    let h = find_header_end(&lines);
    let header = read_header(&lines, h);
    let has_team = h < n && line_is_team_header(&lines[h]);
    let mut t = h;
    let mut members: Vec<TeamMember> = Vec::new();
    assert(member_views(members@) == Seq::<MemberView>::empty());
    if has_team {
        t = find_section_end(&lines, h + 1);
        members =
        match parse_members(&lines, h + 1, t) {
            Ok(ms) => ms,
            Err(e) => {
                return Err(e);
            },
        };
    }
    let mut tasks: Vec<Task> = Vec::new();
    assert(task_views(tasks@) == Seq::<TaskView>::empty());
    if t < n && line_is_tasks_header(&lines[t]) {
        tasks =
        match parse_tasks(&lines, t + 1) {
            Ok(ts) => ts,
            Err(e) => {
                return Err(e);
            },
        };
    }
    Ok(FrumpDoc::new(header, Team::new(members), TaskCollection::new(tasks)))
}

impl FrumpDoc {
    /// Reads a document, as the free function `parse` does.
    pub fn parse(content: &str) -> (r: Result<FrumpDoc, ParseError>)
        ensures
            match r {
                Ok(d) => document_of(content@) == Ok::<DocView, ParseError>(d@),
                Err(e) => document_of(content@) == Err::<DocView, ParseError>(e),
            },
    {
        parse(content)
    }

    /// Writes the document, as the free function `serialize` does.
    pub fn to_string(&self) -> (r: String)
        ensures
            r@ == document_text(self@),
    {
        serialize(self)
    }
}

// ---------------------------------------------------------------------------
// Writing
// ---------------------------------------------------------------------------

fn push_str(out: &mut Vec<char>, s: &str)
    ensures
        final(out)@ == old(out)@ + s@,
{
    extend(out, &chars_of(s));
}

fn write_member(out: &mut Vec<char>, m: &TeamMember)
    ensures
        final(out)@ == old(out)@ + member_text(m@),
{
    let ghost start = out@;
    push_str(out, "* ");
    push_str(out, m.name.as_str());
    push_str(out, " <");
    push_str(out, m.email.as_str());
    push_str(out, ">");
    match &m.role {
        Some(role) => {
            push_str(out, " - ");
            push_str(out, role.as_str());
        },
        None => {},
    }
    push_str(out, "\n");
    assert(out@ == start + member_text(m@));
}

fn write_property(out: &mut Vec<char>, p: &Property)
    ensures
        final(out)@ == old(out)@ + property_text(p@),
{
    let ghost start = out@;
    push_str(out, p.key.as_str());
    push_str(out, ": ");
    push_str(out, p.value.as_str());
    push_str(out, "\n");
    assert(out@ == start + property_text(p@));
}

fn write_task(out: &mut Vec<char>, t: &Task)
    ensures
        final(out)@ == old(out)@ + task_text(t@),
{
    let ghost start = out@;
    push_str(out, "### ");
    push_str(out, t.task_type.as_str());
    push_str(out, " ");
    extend(out, &write_u32(t.id.value()));
    push_str(out, " - ");
    push_str(out, t.subject.as_str());
    push_str(out, "\n");
    assert(out@ == start + heading_text(t@));
    let has_body = !t.body.as_str().is_empty();
    if has_body {
        push_str(out, "\n");
        extend(out, &trim_chars(&chars_of(t.body.as_str())));
        push_str(out, "\n");
    }
    let ghost after_body = out@;
    assert(after_body == start + heading_text(t@) + grammar::body_text(t@));
    if t.properties.len() > 0 {
        if has_body {
            push_str(out, "\n");
        }
        let ghost base = out@;
        let ghost props = property_views(t.properties@);
        let mut i: usize = 0;
        assert(props.take(0) == Seq::<PropertyView>::empty());
        while i < t.properties.len()
            invariant
                props == property_views(t.properties@),
                i <= t.properties.len(),
                out@ == base + properties_text(props.take(i as int)),
            decreases t.properties.len() - i,
        {
            assert(props.take(i + 1).drop_last() == props.take(i as int));
            assert(props.take(i + 1).last() == t.properties[i as int]@);
            write_property(out, &t.properties[i]);
            i += 1;
        }
        assert(props.take(i as int) == props);
        assert(out@ == after_body + grammar::property_block_text(t@));
    } else {
        assert(out@ == after_body + grammar::property_block_text(t@));
    }
    push_str(out, "\n");
    assert(out@ == start + task_text(t@));
}

/// Writes a document. The result is the text that `document_text` gives.
pub fn serialize(doc: &FrumpDoc) -> (r: String)
    ensures
        r@ == document_text(doc@),
{
    let mut out: Vec<char> = Vec::new();
    push_str(&mut out, doc.header.as_str());
    assert(out@ == doc@.header);
    let members = doc.team.members();
    if members.len() > 0 {
        push_str(&mut out, "## Team\n\n");
        let ghost base = out@;
        let ghost team = doc@.team;
        let mut i: usize = 0;
        assert(team.take(0) == Seq::<MemberView>::empty());
        while i < members.len()
            invariant
                team == member_views(members@),
                i <= members.len(),
                out@ == base + members_text(team.take(i as int)),
            decreases members.len() - i,
        {
            assert(team.take(i + 1).drop_last() == team.take(i as int));
            assert(team.take(i + 1).last() == members[i as int]@);
            write_member(&mut out, &members[i]);
            i += 1;
        }
        assert(team.take(i as int) == team);
        push_str(&mut out, "\n");
        assert(out@ == doc@.header + team_text(doc@.team));
    } else {
        assert(out@ == doc@.header + team_text(doc@.team));
    }
    push_str(&mut out, "## Tasks\n\n");
    let ghost base = out@;
    let tasks = doc.tasks.tasks();
    let ghost all = doc@.tasks;
    let mut i: usize = 0;
    assert(all.take(0) == Seq::<TaskView>::empty());
    while i < tasks.len()
        invariant
            all == task_views(tasks@),
            i <= tasks.len(),
            out@ == base + tasks_text(all.take(i as int)),
        decreases tasks.len() - i,
    {
        assert(all.take(i + 1).drop_last() == all.take(i as int));
        assert(all.take(i + 1).last() == tasks[i as int]@);
        write_task(&mut out, &tasks[i]);
        i += 1;
    }
    assert(all.take(i as int) == all);
    string_of(&out)
}

} // verus!
