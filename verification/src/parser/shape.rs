//! The shape of what the parser produces.
//!
//! Every document that `document_of` gives is well formed: its names,
//! subjects, keys and values are trimmed and fit on one line, its
//! identifiers are positive, and no line of a body could be taken for a
//! heading or a property.

use super::grammar::{
    block_end, body_line, body_lines, body_of, document_of, ends_header, header_end, heading_of,
    is_property, is_task_heading, latch, lemma_block_end, lemma_header_end, lemma_latch, member_of,
    members_from, properties_of, property_of, section_end, lemma_section_end, task_of, tasks_from,
    unbulleted, HeadingView,
};
use crate::domain::document::DocView;
use crate::domain::property::{valid_key, PropertyView};
use crate::domain::task::TaskView;
use crate::domain::task_type::{token_of_type, type_of_token};
use crate::domain::team::{email_error, MemberView};
use crate::error::{ParseError, ParseErrorKind};
use crate::text::facts::{
    are_lines, lacks, lemma_join_first, lemma_lines_are_lines, lemma_lines_of_unlines,
    lemma_split_of_join, lemma_trim, lemma_trim_end_keeps, lemma_trim_end_padded,
    lemma_trim_idempotent, lemma_trim_of_partial_trim, lemma_trim_of_strip_cr,
    lemma_trim_start_keeps, lemma_trim_start_padded, no_whitespace, strip_all, trim_hi, trim_lo,
};
use crate::text::{
    is_blank, is_trimmed, is_whitespace, join_lines, lemma_position, lemma_whitespace_position,
    lines_of, position, split_on, starts_with, strip_cr, strip_prefix, strip_prefixes, trim,
    trim_end, trim_start, unlines, whitespace_position,
};
use vstd::prelude::*;

verus! {

/// Whether a member has the shape of a parsed one: name, address and role
/// are trimmed and hold no line feed, the name holds no `<`, and the
/// address holds no `>` and is a valid address.
pub open spec fn well_formed_member(m: MemberView) -> bool {
    &&& is_trimmed(m.name)
    &&& lacks(m.name, '<')
    &&& lacks(m.name, '\n')
    &&& is_trimmed(m.email)
    &&& lacks(m.email, '>')
    &&& lacks(m.email, '\n')
    &&& email_error(m.email) is None
    &&& m.role matches Some(r) ==> is_trimmed(r) && lacks(r, '\n')
}

/// Whether a property has the shape of a parsed one: key and value are
/// trimmed and hold no line feed, and the key is valid and holds no colon.
pub open spec fn well_formed_property(p: PropertyView) -> bool {
    &&& valid_key(p.key)
    &&& is_trimmed(p.key)
    &&& lacks(p.key, ':')
    &&& lacks(p.key, '\n')
    &&& is_trimmed(p.value)
    &&& lacks(p.value, '\n')
}

/// Whether a line would stay in a body if it were read again: it holds no
/// line feed, states no property, begins no task, and is empty if it is
/// blank.
pub open spec fn quiet(line: Seq<char>) -> bool {
    &&& lacks(line, '\n')
    &&& !is_property(line)
    &&& !is_task_heading(line)
    &&& is_blank(line) ==> line.len() == 0
}

/// Whether every one of the lines is quiet.
pub open spec fn all_quiet(lines: Seq<Seq<char>>) -> bool {
    forall|i: int| 0 <= i < lines.len() ==> quiet(#[trigger] lines[i])
}

/// Whether a body has the shape of a parsed one: it is trimmed, and each
/// of its lines is quiet.
pub open spec fn well_formed_body(body: Seq<char>) -> bool {
    &&& is_trimmed(body)
    &&& all_quiet(split_on(body, '\n'))
}

/// Whether a task has the shape of a parsed one.
pub open spec fn well_formed_task(t: TaskView) -> bool {
    &&& 1 <= t.id <= u32::MAX
    &&& token_of_type(t.task_type).len() > 0
    &&& no_whitespace(token_of_type(t.task_type))
    &&& type_of_token(token_of_type(t.task_type)) == t.task_type
    &&& is_trimmed(t.subject)
    &&& lacks(t.subject, '\n')
    &&& well_formed_body(t.body)
    &&& forall|i: int|
        0 <= i < t.properties.len() ==> well_formed_property(#[trigger] t.properties[i])
}

/// Whether a header has the shape of a parsed one: it is empty or ends
/// with a line feed, and none of its lines opens the team or the tasks.
pub open spec fn well_formed_header(header: Seq<char>) -> bool {
    &&& header.len() > 0 ==> header.last() == '\n'
    &&& forall|i: int|
        0 <= i < lines_of(header).len() ==> !ends_header(#[trigger] lines_of(header)[i])
}

/// Whether a document has the shape of a parsed one.
pub open spec fn well_formed(d: DocView) -> bool {
    &&& well_formed_header(d.header)
    &&& forall|i: int| 0 <= i < d.team.len() ==> well_formed_member(#[trigger] d.team[i])
    &&& forall|i: int| 0 <= i < d.tasks.len() ==> well_formed_task(#[trigger] d.tasks[i])
}

// ---------------------------------------------------------------------------
// Parts of a line lack what the line lacks
// ---------------------------------------------------------------------------

proof fn lemma_lacks_subrange(s: Seq<char>, a: int, b: int, c: char)
    requires
        lacks(s, c),
        0 <= a <= b <= s.len(),
    ensures
        lacks(s.subrange(a, b), c),
{
    assert forall|i: int| 0 <= i < b - a implies s.subrange(a, b)[i] != c by {
        assert(s.subrange(a, b)[i] == s[a + i]);
    }
}

proof fn lemma_lacks_trim(s: Seq<char>, c: char)
    requires
        lacks(s, c),
    ensures
        lacks(trim(s), c),
{
    lemma_trim(s);
    lemma_lacks_subrange(s, trim_lo(s), trim_hi(s), c);
}

proof fn lemma_lacks_strip_prefix(s: Seq<char>, p: Seq<char>, c: char)
    requires
        lacks(s, c),
    ensures
        lacks(strip_prefix(s, p), c),
{
    if starts_with(s, p) {
        lemma_lacks_subrange(s, p.len() as int, s.len() as int, c);
        assert(s.skip(p.len() as int) == s.subrange(p.len() as int, s.len() as int));
    }
}

proof fn lemma_lacks_strip_prefixes(s: Seq<char>, p: Seq<char>, c: char)
    requires
        lacks(s, c),
    ensures
        lacks(strip_prefixes(s, p), c),
    decreases s.len(),
{
    if p.len() > 0 && starts_with(s, p) {
        lemma_lacks_subrange(s, p.len() as int, s.len() as int, c);
        assert(s.skip(p.len() as int) == s.subrange(p.len() as int, s.len() as int));
        lemma_lacks_strip_prefixes(s.skip(p.len() as int), p, c);
    }
}

// ---------------------------------------------------------------------------
// Members
// ---------------------------------------------------------------------------

/// A member read from a line without line feed is well formed.
pub proof fn lemma_member_shape(line: Seq<char>, m: MemberView)
    requires
        lacks(line, '\n'),
        member_of(line) == Ok::<Option<MemberView>, crate::error::ValidationError>(Some(m)),
    ensures
        well_formed_member(m),
{
    let s = unbulleted(line);
    lemma_lacks_strip_prefixes(line, "* "@, '\n');
    lemma_lacks_strip_prefixes(strip_prefixes(line, "* "@), "- "@, '\n');
    lemma_position(s, '<');
    let lt = position(s, '<');
    let after = s.skip(lt + 1);
    lemma_position(after, '>');
    let gt = position(after, '>');
    let raw_name = s.take(lt);
    let raw_email = after.take(gt);
    let rest = after.skip(gt + 1);
    assert(raw_name == s.subrange(0, lt));
    lemma_lacks_subrange(s, 0, lt, '\n');
    assert(lacks(raw_name, '<')) by {
        assert forall|i: int| 0 <= i < raw_name.len() implies raw_name[i] != '<' by {
            assert(raw_name[i] == s[i]);
        }
    }
    lemma_lacks_trim(raw_name, '\n');
    lemma_lacks_trim(raw_name, '<');
    lemma_trim(raw_name);
    assert(after == s.subrange(lt + 1, s.len() as int));
    lemma_lacks_subrange(s, lt + 1, s.len() as int, '\n');
    assert(raw_email == after.subrange(0, gt));
    lemma_lacks_subrange(after, 0, gt, '\n');
    assert(lacks(raw_email, '>')) by {
        assert forall|i: int| 0 <= i < raw_email.len() implies raw_email[i] != '>' by {
            assert(raw_email[i] == after[i]);
        }
    }
    lemma_lacks_trim(raw_email, '\n');
    lemma_lacks_trim(raw_email, '>');
    lemma_trim_idempotent(raw_email);
    assert(rest == after.subrange(gt + 1, after.len() as int));
    lemma_lacks_subrange(after, gt + 1, after.len() as int, '\n');
    lemma_lacks_trim(rest, '\n');
    let r = trim(rest);
    if r.len() > 0 && r[0] == '-' {
        assert(r.skip(1) == r.subrange(1, r.len() as int));
        lemma_lacks_subrange(r, 1, r.len() as int, '\n');
        lemma_lacks_trim(r.skip(1), '\n');
        lemma_trim(r.skip(1));
    }
}

// ---------------------------------------------------------------------------
// Headings and properties
// ---------------------------------------------------------------------------

/// What a heading without line feed gives is well formed.
pub proof fn lemma_heading_shape(line: Seq<char>, h: HeadingView)
    requires
        lacks(line, '\n'),
        heading_of(line) == Ok::<HeadingView, ParseErrorKind>(h),
    ensures
        1 <= h.id <= u32::MAX,
        token_of_type(h.task_type).len() > 0,
        no_whitespace(token_of_type(h.task_type)),
        type_of_token(token_of_type(h.task_type)) == h.task_type,
        is_trimmed(h.subject),
        lacks(h.subject, '\n'),
{
    let stripped = strip_prefix(line, "### "@);
    lemma_lacks_strip_prefix(line, "### "@, '\n');
    let text = trim_start(stripped);
    crate::text::facts::lemma_trim_start(stripped);
    assert(text == stripped.subrange(trim_lo(stripped), stripped.len() as int));
    lemma_lacks_subrange(stripped, trim_lo(stripped), stripped.len() as int, '\n');
    lemma_whitespace_position(text);
    let type_end = whitespace_position(text);
    let token = text.take(type_end);
    crate::domain::task_type::lemma_type_token_round_trip(token);
    assert(token.len() > 0);
    assert forall|i: int| 0 <= i < token.len() implies !is_whitespace(#[trigger] token[i]) by {
        assert(token[i] == text[i]);
    }
    let rest = text.skip(type_end + 1);
    lemma_whitespace_position(rest);
    let id_end = whitespace_position(rest);
    assert(rest == text.subrange(type_end + 1, text.len() as int));
    lemma_lacks_subrange(text, type_end + 1, text.len() as int, '\n');
    if id_end < rest.len() {
        let tail = rest.skip(id_end + 1);
        assert(tail == rest.subrange(id_end + 1, rest.len() as int));
        lemma_lacks_subrange(rest, id_end + 1, rest.len() as int, '\n');
        lemma_lacks_strip_prefix(tail, "- "@, '\n');
        lemma_lacks_trim(strip_prefix(tail, "- "@), '\n');
        lemma_trim(strip_prefix(tail, "- "@));
    }
}

/// A property read from a line without line feed is well formed.
pub proof fn lemma_property_shape(line: Seq<char>, p: PropertyView)
    requires
        lacks(line, '\n'),
        property_of(line) == Some(p),
    ensures
        well_formed_property(p),
{
    lemma_position(line, ':');
    let c = position(line, ':');
    let raw_key = line.take(c);
    let raw_value = line.skip(c + 1);
    assert(raw_key == line.subrange(0, c));
    lemma_lacks_subrange(line, 0, c, '\n');
    assert(lacks(raw_key, ':')) by {
        assert forall|i: int| 0 <= i < raw_key.len() implies raw_key[i] != ':' by {
            assert(raw_key[i] == line[i]);
        }
    }
    lemma_lacks_trim(raw_key, '\n');
    lemma_lacks_trim(raw_key, ':');
    lemma_trim(raw_key);
    assert(raw_value == line.subrange(c + 1, line.len() as int));
    lemma_lacks_subrange(line, c + 1, line.len() as int, '\n');
    lemma_lacks_trim(raw_value, '\n');
    lemma_trim(raw_value);
}

/// The properties read from lines without line feed are well formed.
pub proof fn lemma_properties_shape(lines: Seq<Seq<char>>)
    requires
        are_lines(lines),
    ensures
        forall|i: int|
            0 <= i < properties_of(lines).len() ==> well_formed_property(
                #[trigger] properties_of(lines)[i],
            ),
    decreases lines.len(),
{
    if lines.len() > 0 {
        let init = lines.drop_last();
        assert forall|i: int| 0 <= i < init.len() implies lacks(#[trigger] init[i], '\n') by {
            assert(init[i] == lines[i]);
        }
        lemma_properties_shape(init);
        let before = properties_of(init);
        match property_of(trim(lines.last())) {
            Some(p) => {
                lemma_lacks_trim(lines.last(), '\n');
                lemma_property_shape(trim(lines.last()), p);
                assert forall|i: int| 0 <= i < properties_of(lines).len() implies well_formed_property(
                    #[trigger] properties_of(lines)[i],
                ) by {
                    if i < before.len() {
                        assert(properties_of(lines)[i] == before[i]);
                    }
                }
            },
            None => {},
        }
    }
}

// ---------------------------------------------------------------------------
// Bodies
// ---------------------------------------------------------------------------

/// The empty line is quiet.
pub proof fn lemma_empty_is_quiet()
    ensures
        quiet(Seq::<char>::empty()),
{
    reveal_strlit("### ");
    let e = Seq::<char>::empty();
    assert(trim(e) == e);
    assert(position(e, ':') == 0);
}

/// A quiet line stays quiet when one of its sides is trimmed.
proof fn lemma_quiet_partial_trim(x: Seq<char>)
    requires
        quiet(x),
    ensures
        quiet(trim_start(x)),
        quiet(trim_end(x)),
{
    lemma_trim_of_partial_trim(x);
    crate::text::facts::lemma_trim_start(x);
    crate::text::facts::lemma_trim_end(x);
    assert(trim_start(x) == x.subrange(trim_lo(x), x.len() as int));
    lemma_lacks_subrange(x, trim_lo(x), x.len() as int, '\n');
    assert(trim_end(x) == x.subrange(0, trim_end(x).len() as int));
    lemma_lacks_subrange(x, 0, trim_end(x).len() as int, '\n');
}

/// What `trim_start` leaves of joined quiet lines is a join of quiet lines.
proof fn lemma_trim_start_of_join(lines: Seq<Seq<char>>) -> (c: Seq<Seq<char>>)
    requires
        lines.len() >= 1,
        all_quiet(lines),
    ensures
        c.len() >= 1,
        all_quiet(c),
        trim_start(join_lines(lines)) == join_lines(c),
    decreases lines.len(),
{
    if lines.len() == 1 {
        lemma_quiet_partial_trim(lines[0]);
        seq![trim_start(lines[0])]
    } else {
        let rest = lines.skip(1);
        lemma_join_first(lines);
        assert forall|i: int| 0 <= i < rest.len() implies quiet(#[trigger] rest[i]) by {
            assert(rest[i] == lines[i + 1]);
        }
        if lines[0].len() == 0 {
            let nl = seq!['\n'];
            assert(lines[0] + nl + join_lines(rest) == nl + join_lines(rest));
            assert forall|i: int| 0 <= i < nl.len() implies is_whitespace(#[trigger] nl[i]) by {}
            lemma_trim_start_padded(nl, join_lines(rest));
            lemma_trim_start_of_join(rest)
        } else {
            let first = trim_start(lines[0]);
            lemma_quiet_partial_trim(lines[0]);
            let tail = seq!['\n'] + join_lines(rest);
            assert(lines[0] + seq!['\n'] + join_lines(rest) == lines[0] + tail);
            lemma_trim_start_keeps(lines[0], tail);
            let c = seq![first] + rest;
            assert(c.skip(1) == rest);
            lemma_join_first(c);
            assert(first + tail == first + seq!['\n'] + join_lines(rest));
            assert forall|i: int| 0 <= i < c.len() implies quiet(#[trigger] c[i]) by {
                if i > 0 {
                    assert(c[i] == rest[i - 1]);
                }
            }
            c
        }
    }
}

/// What `trim_end` leaves of joined quiet lines is a join of quiet lines.
proof fn lemma_trim_end_of_join(lines: Seq<Seq<char>>) -> (c: Seq<Seq<char>>)
    requires
        lines.len() >= 1,
        all_quiet(lines),
    ensures
        c.len() >= 1,
        all_quiet(c),
        trim_end(join_lines(lines)) == join_lines(c),
    decreases lines.len(),
{
    if lines.len() == 1 {
        lemma_quiet_partial_trim(lines[0]);
        seq![trim_end(lines[0])]
    } else {
        let init = lines.drop_last();
        let last = lines.last();
        assert forall|i: int| 0 <= i < init.len() implies quiet(#[trigger] init[i]) by {
            assert(init[i] == lines[i]);
        }
        if last.len() == 0 {
            let nl = seq!['\n'];
            assert(join_lines(init) + nl + last == join_lines(init) + nl);
            assert forall|i: int| 0 <= i < nl.len() implies is_whitespace(#[trigger] nl[i]) by {}
            lemma_trim_end_padded(join_lines(init), nl);
            lemma_trim_end_of_join(init)
        } else {
            let end = trim_end(last);
            lemma_quiet_partial_trim(last);
            let head = join_lines(init) + seq!['\n'];
            lemma_trim_end_keeps(head, last);
            let c = init.push(end);
            assert(c.drop_last() == init);
            assert forall|i: int| 0 <= i < c.len() implies quiet(#[trigger] c[i]) by {
                if i < init.len() {
                    assert(c[i] == init[i]);
                }
            }
            c
        }
    }
}

/// The body that lines give is well formed, if none of the lines holds a
/// line feed, states a property or begins a task.
pub proof fn lemma_body_shape(lines: Seq<Seq<char>>)
    requires
        are_lines(lines),
        forall|i: int|
            0 <= i < lines.len() ==> !is_property(#[trigger] lines[i]) && !is_task_heading(
                lines[i],
            ),
    ensures
        well_formed_body(body_of(lines)),
{
    let bl = body_lines(lines);
    let body = body_of(lines);
    lemma_trim(join_lines(bl));
    lemma_empty_is_quiet();
    if lines.len() == 0 {
        assert(join_lines(bl) == Seq::<char>::empty());
        assert(body == Seq::<char>::empty());
        assert(position(body, '\n') == 0);
        assert(split_on(body, '\n') == seq![body]);
    } else {
        assert forall|i: int| 0 <= i < bl.len() implies quiet(#[trigger] bl[i]) by {
            assert(bl[i] == body_line(lines[i]));
            if !is_blank(lines[i]) {
                assert(bl[i] == lines[i]);
            }
        }
        let c1 = lemma_trim_start_of_join(bl);
        let c2 = lemma_trim_end_of_join(c1);
        assert(body == join_lines(c2));
        assert forall|i: int| 0 <= i < c2.len() implies lacks(#[trigger] c2[i], '\n') by {
            assert(quiet(c2[i]));
        }
        lemma_split_of_join(c2);
    }
}

// ---------------------------------------------------------------------------
// Tasks, members, header
// ---------------------------------------------------------------------------

/// The task that a block gives is well formed, if no line of the block
/// holds a line feed and none after the first begins a task.
pub proof fn lemma_task_shape(block: Seq<Seq<char>>, t: TaskView)
    requires
        block.len() >= 1,
        are_lines(block),
        forall|i: int| 1 <= i < block.len() ==> !is_task_heading(#[trigger] block[i]),
        task_of(block) == Ok::<TaskView, ParseErrorKind>(t),
    ensures
        well_formed_task(t),
{
    let h = heading_of(block[0])->Ok_0;
    lemma_heading_shape(block[0], h);
    lemma_latch(block, 1);
    let k = latch(block, 1);
    let before = block.subrange(1, k);
    assert forall|i: int| 0 <= i < before.len() implies lacks(#[trigger] before[i], '\n')
        && !is_property(before[i]) && !is_task_heading(before[i]) by {
        assert(before[i] == block[i + 1]);
    }
    lemma_body_shape(before);
    let after = block.subrange(k, block.len() as int);
    assert forall|i: int| 0 <= i < after.len() implies lacks(#[trigger] after[i], '\n') by {
        assert(after[i] == block[i + k]);
    }
    lemma_properties_shape(after);
}

/// The tasks read from lines without line feed are well formed.
pub proof fn lemma_tasks_shape(lines: Seq<Seq<char>>, from: int, tasks: Seq<TaskView>)
    requires
        are_lines(lines),
        0 <= from <= lines.len(),
        tasks_from(lines, from) == Ok::<Seq<TaskView>, ParseError>(tasks),
    ensures
        forall|i: int| 0 <= i < tasks.len() ==> well_formed_task(#[trigger] tasks[i]),
    decreases lines.len() - from,
{
    if from >= lines.len() {
    } else if !is_task_heading(lines[from]) {
        lemma_tasks_shape(lines, from + 1, tasks);
    } else {
        lemma_block_end(lines, from + 1);
        let end = block_end(lines, from + 1);
        let block = lines.subrange(from, end);
        let t = task_of(block)->Ok_0;
        let rest = tasks_from(lines, end)->Ok_0;
        assert forall|i: int| 0 <= i < block.len() implies lacks(#[trigger] block[i], '\n') by {
            assert(block[i] == lines[from + i]);
        }
        assert forall|i: int| 1 <= i < block.len() implies !is_task_heading(
            #[trigger] block[i],
        ) by {
            assert(block[i] == lines[from + i]);
        }
        lemma_task_shape(block, t);
        lemma_tasks_shape(lines, end, rest);
        assert(tasks == seq![t] + rest);
        assert forall|i: int| 0 <= i < tasks.len() implies well_formed_task(#[trigger] tasks[i]) by {
            if i > 0 {
                assert(tasks[i] == rest[i - 1]);
            }
        }
    }
}

/// The members read from lines without line feed are well formed.
pub proof fn lemma_members_shape(
    lines: Seq<Seq<char>>,
    from: int,
    to: int,
    team: Seq<MemberView>,
)
    requires
        are_lines(lines),
        0 <= from,
        to <= lines.len(),
        members_from(lines, from, to) == Ok::<Seq<MemberView>, ParseError>(team),
    ensures
        forall|i: int| 0 <= i < team.len() ==> well_formed_member(#[trigger] team[i]),
    decreases to - from,
{
    if from >= to || from >= lines.len() {
    } else if super::grammar::is_bulleted(lines[from]) {
        match member_of(trim(lines[from])) {
            Err(e) => {},
            Ok(None) => {
                lemma_members_shape(lines, from + 1, to, team);
            },
            Ok(Some(m)) => {
                let rest = members_from(lines, from + 1, to)->Ok_0;
                lemma_lacks_trim(lines[from], '\n');
                lemma_member_shape(trim(lines[from]), m);
                lemma_members_shape(lines, from + 1, to, rest);
                assert(team == seq![m] + rest);
                assert forall|i: int| 0 <= i < team.len() implies well_formed_member(
                    #[trigger] team[i],
                ) by {
                    if i > 0 {
                        assert(team[i] == rest[i - 1]);
                    }
                }
            },
        }
    } else {
        lemma_members_shape(lines, from + 1, to, team);
    }
}

/// A line ends the header whether or not it ends with a carriage return.
pub proof fn lemma_ends_header_strip_cr(line: Seq<char>)
    ensures
        ends_header(strip_cr(line)) == ends_header(line),
{
    lemma_trim_of_strip_cr(line);
}

/// The header made of lines of which none ends the header is well formed.
pub proof fn lemma_header_shape(lines: Seq<Seq<char>>)
    requires
        are_lines(lines),
        forall|i: int| 0 <= i < lines.len() ==> !ends_header(#[trigger] lines[i]),
    ensures
        well_formed_header(unlines(lines)),
{
    let header = unlines(lines);
    lemma_lines_of_unlines(lines, Seq::empty());
    assert(header + Seq::<char>::empty() == header);
    assert(lines_of(Seq::<char>::empty()) == Seq::<Seq<char>>::empty());
    assert(strip_all(lines) + Seq::<Seq<char>>::empty() == strip_all(lines));
    assert forall|i: int| 0 <= i < lines_of(header).len() implies !ends_header(
        #[trigger] lines_of(header)[i],
    ) by {
        assert(lines_of(header)[i] == strip_cr(lines[i]));
        lemma_ends_header_strip_cr(lines[i]);
    }
}

/// Every document that the parser gives is well formed.
pub proof fn lemma_parsed_is_well_formed(text: Seq<char>, d: DocView)
    requires
        document_of(text) == Ok::<DocView, ParseError>(d),
    ensures
        well_formed(d),
{
    let lines = lines_of(text);
    lemma_lines_are_lines(text);
    lemma_header_end(lines, 0);
    let h = header_end(lines, 0);
    let head = lines.take(h);
    assert forall|i: int| 0 <= i < head.len() implies lacks(#[trigger] head[i], '\n')
        && !ends_header(head[i]) by {
        assert(head[i] == lines[i]);
    }
    lemma_header_shape(head);
    let has_team = h < lines.len() && super::grammar::is_team_header(lines[h]);
    if has_team {
        lemma_section_end(lines, h + 1);
        lemma_members_shape(lines, h + 1, section_end(lines, h + 1), d.team);
    }
    let t = if has_team {
        section_end(lines, h + 1)
    } else {
        h
    };
    if 0 <= t < lines.len() && super::grammar::is_tasks_header(lines[t]) {
        lemma_tasks_shape(lines, t + 1, d.tasks);
    }
}

} // verus!
