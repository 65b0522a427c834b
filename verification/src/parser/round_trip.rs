//! Reading back what was written.
//!
//! A well-formed document that is written and read again comes back with
//! the same team and the same tasks, unless one of two things stands in the
//! way: a member whose name begins like a bullet, or a body with a line
//! that ends in a carriage return.

use super::grammar::{
    block_end, body_lines, body_of, body_text, document_of, document_of_lines, document_text,
    ends_header, header_end, heading_of, heading_text, is_bulleted, is_property, is_section,
    is_task_heading, is_tasks_header, is_team_header, latch, member_of, member_text, members_from,
    members_text, properties_of, properties_text, property_block_text, property_of, property_text,
    role_of, section_end, task_of, task_text, tasks_from, tasks_text, team_text, unbulleted,
    HeadingView,
};
use super::shape::{
    lemma_empty_is_quiet, lemma_parsed_is_well_formed, quiet, well_formed, well_formed_body,
    well_formed_member, well_formed_property, well_formed_task,
};
use crate::domain::document::DocView;
use crate::domain::property::PropertyView;
use crate::domain::task::TaskView;
use crate::domain::task_type::token_of_type;
use crate::domain::team::MemberView;
use crate::error::{ParseError, ParseErrorKind, ValidationError};
use crate::text::facts::{
    all_whitespace, are_lines, lacks, lemma_join_first, lemma_join_of_split,
    lemma_join_then_newline, lemma_lines_of_concat, lemma_lines_of_unlines, lemma_position_concat,
    lemma_strip_prefix_concat, lemma_trim_of_trimmed, lemma_trim_padded, lemma_unlines_concat,
    lemma_whitespace_position_concat, no_whitespace, strip_all,
};
use crate::text::{
    decimal, is_ascii, is_digit, is_trimmed, is_uppercase, is_whitespace, join_lines,
    lemma_parse_decimal, lines_of, parse_u32, position, split_on, starts_with, strip_cr,
    strip_prefixes, to_uppercase, trim, trim_start, unlines, whitespace_position,
};
use vstd::prelude::*;

verus! {

// ---------------------------------------------------------------------------
// What stands in the way
// ---------------------------------------------------------------------------

/// Whether a name, written after a bullet, would be taken for another
/// bullet: followed by a space, it begins with `* ` or `- `.
pub open spec fn begins_like_bullet(name: Seq<char>) -> bool {
    starts_with(name.push(' '), "* "@) || starts_with(name.push(' '), "- "@)
}

/// Whether no line of a body ends with a carriage return.
pub open spec fn without_carriage_returns(body: Seq<char>) -> bool {
    forall|i: int|
        0 <= i < split_on(body, '\n').len() ==> strip_cr(#[trigger] split_on(body, '\n')[i])
            == split_on(body, '\n')[i]
}

/// Whether a task reads back as it was written: no line of its body ends
/// with a carriage return.
pub open spec fn task_reads_back(t: TaskView) -> bool {
    without_carriage_returns(t.body)
}

/// Whether the team and the tasks of a document read back as they were
/// written: no name begins like a bullet, and no line of a body ends with a
/// carriage return.
pub open spec fn reads_back(d: DocView) -> bool {
    &&& forall|i: int| 0 <= i < d.team.len() ==> !begins_like_bullet((#[trigger] d.team[i]).name)
    &&& forall|i: int| 0 <= i < d.tasks.len() ==> task_reads_back(#[trigger] d.tasks[i])
}

// ---------------------------------------------------------------------------
// The lines of a written document
// ---------------------------------------------------------------------------

/// What follows the address on the line of a member.
pub open spec fn role_suffix(role: Option<Seq<char>>) -> Seq<char> {
    match role {
        Some(r) => " - "@ + r,
        None => Seq::empty(),
    }
}

/// The line of a member, without its line feed.
pub open spec fn member_line(m: MemberView) -> Seq<char> {
    "* "@ + m.name + " <"@ + m.email + ">"@ + role_suffix(m.role)
}

/// The lines of the members.
pub open spec fn member_lines(team: Seq<MemberView>) -> Seq<Seq<char>> {
    Seq::new(team.len(), |i: int| member_line(team[i]))
}

/// The lines of the team section.
pub open spec fn team_lines(team: Seq<MemberView>) -> Seq<Seq<char>> {
    if team.len() == 0 {
        Seq::empty()
    } else {
        seq!["## Team"@, Seq::empty()] + member_lines(team) + seq![Seq::empty()]
    }
}

/// The heading line of a task, without its line feed.
pub open spec fn heading_line(t: TaskView) -> Seq<char> {
    "### "@ + token_of_type(t.task_type) + " "@ + decimal(t.id) + " - "@ + t.subject
}

/// The line of a property, without its line feed.
pub open spec fn property_line(p: PropertyView) -> Seq<char> {
    p.key + ": "@ + p.value
}

/// The lines of the properties.
pub open spec fn property_lines(props: Seq<PropertyView>) -> Seq<Seq<char>> {
    Seq::new(props.len(), |i: int| property_line(props[i]))
}

/// The lines of the body of a task, after a blank one.
pub open spec fn body_block(t: TaskView) -> Seq<Seq<char>> {
    if t.body.len() == 0 {
        Seq::empty()
    } else {
        seq![Seq::empty()] + split_on(t.body, '\n')
    }
}

/// The lines of the properties of a task, after a blank one if there is a
/// body.
pub open spec fn property_block(t: TaskView) -> Seq<Seq<char>> {
    if t.properties.len() == 0 {
        Seq::empty()
    } else if t.body.len() == 0 {
        property_lines(t.properties)
    } else {
        seq![Seq::empty()] + property_lines(t.properties)
    }
}

/// The lines of the block of a task.
pub open spec fn task_lines(t: TaskView) -> Seq<Seq<char>> {
    seq![heading_line(t)] + body_block(t) + property_block(t) + seq![Seq::empty()]
}

/// The lines of the blocks of the tasks.
pub open spec fn tasks_lines(tasks: Seq<TaskView>) -> Seq<Seq<char>>
    decreases tasks.len(),
{
    if tasks.len() == 0 {
        Seq::empty()
    } else {
        task_lines(tasks[0]) + tasks_lines(tasks.skip(1))
    }
}

/// The lines of a written document after its header.
pub open spec fn section_lines(d: DocView) -> Seq<Seq<char>> {
    team_lines(d.team) + seq!["## Tasks"@, Seq::empty()] + tasks_lines(d.tasks)
}

/// Writing one line.
proof fn lemma_unlines_one(line: Seq<char>)
    ensures
        unlines(seq![line]) == line + seq!['\n'],
{
    let s = seq![line];
    assert(s.drop_last() == Seq::<Seq<char>>::empty());
    assert(unlines(s.drop_last()) == Seq::<char>::empty());
    assert(Seq::<char>::empty() + line == line);
}

/// The character of the literal that ends a line.
proof fn lemma_newline_literal()
    ensures
        "\n"@ == seq!['\n'],
{
    reveal_strlit("\n");
    assert("\n"@ =~= seq!['\n']);
}

/// The members, written, are their lines.
proof fn lemma_members_text(team: Seq<MemberView>)
    ensures
        members_text(team) == unlines(member_lines(team)),
    decreases team.len(),
{
    if team.len() > 0 {
        lemma_members_text(team.drop_last());
        lemma_newline_literal();
        assert(member_lines(team).drop_last() == member_lines(team.drop_last()));
        assert(member_lines(team).last() == member_line(team.last()));
        assert(member_text(team.last()) == member_line(team.last()) + seq!['\n']);
        assert(unlines(member_lines(team.drop_last())) + (member_line(team.last()) + seq!['\n'])
            == unlines(member_lines(team.drop_last())) + member_line(team.last()) + seq!['\n']);
    } else {
        assert(member_lines(team) == Seq::<Seq<char>>::empty());
    }
}

/// The team section, written, is its lines.
proof fn lemma_team_text(team: Seq<MemberView>)
    ensures
        team_text(team) == unlines(team_lines(team)),
{
    if team.len() > 0 {
        lemma_members_text(team);
        lemma_newline_literal();
        reveal_strlit("## Team\n\n");
        reveal_strlit("## Team");
        let e = Seq::<char>::empty();
        let head = seq!["## Team"@, e];
        lemma_unlines_one("## Team"@);
        assert(head.drop_last() == seq!["## Team"@]);
        assert(unlines(head) == "## Team"@ + seq!['\n'] + e + seq!['\n']);
        assert(unlines(head) == "## Team\n\n"@);
        lemma_unlines_one(e);
        assert(unlines(seq![e]) == "\n"@);
        lemma_unlines_concat(head, member_lines(team));
        lemma_unlines_concat(head + member_lines(team), seq![e]);
    } else {
        assert(unlines(team_lines(team)) == Seq::<char>::empty());
    }
}

/// The properties, written, are their lines.
proof fn lemma_properties_text(props: Seq<PropertyView>)
    ensures
        properties_text(props) == unlines(property_lines(props)),
    decreases props.len(),
{
    if props.len() > 0 {
        lemma_properties_text(props.drop_last());
        lemma_newline_literal();
        assert(property_lines(props).drop_last() == property_lines(props.drop_last()));
        assert(property_lines(props).last() == property_line(props.last()));
        assert(property_text(props.last()) == property_line(props.last()) + seq!['\n']);
        assert(unlines(property_lines(props.drop_last())) + (property_line(props.last()) + seq![
            '\n',
        ]) == unlines(property_lines(props.drop_last())) + property_line(props.last()) + seq![
            '\n',
        ]);
    } else {
        assert(property_lines(props) == Seq::<Seq<char>>::empty());
    }
}

/// The block of a task with a trimmed body, written, is its lines.
proof fn lemma_task_text(t: TaskView)
    requires
        is_trimmed(t.body),
    ensures
        task_text(t) == unlines(task_lines(t)),
{
    let e = Seq::<char>::empty();
    let nl = seq!['\n'];
    lemma_newline_literal();
    lemma_unlines_one(e);
    assert(e + nl == nl);
    lemma_unlines_one(heading_line(t));
    assert(heading_text(t) == heading_line(t) + nl);
    assert(body_text(t) == unlines(body_block(t))) by {
        if t.body.len() > 0 {
            lemma_trim_of_trimmed(t.body);
            lemma_join_of_split(t.body);
            lemma_join_then_newline(split_on(t.body, '\n'));
            lemma_unlines_concat(seq![e], split_on(t.body, '\n'));
            assert(nl + t.body + nl == nl + (t.body + nl));
        } else {
            assert(unlines(body_block(t)) == e);
        }
    }
    assert(property_block_text(t) == unlines(property_block(t))) by {
        lemma_properties_text(t.properties);
        if t.properties.len() == 0 {
            assert(unlines(property_block(t)) == e);
        } else if t.body.len() > 0 {
            lemma_unlines_concat(seq![e], property_lines(t.properties));
        }
    }
    lemma_unlines_concat(seq![heading_line(t)], body_block(t));
    lemma_unlines_concat(seq![heading_line(t)] + body_block(t), property_block(t));
    lemma_unlines_concat(seq![heading_line(t)] + body_block(t) + property_block(t), seq![e]);
}

/// The lines of tasks end with the lines of the last task.
proof fn lemma_tasks_lines_last(tasks: Seq<TaskView>)
    requires
        tasks.len() > 0,
    ensures
        tasks_lines(tasks) == tasks_lines(tasks.drop_last()) + task_lines(tasks.last()),
    decreases tasks.len(),
{
    if tasks.len() == 1 {
        assert(tasks.skip(1) == Seq::<TaskView>::empty());
        assert(tasks.drop_last() == Seq::<TaskView>::empty());
        assert(tasks_lines(tasks.skip(1)) == Seq::<Seq<char>>::empty());
        assert(task_lines(tasks[0]) + Seq::<Seq<char>>::empty() == task_lines(tasks[0]));
        assert(Seq::<Seq<char>>::empty() + task_lines(tasks[0]) == task_lines(tasks[0]));
    } else {
        let rest = tasks.skip(1);
        lemma_tasks_lines_last(rest);
        assert(rest.drop_last() == tasks.drop_last().skip(1));
        assert(rest.last() == tasks.last());
        assert(tasks.drop_last()[0] == tasks[0]);
        assert(task_lines(tasks[0]) + (tasks_lines(rest.drop_last()) + task_lines(rest.last()))
            == task_lines(tasks[0]) + tasks_lines(rest.drop_last()) + task_lines(rest.last()));
    }
}

/// The blocks of tasks with trimmed bodies, written, are their lines.
proof fn lemma_tasks_text(tasks: Seq<TaskView>)
    requires
        forall|i: int| 0 <= i < tasks.len() ==> is_trimmed((#[trigger] tasks[i]).body),
    ensures
        tasks_text(tasks) == unlines(tasks_lines(tasks)),
    decreases tasks.len(),
{
    if tasks.len() > 0 {
        let init = tasks.drop_last();
        assert forall|i: int| 0 <= i < init.len() implies is_trimmed((#[trigger] init[i]).body) by {
            assert(init[i] == tasks[i]);
        }
        lemma_tasks_text(init);
        assert(is_trimmed(tasks[tasks.len() - 1].body));
        lemma_task_text(tasks.last());
        lemma_tasks_lines_last(tasks);
        lemma_unlines_concat(tasks_lines(init), task_lines(tasks.last()));
    } else {
        assert(unlines(tasks_lines(tasks)) == Seq::<char>::empty());
    }
}

/// A document with trimmed bodies, written, is its header followed by the
/// lines of its sections.
pub proof fn lemma_document_text(d: DocView)
    requires
        forall|i: int| 0 <= i < d.tasks.len() ==> is_trimmed((#[trigger] d.tasks[i]).body),
    ensures
        document_text(d) == d.header + unlines(section_lines(d)),
{
    lemma_team_text(d.team);
    lemma_tasks_text(d.tasks);
    lemma_newline_literal();
    reveal_strlit("## Tasks\n\n");
    reveal_strlit("## Tasks");
    let e = Seq::<char>::empty();
    let mid = seq!["## Tasks"@, e];
    lemma_unlines_one("## Tasks"@);
    assert(mid.drop_last() == seq!["## Tasks"@]);
    assert(unlines(mid) == "## Tasks"@ + seq!['\n'] + e + seq!['\n']);
    assert(unlines(mid) == "## Tasks\n\n"@);
    lemma_unlines_concat(team_lines(d.team), mid);
    lemma_unlines_concat(team_lines(d.team) + mid, tasks_lines(d.tasks));
    assert(d.header + team_text(d.team) + "## Tasks\n\n"@ + tasks_text(d.tasks) == d.header + (
    unlines(team_lines(d.team)) + unlines(mid) + unlines(tasks_lines(d.tasks))));
}

// ---------------------------------------------------------------------------
// Literals
// ---------------------------------------------------------------------------

/// The characters of the literals of the grammar.
proof fn lemma_literals()
    ensures
        "* "@ == seq!['*', ' '],
        "- "@ == seq!['-', ' '],
        " <"@ == seq![' ', '<'],
        ">"@ == seq!['>'],
        " - "@ == seq![' ', '-', ' '],
        "### "@ == seq!['#', '#', '#', ' '],
        "## "@ == seq!['#', '#', ' '],
        " "@ == seq![' '],
        ": "@ == seq![':', ' '],
{
    reveal_strlit("* ");
    reveal_strlit("- ");
    reveal_strlit(" <");
    reveal_strlit(">");
    reveal_strlit(" - ");
    reveal_strlit("### ");
    reveal_strlit("## ");
    reveal_strlit(" ");
    reveal_strlit(": ");
    assert("* "@ =~= seq!['*', ' ']);
    assert("- "@ =~= seq!['-', ' ']);
    assert(" <"@ =~= seq![' ', '<']);
    assert(">"@ =~= seq!['>']);
    assert(" - "@ =~= seq![' ', '-', ' ']);
    assert("### "@ =~= seq!['#', '#', '#', ' ']);
    assert("## "@ =~= seq!['#', '#', ' ']);
    assert(" "@ =~= seq![' ']);
    assert(": "@ =~= seq![':', ' ']);
}

/// A text of one space is white space.
proof fn lemma_space_is_whitespace()
    ensures
        all_whitespace(seq![' ']),
        all_whitespace(Seq::<char>::empty()),
{
    let s = seq![' '];
    assert forall|i: int| 0 <= i < s.len() implies is_whitespace(#[trigger] s[i]) by {}
}

// ---------------------------------------------------------------------------
// Reading the line of a member
// ---------------------------------------------------------------------------

/// What stands behind the address of a member once the line is trimmed.
pub open spec fn trimmed_role(role: Option<Seq<char>>) -> Seq<char> {
    match role {
        Some(r) => if r.len() == 0 {
            seq![' ', '-']
        } else {
            seq![' ', '-', ' '] + r
        },
        None => Seq::<char>::empty(),
    }
}

/// The trimmed line of a member without its bullet.
pub open spec fn member_rest(m: MemberView) -> Seq<char> {
    m.name + seq![' ', '<'] + m.email + seq!['>'] + trimmed_role(m.role)
}

/// The role that the written role gives.
proof fn lemma_role_of_suffix(role: Option<Seq<char>>)
    requires
        role matches Some(r) ==> is_trimmed(r),
    ensures
        role_of(trimmed_role(role)) == role,
{
    lemma_space_is_whitespace();
    let e = Seq::<char>::empty();
    let tail = trimmed_role(role);
    match role {
        None => {
            assert(trim(e) == e);
        },
        Some(r) => {
            let sp = seq![' '];
            if r.len() == 0 {
                let dash = seq!['-'];
                assert(tail == sp + dash + e);
                lemma_trim_padded(sp, dash, e);
                assert(dash.skip(1) == e);
                assert(trim(e) == e);
                assert(r == e);
            } else {
                let core = seq!['-', ' '] + r;
                assert(tail == sp + core + e);
                assert(core.last() == r.last());
                lemma_trim_padded(sp, core, e);
                assert(core.skip(1) == sp + r + e);
                lemma_trim_padded(sp, r, e);
            }
        },
    }
}

/// The line of a member, trimmed, is its bullet and the rest.
proof fn lemma_member_line_trimmed(m: MemberView)
    requires
        m.role matches Some(r) ==> is_trimmed(r),
    ensures
        trim(member_line(m)) == seq!['*', ' '] + member_rest(m),
        member_line(m).len() > 0,
        member_line(m).last() != '\r',
{
    lemma_literals();
    lemma_space_is_whitespace();
    let e = Seq::<char>::empty();
    let sp = seq![' '];
    let line = member_line(m);
    let rest = member_rest(m);
    let kept = seq!['*', ' '] + rest;
    let pad = match m.role {
        Some(r) => if r.len() == 0 {
            sp
        } else {
            e
        },
        None => e,
    };
    assert(line == e + kept + pad);
    assert(kept[0] == '*');
    assert(kept.last() == rest.last());
    match m.role {
        Some(r) => {
            if r.len() == 0 {
                assert(rest.last() == '-');
            } else {
                assert(rest.last() == r.last());
            }
        },
        None => {
            assert(rest.last() == '>');
        },
    }
    lemma_trim_padded(e, kept, pad);
    assert(line.last() == if pad.len() > 0 {
        ' '
    } else {
        kept.last()
    });
}

/// A text that follows a name which does not begin like a bullet has no
/// bullet to lose.
proof fn lemma_no_bullet(name: Seq<char>, rest: Seq<char>, tail: Seq<char>)
    requires
        !begins_like_bullet(name),
        rest == name + seq![' ', '<'] + tail,
    ensures
        unbulleted(seq!['*', ' '] + rest) == rest,
{
    lemma_literals();
    let bullet = seq!['*', ' '];
    let dash_bullet = seq!['-', ' '];
    let named = name.push(' ');
    let tl = bullet + rest;
    assert(tl.take(2) == bullet);
    assert(tl.skip(2) == rest);
    assert(!starts_with(rest, bullet)) by {
        if starts_with(rest, bullet) {
            assert(rest.take(2)[0] == '*');
            assert(rest.take(2)[1] == ' ');
            assert(rest[0] == '*');
            assert(name.len() >= 1);
            assert(named[0] == rest[0]);
            assert(named[1] == rest[1]);
            assert(named.take(2) == bullet);
        }
    }
    assert(!starts_with(rest, dash_bullet)) by {
        if starts_with(rest, dash_bullet) {
            assert(rest.take(2)[0] == '-');
            assert(rest.take(2)[1] == ' ');
            assert(rest[0] == '-');
            assert(name.len() >= 1);
            assert(named[0] == rest[0]);
            assert(named[1] == rest[1]);
            assert(named.take(2) == dash_bullet);
        }
    }
    assert(strip_prefixes(rest, bullet) == rest);
    assert(strip_prefixes(tl, bullet) == strip_prefixes(rest, bullet));
    assert(strip_prefixes(rest, dash_bullet) == rest);
}

/// The rest of the line of a well-formed member gives that member.
proof fn lemma_member_of_rest(m: MemberView, tl: Seq<char>)
    requires
        well_formed_member(m),
        unbulleted(tl) == member_rest(m),
    ensures
        member_of(tl) == Ok::<Option<MemberView>, ValidationError>(Some(m)),
{
    lemma_space_is_whitespace();
    let e = Seq::<char>::empty();
    let sp = seq![' '];
    let rest = member_rest(m);
    let tail = trimmed_role(m.role);
    let before = m.name + sp;
    let after = m.email + seq!['>'] + tail;
    assert(rest == before + seq!['<'] + after);
    assert(lacks(before, '<')) by {
        assert forall|i: int| 0 <= i < before.len() implies before[i] != '<' by {
            if i < m.name.len() {
                assert(before[i] == m.name[i]);
            }
        }
    }
    lemma_position_concat(before, '<', after);
    let lt = position(rest, '<');
    assert(rest.take(lt) == e + m.name + sp);
    lemma_trim_padded(e, m.name, sp);
    assert(rest.skip(lt + 1) == after);
    lemma_position_concat(m.email, '>', tail);
    let gt = position(after, '>');
    assert(after.take(gt) == m.email);
    lemma_trim_of_trimmed(m.email);
    assert(after.skip(gt + 1) == tail);
    lemma_role_of_suffix(m.role);
}

/// The line of a well-formed member holds no line feed.
proof fn lemma_member_line_lacks(m: MemberView)
    requires
        well_formed_member(m),
    ensures
        lacks(member_line(m), '\n'),
{
    lemma_literals();
    let line = member_line(m);
    let a = seq!['*', ' '] + m.name;
    let b = a + seq![' ', '<'];
    let c = b + m.email;
    let d = c + seq!['>'];
    assert(line == d + role_suffix(m.role));
    assert forall|i: int| 0 <= i < line.len() implies line[i] != '\n' by {
        if i < a.len() {
            if i >= 2 {
                assert(line[i] == m.name[i - 2]);
            }
        } else if i < b.len() {
        } else if i < c.len() {
            assert(line[i] == m.email[i - b.len()]);
        } else if i < d.len() {
        } else {
            match m.role {
                Some(r) => {
                    if i - d.len() >= 3 {
                        assert(line[i] == r[i - d.len() - 3]);
                    }
                },
                None => {},
            }
        }
    }
}

/// The line of a well-formed member whose name does not begin like a
/// bullet gives that member when it is read.
proof fn lemma_member_line(m: MemberView)
    requires
        well_formed_member(m),
        !begins_like_bullet(m.name),
    ensures
        is_bulleted(member_line(m)),
        !is_section(member_line(m)),
        member_of(trim(member_line(m))) == Ok::<Option<MemberView>, ValidationError>(Some(m)),
        lacks(member_line(m), '\n'),
        strip_cr(member_line(m)) == member_line(m),
{
    lemma_literals();
    lemma_member_line_trimmed(m);
    lemma_member_line_lacks(m);
    let rest = member_rest(m);
    let tl = trim(member_line(m));
    assert(tl.take(2) == seq!['*', ' ']);
    assert(tl.take(3)[0] == '*');
    let behind = m.email + seq!['>'] + trimmed_role(m.role);
    assert(rest == m.name + seq![' ', '<'] + behind);
    lemma_no_bullet(m.name, rest, behind);
    lemma_member_of_rest(m, tl);
}

// ---------------------------------------------------------------------------
// Reading the line of a property
// ---------------------------------------------------------------------------

/// The value of a property as it stands behind the colon once the line is
/// trimmed.
pub open spec fn trimmed_value(value: Seq<char>) -> Seq<char> {
    if value.len() == 0 {
        value
    } else {
        seq![' '] + value
    }
}

/// The line of a property, trimmed, is its key, a colon, and its value.
proof fn lemma_property_line_trimmed(p: PropertyView)
    requires
        well_formed_property(p),
    ensures
        trim(property_line(p)) == p.key + seq![':'] + trimmed_value(p.value),
        property_line(p).len() > 0,
        property_line(p).last() != '\r',
{
    lemma_literals();
    lemma_space_is_whitespace();
    let e = Seq::<char>::empty();
    let line = property_line(p);
    let kept = p.key + seq![':'] + trimmed_value(p.value);
    let pad = if p.value.len() == 0 {
        seq![' ']
    } else {
        e
    };
    assert(line == e + kept + pad);
    assert(kept[0] == p.key[0]);
    if p.value.len() == 0 {
        assert(kept.last() == ':');
    } else {
        assert(kept.last() == p.value.last());
    }
    lemma_trim_padded(e, kept, pad);
    assert(line.last() == if pad.len() > 0 {
        ' '
    } else {
        kept.last()
    });
}

/// The line of a well-formed property gives that property when it is read,
/// and begins no task.
proof fn lemma_property_line(p: PropertyView)
    requires
        well_formed_property(p),
    ensures
        property_of(trim(property_line(p))) == Some(p),
        is_property(property_line(p)),
        !is_task_heading(property_line(p)),
        lacks(property_line(p), '\n'),
        strip_cr(property_line(p)) == property_line(p),
{
    lemma_literals();
    lemma_space_is_whitespace();
    lemma_property_line_trimmed(p);
    let e = Seq::<char>::empty();
    let tl = trim(property_line(p));
    let behind = trimmed_value(p.value);
    lemma_position_concat(p.key, ':', behind);
    let c = position(tl, ':');
    assert(tl.take(c) == p.key);
    lemma_trim_of_trimmed(p.key);
    assert(tl.skip(c + 1) == behind);
    if p.value.len() == 0 {
        lemma_trim_of_trimmed(behind);
    } else {
        assert(behind == seq![' '] + p.value + e);
        lemma_trim_padded(seq![' '], p.value, e);
    }
    assert(tl[0] == p.key[0]);
    assert(!is_uppercase('#'));
    assert(!starts_with(tl, seq!['#', '#', '#', ' '])) by {
        if starts_with(tl, seq!['#', '#', '#', ' ']) {
            assert(tl.take(4)[0] == '#');
        }
    }
    let line = property_line(p);
    assert forall|i: int| 0 <= i < line.len() implies line[i] != '\n' by {
        let a = p.key + seq![':', ' '];
        assert(line == a + p.value);
        if i < p.key.len() {
            assert(line[i] == p.key[i]);
        } else if i < a.len() {
        } else {
            assert(line[i] == p.value[i - a.len()]);
        }
    }
}

// ---------------------------------------------------------------------------
// Reading the heading of a task
// ---------------------------------------------------------------------------

/// The heading of a task without its leading `### `.
pub open spec fn heading_rest(t: TaskView) -> Seq<char> {
    token_of_type(t.task_type) + seq![' '] + decimal(t.id) + seq![' ', '-', ' '] + t.subject
}

/// A written number holds no white space.
proof fn lemma_decimal_no_whitespace(n: nat)
    requires
        n <= u32::MAX,
    ensures
        no_whitespace(decimal(n)),
        lacks(decimal(n), '\n'),
        decimal(n).len() > 0,
        parse_u32(decimal(n)) == Some(n as u32),
{
    lemma_parse_decimal(n);
    let d = decimal(n);
    assert forall|i: int| 0 <= i < d.len() implies !is_whitespace(#[trigger] d[i]) && d[i]
        != '\n' by {
        assert(is_digit(d[i]));
    }
}

/// The heading of a task begins a task, holds no line feed, and ends with
/// no carriage return; what follows its `### ` begins with no white space.
proof fn lemma_heading_line_shape(t: TaskView)
    requires
        well_formed_task(t),
    ensures
        heading_line(t) == seq!['#', '#', '#', ' '] + heading_rest(t),
        heading_rest(t).len() > 0,
        !is_whitespace(heading_rest(t)[0]),
        is_task_heading(heading_line(t)),
        lacks(heading_line(t), '\n'),
        strip_cr(heading_line(t)) == heading_line(t),
{
    lemma_literals();
    lemma_space_is_whitespace();
    lemma_decimal_no_whitespace(t.id);
    let e = Seq::<char>::empty();
    let token = token_of_type(t.task_type);
    let line = heading_line(t);
    let rest = heading_rest(t);
    let mark = seq!['#', '#', '#', ' '];
    assert(line == mark + rest);
    assert(rest[0] == token[0]);
    let front = mark + token + seq![' '] + decimal(t.id) + seq![' ', '-'];
    let kept = if t.subject.len() == 0 {
        front
    } else {
        front + seq![' '] + t.subject
    };
    let pad = if t.subject.len() == 0 {
        seq![' ']
    } else {
        e
    };
    assert(line == e + kept + pad);
    assert(kept[0] == '#');
    if t.subject.len() == 0 {
        assert(kept.last() == '-');
        assert(line.last() == ' ');
    } else {
        assert(kept.last() == t.subject.last());
        assert(line.last() == t.subject.last());
    }
    lemma_trim_padded(e, kept, pad);
    assert(kept.take(4) == mark);
    assert forall|i: int| 0 <= i < line.len() implies line[i] != '\n' by {
        let a = mark + token;
        let b = a + seq![' '];
        let c = b + decimal(t.id);
        let d = c + seq![' ', '-', ' '];
        assert(line == d + t.subject);
        if i < mark.len() {
        } else if i < a.len() {
            assert(line[i] == token[i - 4]);
            assert(!is_whitespace(token[i - 4]));
        } else if i < b.len() {
        } else if i < c.len() {
            assert(line[i] == decimal(t.id)[i - b.len()]);
        } else if i < d.len() {
        } else {
            assert(line[i] == t.subject[i - d.len()]);
        }
    }
}

/// The heading of a well-formed task gives the type, the identifier and
/// the subject of the task when it is read, whether or not the task has a
/// subject.
proof fn lemma_heading_line(t: TaskView)
    requires
        well_formed_task(t),
    ensures
        heading_of(heading_line(t)) == Ok::<HeadingView, ParseErrorKind>(
            HeadingView { task_type: t.task_type, id: t.id, subject: t.subject },
        ),
{
    lemma_literals();
    lemma_space_is_whitespace();
    lemma_heading_line_shape(t);
    lemma_decimal_no_whitespace(t.id);
    let token = token_of_type(t.task_type);
    let digits = decimal(t.id);
    let h = heading_rest(t);
    lemma_strip_prefix_concat(seq!['#', '#', '#', ' '], h);
    assert(trim_start(h) == h);
    let after_token = digits + seq![' ', '-', ' '] + t.subject;
    assert(h == token + seq![' '] + after_token);
    lemma_whitespace_position_concat(token, ' ', after_token);
    let type_end = whitespace_position(h);
    assert(h.take(type_end) == token);
    let rest = h.skip(type_end + 1);
    assert(rest == after_token);
    let after_digits = seq!['-', ' '] + t.subject;
    assert(rest == digits + seq![' '] + after_digits);
    lemma_whitespace_position_concat(digits, ' ', after_digits);
    let id_end = whitespace_position(rest);
    assert(rest.take(id_end) == digits);
    assert(rest.skip(id_end + 1) == after_digits);
    lemma_strip_prefix_concat(seq!['-', ' '], t.subject);
    lemma_trim_of_trimmed(t.subject);
}

// ---------------------------------------------------------------------------
// Reading the block of a task
// ---------------------------------------------------------------------------

/// The lines of a block between its heading and its latch.
pub open spec fn before_latch(t: TaskView) -> Seq<Seq<char>> {
    if t.body.len() > 0 {
        seq![Seq::empty()] + split_on(t.body, '\n') + seq![Seq::empty()]
    } else if t.properties.len() == 0 {
        seq![Seq::empty()]
    } else {
        Seq::empty()
    }
}

/// The lines of a block from its latch on.
pub open spec fn after_latch(t: TaskView) -> Seq<Seq<char>> {
    if t.properties.len() == 0 {
        Seq::empty()
    } else {
        property_lines(t.properties) + seq![Seq::empty()]
    }
}

/// The lines of a block are its heading, the lines before the latch, and
/// the lines after it.
proof fn lemma_task_lines_parts(t: TaskView)
    ensures
        task_lines(t) == seq![heading_line(t)] + before_latch(t) + after_latch(t),
{
    assert(task_lines(t) =~= seq![heading_line(t)] + before_latch(t) + after_latch(t));
}

/// The latch is where the first property stands.
proof fn lemma_latch_at(lines: Seq<Seq<char>>, from: int, k: int)
    requires
        0 <= from <= k <= lines.len(),
        forall|j: int| from <= j < k ==> !is_property(#[trigger] lines[j]),
        k < lines.len() ==> is_property(lines[k]),
    ensures
        latch(lines, from) == k,
    decreases k - from,
{
    if from < k {
        lemma_latch_at(lines, from + 1, k);
    }
}

/// A block ends where the next heading stands.
proof fn lemma_block_end_at(lines: Seq<Seq<char>>, from: int, k: int)
    requires
        0 <= from <= k <= lines.len(),
        forall|j: int| from <= j < k ==> !is_task_heading(#[trigger] lines[j]),
        k < lines.len() ==> is_task_heading(lines[k]),
    ensures
        block_end(lines, from) == k,
    decreases k - from,
{
    if from < k {
        lemma_block_end_at(lines, from + 1, k);
    }
}

/// The lines of well-formed properties give those properties.
proof fn lemma_properties_of_lines(props: Seq<PropertyView>)
    requires
        forall|i: int| 0 <= i < props.len() ==> well_formed_property(#[trigger] props[i]),
    ensures
        properties_of(property_lines(props)) == props,
    decreases props.len(),
{
    let lines = property_lines(props);
    if props.len() > 0 {
        let init = props.drop_last();
        assert forall|i: int| 0 <= i < init.len() implies well_formed_property(
            #[trigger] init[i],
        ) by {
            assert(init[i] == props[i]);
        }
        lemma_properties_of_lines(init);
        assert(lines.drop_last() == property_lines(init));
        assert(lines.last() == property_line(props.last()));
        assert(well_formed_property(props[props.len() - 1]));
        lemma_property_line(props.last());
        assert(init.push(props.last()) == props);
    } else {
        assert(lines.len() == 0);
    }
}

/// The lines from the latch on give the properties of the task.
proof fn lemma_after_latch(t: TaskView)
    requires
        forall|i: int|
            0 <= i < t.properties.len() ==> well_formed_property(#[trigger] t.properties[i]),
    ensures
        properties_of(after_latch(t)) == t.properties,
        after_latch(t).len() > 0 ==> is_property(after_latch(t)[0]),
        forall|i: int|
            0 <= i < after_latch(t).len() ==> !is_task_heading(#[trigger] after_latch(t)[i])
                && lacks(after_latch(t)[i], '\n') && strip_cr(after_latch(t)[i]) == after_latch(
                t,
            )[i],
{
    let lines = after_latch(t);
    lemma_empty_is_quiet();
    if t.properties.len() > 0 {
        let pl = property_lines(t.properties);
        lemma_properties_of_lines(t.properties);
        assert(lines.drop_last() == pl);
        assert(lines.last() == Seq::<char>::empty());
        assert(trim(Seq::<char>::empty()) == Seq::<char>::empty());
        assert(well_formed_property(t.properties[0]));
        lemma_property_line(t.properties[0]);
        assert(lines[0] == property_line(t.properties[0]));
        assert forall|i: int| 0 <= i < lines.len() implies !is_task_heading(#[trigger] lines[i])
            && lacks(lines[i], '\n') && strip_cr(lines[i]) == lines[i] by {
            if i < pl.len() {
                assert(lines[i] == property_line(t.properties[i]));
                assert(well_formed_property(t.properties[i]));
                lemma_property_line(t.properties[i]);
            }
        }
    } else {
        assert(properties_of(lines) == Seq::<PropertyView>::empty());
    }
}

/// The lines before the latch give the body of the task.
proof fn lemma_before_latch(t: TaskView)
    requires
        well_formed_body(t.body),
        without_carriage_returns(t.body),
    ensures
        body_of(before_latch(t)) == t.body,
        forall|i: int|
            0 <= i < before_latch(t).len() ==> quiet(#[trigger] before_latch(t)[i]) && strip_cr(
                before_latch(t)[i],
            ) == before_latch(t)[i],
{
    let lines = before_latch(t);
    let e = Seq::<char>::empty();
    let nl = seq!['\n'];
    lemma_empty_is_quiet();
    assert(trim(e) == e);
    if t.body.len() > 0 {
        let pieces = split_on(t.body, '\n');
        lemma_join_of_split(t.body);
        assert forall|i: int| 0 <= i < lines.len() implies quiet(#[trigger] lines[i])
            && strip_cr(lines[i]) == lines[i] by {
            if 1 <= i <= pieces.len() {
                assert(lines[i] == pieces[i - 1]);
            }
        }
        assert(body_lines(lines) == lines) by {
            assert forall|i: int| 0 <= i < lines.len() implies body_lines(lines)[i]
                == lines[i] by {
                assert(quiet(lines[i]));
            }
        }
        let front = seq![e] + pieces;
        assert(lines.drop_last() == front);
        assert(lines.last() == e);
        lemma_join_first(front);
        assert(front.skip(1) == pieces);
        assert(front[0] == e);
        assert(join_lines(lines) == join_lines(front) + nl + e);
        assert(join_lines(lines) == nl + t.body + nl);
        assert forall|i: int| 0 <= i < nl.len() implies is_whitespace(#[trigger] nl[i]) by {}
        lemma_trim_padded(nl, t.body, nl);
    } else if t.properties.len() == 0 {
        assert(body_lines(lines) == lines) by {
            assert forall|i: int| 0 <= i < lines.len() implies body_lines(lines)[i]
                == lines[i] by {
                assert(quiet(lines[i]));
            }
        }
        assert(join_lines(lines) == e);
        assert(t.body == e);
    } else {
        assert(body_lines(lines) == Seq::<Seq<char>>::empty());
        assert(join_lines(body_lines(lines)) == e);
        assert(t.body == e);
    }
}

/// The block of a well-formed task that reads back gives that task, and
/// is a block: it begins with a heading and holds no other.
proof fn lemma_task_block(t: TaskView)
    requires
        well_formed_task(t),
        task_reads_back(t),
    ensures
        task_of(task_lines(t)) == Ok::<TaskView, ParseErrorKind>(t),
        task_lines(t).len() >= 2,
        is_task_heading(task_lines(t)[0]),
        forall|i: int| 1 <= i < task_lines(t).len() ==> !is_task_heading(#[trigger] task_lines(t)[i]),
        are_lines(task_lines(t)),
        strip_all(task_lines(t)) == task_lines(t),
{
    let block = task_lines(t);
    let before = before_latch(t);
    let after = after_latch(t);
    lemma_task_lines_parts(t);
    lemma_heading_line_shape(t);
    lemma_heading_line(t);
    lemma_before_latch(t);
    lemma_after_latch(t);
    let k: int = 1 + before.len() as int;
    assert(block[0] == heading_line(t));
    assert forall|j: int| 1 <= j < block.len() implies !is_task_heading(#[trigger] block[j])
        && lacks(block[j], '\n') && strip_cr(block[j]) == block[j] && (j < k ==> !is_property(
        block[j],
    )) by {
        if j < k {
            assert(block[j] == before[j - 1]);
            assert(quiet(before[j - 1]));
        } else {
            assert(block[j] == after[j - k]);
        }
    }
    if k < block.len() {
        assert(block[k] == after[0]);
    }
    lemma_latch_at(block, 1, k);
    assert(block.subrange(1, k) == before);
    assert(block.subrange(k, block.len() as int) == after);
    assert(strip_all(block) == block) by {
        assert forall|j: int| 0 <= j < block.len() implies strip_all(block)[j] == block[j] by {}
    }
}

// ---------------------------------------------------------------------------
// Reading the tasks section
// ---------------------------------------------------------------------------

/// The lines of well-formed tasks that read back hold no line feed and
/// end with no carriage return, and begin with a heading.
proof fn lemma_tasks_lines_clean(tasks: Seq<TaskView>)
    requires
        forall|i: int|
            0 <= i < tasks.len() ==> well_formed_task(#[trigger] tasks[i]) && task_reads_back(
                tasks[i],
            ),
    ensures
        are_lines(tasks_lines(tasks)),
        strip_all(tasks_lines(tasks)) == tasks_lines(tasks),
        tasks.len() > 0 ==> tasks_lines(tasks).len() > 0 && is_task_heading(tasks_lines(tasks)[0]),
    decreases tasks.len(),
{
    let lines = tasks_lines(tasks);
    if tasks.len() > 0 {
        let rest = tasks.skip(1);
        assert forall|i: int| 0 <= i < rest.len() implies well_formed_task(#[trigger] rest[i])
            && task_reads_back(rest[i]) by {
            assert(rest[i] == tasks[i + 1]);
        }
        lemma_tasks_lines_clean(rest);
        assert(well_formed_task(tasks[0]) && task_reads_back(tasks[0]));
        lemma_task_block(tasks[0]);
        let block = task_lines(tasks[0]);
        let tail = tasks_lines(rest);
        assert(lines[0] == block[0]);
        assert forall|i: int| 0 <= i < lines.len() implies lacks(#[trigger] lines[i], '\n')
            && strip_cr(lines[i]) == lines[i] by {
            if i < block.len() {
                assert(lines[i] == block[i]);
                assert(strip_all(block)[i] == block[i]);
            } else {
                assert(lines[i] == tail[i - block.len()]);
                assert(strip_all(tail)[i - block.len()] == tail[i - block.len()]);
            }
        }
    }
    assert(strip_all(lines) == lines) by {
        assert forall|j: int| 0 <= j < lines.len() implies strip_all(lines)[j] == lines[j] by {}
    }
}

/// The lines of well-formed tasks that read back give those tasks.
proof fn lemma_tasks_from_lines(lines: Seq<Seq<char>>, from: int, tasks: Seq<TaskView>)
    requires
        0 <= from <= lines.len(),
        lines.skip(from) == tasks_lines(tasks),
        forall|i: int|
            0 <= i < tasks.len() ==> well_formed_task(#[trigger] tasks[i]) && task_reads_back(
                tasks[i],
            ),
    ensures
        tasks_from(lines, from) == Ok::<Seq<TaskView>, ParseError>(tasks),
    decreases tasks.len(),
{
    if tasks.len() == 0 {
        assert(lines.skip(from).len() == 0);
        assert(tasks == Seq::<TaskView>::empty());
    } else {
        let rest = tasks.skip(1);
        let block = task_lines(tasks[0]);
        let tail = tasks_lines(rest);
        assert forall|i: int| 0 <= i < rest.len() implies well_formed_task(#[trigger] rest[i])
            && task_reads_back(rest[i]) by {
            assert(rest[i] == tasks[i + 1]);
        }
        assert(well_formed_task(tasks[0]) && task_reads_back(tasks[0]));
        lemma_task_block(tasks[0]);
        lemma_tasks_lines_clean(rest);
        let end = from + block.len();
        assert(lines.skip(from).len() == block.len() + tail.len());
        assert forall|j: int| from <= j < end implies lines[j] == block[j - from] by {
            assert(lines.skip(from)[j - from] == lines[j]);
        }
        assert(lines[from] == block[0]);
        assert forall|j: int| from + 1 <= j < end implies !is_task_heading(#[trigger] lines[j]) by {
            assert(lines[j] == block[j - from]);
        }
        if end < lines.len() {
            assert(lines.skip(from)[end - from] == lines[end]);
            assert(lines[end] == tail[0]);
            assert(rest.len() > 0);
        }
        lemma_block_end_at(lines, from + 1, end);
        assert(lines.subrange(from, end) == block);
        assert(lines.skip(end) == tail) by {
            assert forall|j: int| 0 <= j < tail.len() implies lines.skip(end)[j] == tail[j] by {
                assert(lines.skip(from)[j + block.len()] == lines[from + j + block.len()]);
            }
        }
        lemma_tasks_from_lines(lines, end, rest);
        assert(seq![tasks[0]] + rest == tasks);
    }
}

// ---------------------------------------------------------------------------
// Reading the team section
// ---------------------------------------------------------------------------

/// The team section ends where the next section begins.
proof fn lemma_section_end_at(lines: Seq<Seq<char>>, from: int, k: int)
    requires
        0 <= from <= k <= lines.len(),
        forall|j: int| from <= j < k ==> !is_section(#[trigger] lines[j]),
        k < lines.len() ==> is_section(lines[k]),
    ensures
        section_end(lines, from) == k,
    decreases k - from,
{
    if from < k {
        lemma_section_end_at(lines, from + 1, k);
    }
}

/// The header ends where the first section of the document begins.
proof fn lemma_header_end_at(lines: Seq<Seq<char>>, from: int, k: int)
    requires
        0 <= from <= k <= lines.len(),
        forall|j: int| from <= j < k ==> !ends_header(#[trigger] lines[j]),
        k < lines.len() ==> ends_header(lines[k]),
    ensures
        header_end(lines, from) == k,
    decreases k - from,
{
    if from < k {
        lemma_header_end_at(lines, from + 1, k);
    }
}

/// The lines of well-formed members whose names do not begin like a
/// bullet, followed by a blank line, give those members.
proof fn lemma_members_from_lines(
    lines: Seq<Seq<char>>,
    from: int,
    to: int,
    team: Seq<MemberView>,
)
    requires
        0 <= from,
        to <= lines.len(),
        to == from + team.len() + 1,
        forall|i: int| 0 <= i < team.len() ==> #[trigger] lines[from + i] == member_line(team[i]),
        lines[to - 1] == Seq::<char>::empty(),
        forall|i: int|
            0 <= i < team.len() ==> well_formed_member(#[trigger] team[i]) && !begins_like_bullet(
                team[i].name,
            ),
    ensures
        members_from(lines, from, to) == Ok::<Seq<MemberView>, ParseError>(team),
    decreases team.len(),
{
    lemma_blank_line();
    if team.len() == 0 {
        assert(team == Seq::<MemberView>::empty());
        assert(members_from(lines, from + 1, to) == Ok::<Seq<MemberView>, ParseError>(
            Seq::empty(),
        ));
    } else {
        let rest = team.skip(1);
        assert(lines[from + 0] == member_line(team[0]));
        assert(well_formed_member(team[0]) && !begins_like_bullet(team[0].name));
        lemma_member_line(team[0]);
        assert forall|i: int| 0 <= i < rest.len() implies #[trigger] lines[from + 1 + i]
            == member_line(rest[i]) && well_formed_member(rest[i]) && !begins_like_bullet(
            rest[i].name,
        ) by {
            assert(rest[i] == team[i + 1]);
            assert(lines[from + (i + 1)] == member_line(team[i + 1]));
        }
        lemma_members_from_lines(lines, from + 1, to, rest);
        assert(seq![team[0]] + rest == team);
    }
}

/// The blank line is neither a section, nor bulleted, nor a heading, nor
/// the end of a header.
proof fn lemma_blank_line()
    ensures
        !is_section(Seq::<char>::empty()),
        !is_bulleted(Seq::<char>::empty()),
        !is_task_heading(Seq::<char>::empty()),
        lacks(Seq::<char>::empty(), '\n'),
        strip_cr(Seq::<char>::empty()) == Seq::<char>::empty(),
{
    lemma_literals();
    let e = Seq::<char>::empty();
    assert(trim(e) == e);
}

/// The two section lines that a document is written with are what they
/// say.
proof fn lemma_section_lines()
    ensures
        is_team_header("## Team"@),
        is_section("## Team"@),
        is_tasks_header("## Tasks"@),
        !is_team_header("## Tasks"@),
        is_section("## Tasks"@),
        lacks("## Team"@, '\n'),
        lacks("## Tasks"@, '\n'),
        strip_cr("## Team"@) == "## Team"@,
        strip_cr("## Tasks"@) == "## Tasks"@,
{
    lemma_literals();
    reveal_strlit("## Team");
    reveal_strlit("## Tasks");
    reveal_strlit("## TEAM");
    reveal_strlit("## TASKS");
    let team = "## Team"@;
    let tasks = "## Tasks"@;
    assert(team =~= seq!['#', '#', ' ', 'T', 'e', 'a', 'm']);
    assert(tasks =~= seq!['#', '#', ' ', 'T', 'a', 's', 'k', 's']);
    lemma_trim_of_trimmed(team);
    lemma_trim_of_trimmed(tasks);
    assert(is_ascii(team));
    assert(is_ascii(tasks));
    assert(to_uppercase(team) =~= seq!['#', '#', ' ', 'T', 'E', 'A', 'M']);
    assert(to_uppercase(tasks) =~= seq!['#', '#', ' ', 'T', 'A', 'S', 'K', 'S']);
    assert("## TEAM"@ =~= seq!['#', '#', ' ', 'T', 'E', 'A', 'M']);
    assert("## TASKS"@ =~= seq!['#', '#', ' ', 'T', 'A', 'S', 'K', 'S']);
    assert(to_uppercase(team).take(7) == "## TEAM"@);
    assert(to_uppercase(tasks).take(8) == "## TASKS"@);
    assert(to_uppercase(tasks).take(7)[4] == 'A');
    assert("## TEAM"@[4] == 'E');
    assert(team.take(3) == seq!['#', '#', ' ']);
    assert(tasks.take(3) == seq!['#', '#', ' ']);
}

// ---------------------------------------------------------------------------
// Reading a written document
// ---------------------------------------------------------------------------

/// Whether the members read back as they were written.
pub open spec fn team_reads_back(team: Seq<MemberView>) -> bool {
    forall|i: int|
        0 <= i < team.len() ==> well_formed_member(#[trigger] team[i]) && !begins_like_bullet(
            team[i].name,
        )
}

/// Whether the tasks read back as they were written.
pub open spec fn tasks_read_back(tasks: Seq<TaskView>) -> bool {
    forall|i: int|
        0 <= i < tasks.len() ==> well_formed_task(#[trigger] tasks[i]) && task_reads_back(
            tasks[i],
        )
}

/// The lines of the team section hold no line feed and end with no
/// carriage return; those after the first open no section.
proof fn lemma_team_lines_clean(team: Seq<MemberView>)
    requires
        team_reads_back(team),
    ensures
        are_lines(team_lines(team)),
        strip_all(team_lines(team)) == team_lines(team),
        forall|i: int| 1 <= i < team_lines(team).len() ==> !is_section(#[trigger] team_lines(team)[i]),
{
    let lines = team_lines(team);
    lemma_blank_line();
    lemma_section_lines();
    assert forall|i: int| 0 <= i < lines.len() implies lacks(#[trigger] lines[i], '\n')
        && strip_cr(lines[i]) == lines[i] && (i >= 1 ==> !is_section(lines[i])) by {
        if 2 <= i < 2 + team.len() {
            assert(lines[i] == member_line(team[i - 2]));
            assert(well_formed_member(team[i - 2]));
            lemma_member_line(team[i - 2]);
        }
    }
    assert(strip_all(lines) == lines) by {
        assert forall|j: int| 0 <= j < lines.len() implies strip_all(lines)[j] == lines[j] by {}
    }
}

/// The team section gives the team, and ends where the tasks begin.
proof fn lemma_read_team(lines: Seq<Seq<char>>, h: int, team: Seq<MemberView>)
    requires
        team.len() > 0,
        team_reads_back(team),
        0 <= h,
        h + team_lines(team).len() < lines.len(),
        lines.subrange(h, h + team_lines(team).len()) == team_lines(team),
        lines[h + team_lines(team).len()] == "## Tasks"@,
    ensures
        is_team_header(lines[h]),
        section_end(lines, h + 1) == h + team_lines(team).len(),
        members_from(lines, h + 1, h + team_lines(team).len()) == Ok::<
            Seq<MemberView>,
            ParseError,
        >(team),
{
    let tl = team_lines(team);
    let t = h + tl.len();
    lemma_blank_line();
    lemma_section_lines();
    lemma_team_lines_clean(team);
    assert forall|j: int| h <= j < t implies #[trigger] lines[j] == tl[j - h] by {
        assert(lines.subrange(h, t)[j - h] == lines[j]);
    }
    assert(lines[h] == tl[0]);
    assert forall|j: int| h + 1 <= j < t implies !is_section(#[trigger] lines[j]) by {
        assert(lines[j] == tl[j - h]);
    }
    lemma_section_end_at(lines, h + 1, t);
    assert(lines[h + 1] == tl[1]);
    assert(lines[t - 1] == tl[tl.len() - 1]);
    assert forall|i: int| 0 <= i < team.len() implies #[trigger] lines[h + 2 + i] == member_line(
        team[i],
    ) by {
        assert(lines[h + 2 + i] == tl[2 + i]);
    }
    lemma_members_from_lines(lines, h + 2, t, team);
}

/// The lines of a well-formed document that reads back, read again, give
/// its team and its tasks.
proof fn lemma_read_lines(d: DocView, head: Seq<Seq<char>>)
    requires
        team_reads_back(d.team),
        tasks_read_back(d.tasks),
        forall|i: int| 0 <= i < head.len() ==> !ends_header(#[trigger] head[i]),
    ensures
        document_of_lines(head + section_lines(d)) == Ok::<DocView, ParseError>(
            DocView { header: unlines(head), team: d.team, tasks: d.tasks },
        ),
{
    let tl = team_lines(d.team);
    let kl = tasks_lines(d.tasks);
    let mid = seq!["## Tasks"@, Seq::<char>::empty()];
    let lines = head + section_lines(d);
    let h = head.len() as int;
    let t = h + tl.len();
    lemma_blank_line();
    lemma_section_lines();
    assert(lines == head + tl + mid + kl);
    assert(lines.len() == h + tl.len() + 2 + kl.len());
    assert forall|j: int| 0 <= j < h implies !ends_header(#[trigger] lines[j]) by {
        assert(lines[j] == head[j]);
    }
    assert(lines[t] == mid[0]);
    assert(lines[t + 1] == mid[1]);
    if d.team.len() > 0 {
        assert(lines[h] == tl[0]);
        assert(tl[0] == "## Team"@);
    }
    lemma_header_end_at(lines, 0, h);
    assert(lines.take(h) == head);
    if d.team.len() > 0 {
        assert(lines.subrange(h, t) == tl);
        lemma_read_team(lines, h, d.team);
    } else {
        assert(tl.len() == 0);
        assert(d.team == Seq::<MemberView>::empty());
    }
    assert(lines.skip(t + 2) == kl);
    lemma_tasks_from_lines(lines, t + 2, d.tasks);
    assert(tasks_from(lines, t + 1) == tasks_from(lines, t + 2));
}

/// A well-formed document that is written and read again gives the same
/// team and the same tasks, unless a name begins like a bullet or a line
/// of a body ends with a carriage return. The header comes back line by
/// line, each without one trailing carriage return.
pub proof fn lemma_written_document_reads_back(d: DocView)
    requires
        well_formed(d),
        reads_back(d),
    ensures
        document_of(document_text(d)) == Ok::<DocView, ParseError>(
            DocView { header: unlines(lines_of(d.header)), team: d.team, tasks: d.tasks },
        ),
{
    let x = section_lines(d);
    let head = lines_of(d.header);
    assert(team_reads_back(d.team));
    assert(tasks_read_back(d.tasks));
    assert forall|i: int| 0 <= i < d.tasks.len() implies is_trimmed((#[trigger] d.tasks[i]).body) by {
        assert(well_formed_task(d.tasks[i]));
    }
    lemma_document_text(d);
    lemma_team_lines_clean(d.team);
    lemma_tasks_lines_clean(d.tasks);
    lemma_blank_line();
    lemma_section_lines();
    let tl = team_lines(d.team);
    let kl = tasks_lines(d.tasks);
    assert forall|i: int| 0 <= i < x.len() implies lacks(#[trigger] x[i], '\n') && strip_cr(
        x[i],
    ) == x[i] by {
        if i < tl.len() {
            assert(x[i] == tl[i]);
            assert(strip_all(tl)[i] == tl[i]);
        } else if i < tl.len() + 2 {
        } else {
            let k = i - tl.len() - 2;
            assert(x[i] == kl[k]);
            assert(strip_all(kl)[k] == kl[k]);
        }
    }
    assert(strip_all(x) == x) by {
        assert forall|j: int| 0 <= j < x.len() implies strip_all(x)[j] == x[j] by {}
    }
    lemma_lines_of_concat(d.header, unlines(x));
    lemma_lines_of_unlines(x, Seq::empty());
    assert(unlines(x) + Seq::<char>::empty() == unlines(x));
    assert(lines_of(Seq::<char>::empty()) == Seq::<Seq<char>>::empty());
    assert(x + Seq::<Seq<char>>::empty() == x);
    assert(lines_of(document_text(d)) == head + x);
    lemma_read_lines(d, head);
}

/// The round trip: a document that the parser gives, written and read
/// again, has the same team and the same tasks, unless a name begins like
/// a bullet or a line of a body ends with a carriage return.
pub proof fn lemma_round_trip(text: Seq<char>, d: DocView)
    requires
        document_of(text) == Ok::<DocView, ParseError>(d),
        reads_back(d),
    ensures
        document_of(document_text(d)) is Ok,
        document_of(document_text(d))->Ok_0.team == d.team,
        document_of(document_text(d))->Ok_0.tasks == d.tasks,
{
    lemma_parsed_is_well_formed(text, d);
    lemma_written_document_reads_back(d);
}

} // verus!
