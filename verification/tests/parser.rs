use frump::parser::grammar::{Latch, LineUse};
use frump::parser::{parse, parse_heading, parse_task, parse_team_member, serialize, try_parse_property};
use frump::{
    Email, FrumpDoc, ParseError, ParseErrorKind, PropertyKey, Task, TaskCollection, TaskId,
    TaskType, Team, TeamMember, ValidationError,
};

#[test]
fn test_parse_simple_task() {
    let content = "# Test\n\n## Tasks\n\n### Task 1 - test task\n";
    let doc = parse(content).unwrap();
    assert_eq!(doc.tasks.len(), 1);
    let task = doc.tasks.tasks().first().unwrap();
    assert_eq!(task.id.value(), 1);
    assert_eq!(task.subject, "test task");
}

#[test]
fn test_parse_task_with_body() {
    let content = "# Test\n\n## Tasks\n\n### Task 1 - test task\n\nThis is the body\n";
    let doc = parse(content).unwrap();
    let task = doc.tasks.tasks().first().unwrap();
    assert_eq!(task.body, "This is the body");
}

#[test]
fn test_parse_task_with_properties() {
    let content = "# Test\n\n## Tasks\n\n### Task 1 - test task\n\nSome body text\nStatus: working\nAssigned To: John\n";
    let doc = parse(content).unwrap();
    let task = doc.tasks.tasks().first().unwrap();
    assert_eq!(task.status(), Some("working"));
    assert_eq!(task.assignee(), Some("John"));
}

#[test]
fn test_parse_team() {
    let content = "# Test\n\n## Team\n\n* John Doe <john@example.com> - Developer\n* Jane Smith <jane@example.com>\n\n## Tasks\n";
    let doc = parse(content).unwrap();
    assert_eq!(doc.team.len(), 2);
    let first = doc.team.members().first().unwrap();
    assert_eq!(first.name, "John Doe");
    assert_eq!(first.role, Some("Developer".to_string()));
}

#[test]
fn test_round_trip() {
    let content = "# Test\n\n## Team\n\n* John Doe <john@example.com> - Developer\n\n## Tasks\n\n### Task 1 - test task\n\nBody text\nStatus: working\n\n";
    let doc = parse(content).unwrap();
    let serialized = serialize(&doc);
    let doc2 = parse(&serialized).unwrap();

    assert_eq!(doc.tasks.len(), doc2.tasks.len());
    assert_eq!(doc.team.len(), doc2.team.len());
}

#[test]
fn test_parse_multiline_body() {
    let content = "# Test\n\n## Tasks\n\n### Task 1 - test task\n\nLine 1\nLine 2\nLine 3\nStatus: working\n";
    let doc = parse(content).unwrap();
    let task = doc.tasks.tasks().first().unwrap();
    assert!(task.body.contains("Line 1"));
    assert!(task.body.contains("Line 2"));
    assert!(task.body.contains("Line 3"));
}

#[test]
fn test_parse_empty_body() {
    let content = "# Test\n\n## Tasks\n\n### Task 1 - test task\n\nStatus: working\n";
    let doc = parse(content).unwrap();
    let task = doc.tasks.tasks().first().unwrap();
    assert!(task.body.is_empty() || task.body.trim().is_empty());
}

#[test]
fn test_parse_multiple_types() {
    let content = "# Test\n\n## Tasks\n\n### Task 1 - task one\n\n### Bug 2 - bug two\n\n### Feature 3 - feature three\n";
    let doc = parse(content).unwrap();
    assert_eq!(doc.tasks.len(), 3);
    assert_eq!(doc.tasks.tasks()[0].task_type, TaskType::Task);
    assert_eq!(doc.tasks.tasks()[1].task_type, TaskType::Bug);
    assert_eq!(doc.tasks.tasks()[2].task_type, TaskType::Feature);
}

#[test]
fn test_parse_no_tasks() {
    let content = "# Test\n\n## Team\n\n* John Doe <john@example.com>\n\n## Tasks\n";
    let doc = parse(content).unwrap();
    assert_eq!(doc.tasks.len(), 0);
    assert_eq!(doc.team.len(), 1);
}

#[test]
fn test_parse_no_team() {
    let content = "# Test\n\n## Team\n\n## Tasks\n\n### Task 1 - test task\n";
    let doc = parse(content).unwrap();
    assert_eq!(doc.tasks.len(), 1);
    assert_eq!(doc.team.len(), 0);
}

#[test]
fn test_parse_special_characters_in_subject() {
    let content =
        "# Test\n\n## Tasks\n\n### Task 1 - Test with \"quotes\" and 'apostrophes' & symbols!\n";
    let doc = parse(content).unwrap();
    let task = doc.tasks.tasks().first().unwrap();
    assert_eq!(task.subject, "Test with \"quotes\" and 'apostrophes' & symbols!");
}

fn same_content(a: &FrumpDoc, b: &FrumpDoc) {
    assert_eq!(a.team.members(), b.team.members());
    assert_eq!(a.tasks.len(), b.tasks.len());
    for (x, y) in a.tasks.tasks().iter().zip(b.tasks.tasks().iter()) {
        assert_eq!(x.id, y.id);
        assert_eq!(x.task_type, y.task_type);
        assert_eq!(x.subject, y.subject);
        assert_eq!(x.body, y.body);
        assert_eq!(x.properties, y.properties);
    }
}

#[test]
fn end_to_end_single_task() {
    let doc = parse("# P\n\n## Tasks\n\n### Task 1 - a\n\nBody\nStatus: open\n").unwrap();
    assert_eq!(doc.header, "# P\n\n");
    assert!(doc.team.is_empty());
    assert_eq!(doc.tasks.len(), 1);
    let task = &doc.tasks.tasks()[0];
    assert_eq!(task.id.value(), 1);
    assert_eq!(task.task_type, TaskType::Task);
    assert_eq!(task.subject, "a");
    assert_eq!(task.body, "Body");
    assert_eq!(task.properties.len(), 1);
    assert_eq!(task.properties[0].key, PropertyKey::status());
    assert_eq!(task.properties[0].value, "open");

    let text = serialize(&doc);
    assert_eq!(text, "# P\n\n## Tasks\n\n### Task 1 - a\n\nBody\n\nStatus: open\n\n");
    let again = parse(&text).unwrap();
    same_content(&doc, &again);
    assert_eq!(again.tasks.tasks()[0].id.value(), 1);
    assert_eq!(again.tasks.tasks()[0].task_type, TaskType::Task);
    assert_eq!(again.tasks.tasks()[0].subject, "a");
    assert_eq!(again.tasks.tasks()[0].body, "Body");
    assert_eq!(again.tasks.tasks()[0].status(), Some("open"));
}

#[test]
fn round_trip_keeps_team_and_tasks() {
    let content = "Intro\r\nmore\n\n## team\n* Ann <ann@x.org> - Lead dev\n- Bob Q <bob@x.org>\n* Cy <cy@x> -\nnoise\n\n## TASKS now\nstray\n### Bug 12 - crash on start\nFirst line\n\n  indented: not a key\nlast\nStatus: open\nnot a property\nDue Date:  soon \n### Chore 3 x\n### Feature 4 - - dash\nTags: a, b\n";
    let doc = parse(content).unwrap();
    assert_eq!(doc.header, "Intro\nmore\n\n");
    assert_eq!(doc.team.len(), 3);
    assert_eq!(doc.team.members()[1].name, "Bob Q");
    assert_eq!(doc.team.members()[2].role, Some(String::new()));
    assert_eq!(doc.tasks.len(), 3);
    let bug = &doc.tasks.tasks()[0];
    assert_eq!(bug.id.value(), 12);
    assert_eq!(bug.body, "First line\n\n  indented: not a key\nlast");
    assert_eq!(bug.properties.len(), 2);
    assert_eq!(bug.properties[1].key.as_str(), "Due Date");
    assert_eq!(bug.properties[1].value, "soon");
    assert_eq!(doc.tasks.tasks()[1].task_type, TaskType::Custom("Chore".to_string()));
    assert_eq!(doc.tasks.tasks()[1].subject, "x");
    assert_eq!(doc.tasks.tasks()[2].subject, "- dash");

    let text = serialize(&doc);
    let again = parse(&text).unwrap();
    same_content(&doc, &again);
    assert_eq!(again.header, doc.header);
    assert_eq!(serialize(&again), text);
}

#[test]
fn serialize_writes_the_canonical_layout() {
    let mut task = Task::new(TaskId::new(2).unwrap(), TaskType::Bug, "fix".to_string())
        .with_body("  body \n".to_string());
    task.set_status("open".to_string());
    task.set_assignee("Ann".to_string());
    let bare = Task::new(TaskId::new(10).unwrap(), TaskType::parse("Chore"), "tidy".to_string());
    let mut only_props =
        Task::new(TaskId::new(11).unwrap(), TaskType::Issue, "props".to_string());
    only_props.set_status("done".to_string());
    let team = Team::new(vec![
        TeamMember::new("Ann".to_string(), Email::new("ann@x").unwrap())
            .with_role("Lead".to_string()),
        TeamMember::new("Bob".to_string(), Email::new("bob@x").unwrap()),
    ]);
    let doc = FrumpDoc::new(
        "# Head\n".to_string(),
        team,
        TaskCollection::new(vec![task, bare, only_props]),
    );
    assert_eq!(
        serialize(&doc),
        "# Head\n## Team\n\n* Ann <ann@x> - Lead\n* Bob <bob@x>\n\n## Tasks\n\n### Bug 2 - fix\n\nbody\n\nStatus: open\nAssigned To: Ann\n\n### Chore 10 - tidy\n\n### Issue 11 - props\nStatus: done\n\n"
    );
    assert_eq!(doc.to_string(), serialize(&doc));
}

#[test]
fn serialize_without_team_has_no_team_section() {
    let doc = FrumpDoc::new(String::new(), Team::empty(), TaskCollection::empty());
    assert_eq!(serialize(&doc), "## Tasks\n\n");
    let doc = FrumpDoc::parse("").unwrap();
    assert_eq!(doc.header, "");
    assert!(doc.tasks.is_empty());
}

#[test]
fn header_is_kept_verbatim_up_to_the_first_section() {
    let doc = parse("  a  \n\n\tb\n## Other\n##team\n## Teams and more\n* A <a@b>\n").unwrap();
    assert_eq!(doc.header, "  a  \n\n\tb\n## Other\n##team\n");
    assert_eq!(doc.team.len(), 1);
    let doc = parse("no sections at all").unwrap();
    assert_eq!(doc.header, "no sections at all\n");
    assert!(doc.team.is_empty());
    assert!(doc.tasks.is_empty());
}

#[test]
fn section_headers_ignore_case_and_indentation() {
    let doc = parse("  ## tEaM\n* A <a@b>\n\t## tasks\n### Task 1 - x\n").unwrap();
    assert_eq!(doc.header, "");
    assert_eq!(doc.team.len(), 1);
    assert_eq!(doc.tasks.len(), 1);
    let doc = parse("## ta\u{17f}ks\n### Task 1 - x\n").unwrap();
    assert_eq!(doc.tasks.len(), 1);
}

#[test]
fn team_section_ends_at_the_next_section() {
    let doc = parse("## Team\n* A <a@b>\n## Notes\n* B <b@c>\n## Tasks\n### Task 1 - x\n").unwrap();
    assert_eq!(doc.team.len(), 1);
    assert_eq!(doc.tasks.len(), 0);
}

#[test]
fn member_lines() {
    let m = parse_team_member("* John Doe <john@example.com> - Developer").unwrap().unwrap();
    assert_eq!(m.name, "John Doe");
    assert_eq!(m.email.as_str(), "john@example.com");
    assert_eq!(m.role, Some("Developer".to_string()));

    let m = parse_team_member("  - * * Jane   < jane@x >  trailing ").unwrap().unwrap();
    assert_eq!(m.name, "* * Jane");
    assert_eq!(m.email.as_str(), "jane@x");
    assert_eq!(m.role, None);

    let m = parse_team_member("* * - - Jo <jo@x>-  - r ").unwrap().unwrap();
    assert_eq!(m.name, "Jo");
    assert_eq!(m.role, Some("- r".to_string()));

    let m = parse_team_member("* a>b <c@d> e > - f").unwrap().unwrap();
    assert_eq!(m.name, "a>b");
    assert_eq!(m.email.as_str(), "c@d");
    assert_eq!(m.role, None);

    assert_eq!(parse_team_member("* nobody here"), Ok(None));
    assert_eq!(parse_team_member("* open <a@b"), Ok(None));
    assert_eq!(parse_team_member("* closed> only <"), Ok(None));
    assert_eq!(parse_team_member("* X <ab>"), Err(ValidationError::EmailMissingAt));
    assert_eq!(parse_team_member("* X <a@@b>"), Err(ValidationError::EmailMultipleAt));
    assert_eq!(parse_team_member("* X <@b>"), Err(ValidationError::EmailEmptyPart));
}

#[test]
fn a_refused_address_fails_the_document() {
    assert_eq!(
        parse("# T\n## Team\n\n* A <a@b>\n* B <nope>\n* C <@>\n## Tasks\n### Task 0 - x\n").err(),
        Some(ParseError { line: 5, kind: ParseErrorKind::Invalid(ValidationError::EmailMissingAt) })
    );
}

#[test]
fn heading_errors() {
    let err = |text: &str| parse(text).err();
    assert_eq!(
        err("## Tasks\n### Task\n"),
        Some(ParseError { line: 2, kind: ParseErrorKind::InvalidHeading })
    );
    assert_eq!(
        err("## Tasks\n\n### x\n"),
        Some(ParseError { line: 3, kind: ParseErrorKind::InvalidHeading })
    );
    assert_eq!(err("## Tasks\n\n### \n###\n"), None);
    assert_eq!(
        err("## Tasks\n### Task one - x\n"),
        Some(ParseError { line: 2, kind: ParseErrorKind::InvalidTaskId })
    );
    assert_eq!(
        err("## Tasks\n### Task  1 - x\n"),
        Some(ParseError { line: 2, kind: ParseErrorKind::InvalidTaskId })
    );
    assert_eq!(
        err("## Tasks\n### Task -1 - x\n"),
        Some(ParseError { line: 2, kind: ParseErrorKind::InvalidTaskId })
    );
    assert_eq!(
        err("## Tasks\n### Task 4294967296 - x\n"),
        Some(ParseError { line: 2, kind: ParseErrorKind::InvalidTaskId })
    );
    assert_eq!(
        err("## Tasks\n### Task 1 - ok\n### Task 0 - x\n### Task\n"),
        Some(ParseError { line: 3, kind: ParseErrorKind::Invalid(ValidationError::ZeroTaskId) })
    );
    assert_eq!(
        err("## Tasks\n  ### Task 1 - x\n"),
        Some(ParseError { line: 2, kind: ParseErrorKind::InvalidTaskId })
    );
}

#[test]
fn heading_tokens() {
    let doc = parse("## Tasks\n### Task 4294967295\n### Bug\t+007\t-  - x \n### ### 5 - y\n").unwrap();
    let tasks = doc.tasks.tasks();
    assert_eq!(tasks[0].id.value(), 4294967295);
    assert_eq!(tasks[0].subject, "");
    assert_eq!(tasks[1].task_type, TaskType::Bug);
    assert_eq!(tasks[1].id.value(), 7);
    assert_eq!(tasks[1].subject, "- x");
    assert_eq!(tasks[2].task_type, TaskType::Custom("###".to_string()));
    assert_eq!(tasks[2].id.value(), 5);
    assert_eq!(tasks[2].subject, "y");
}

#[test]
fn latch_drops_what_is_no_property() {
    let doc = parse(
        "## Tasks\n### Task 1 - t\n\n\nlower: stays in body\nToo Many Words Here: body\n\nStatus: a\n\nplain text is dropped\nlower: dropped too\nStatus: b\n : no key\n",
    )
    .unwrap();
    let task = &doc.tasks.tasks()[0];
    assert_eq!(task.body, "lower: stays in body\nToo Many Words Here: body");
    assert_eq!(task.properties.len(), 2);
    assert_eq!(task.properties[0].value, "a");
    assert_eq!(task.properties[1].value, "b");
    assert_eq!(task.status(), Some("a"));
}

#[test]
fn property_lines() {
    let (key, value) = try_parse_property("Assigned To:  John : Doe ").unwrap();
    assert_eq!(key.as_str(), "Assigned To");
    assert_eq!(value, "John : Doe");
    let (key, value) = try_parse_property("Status:").unwrap();
    assert_eq!(key.as_str(), "Status");
    assert_eq!(value, "");
    assert!(try_parse_property("status: x").is_none());
    assert!(try_parse_property("No colon").is_none());
    assert!(try_parse_property("A B C D: x").is_none());
    assert!(try_parse_property(": x").is_none());
}

#[test]
fn empty_subject_is_written_with_a_dash() {
    let doc = parse("## Tasks\n### Task 1\n").unwrap();
    assert_eq!(doc.tasks.tasks()[0].subject, "");
    let text = serialize(&doc);
    assert_eq!(text, "## Tasks\n\n### Task 1 - \n\n");
    let again = parse(&text).unwrap();
    assert_eq!(again.tasks.len(), 1);
    assert_eq!(again.tasks.tasks()[0].id.value(), 1);
    assert_eq!(again.tasks.tasks()[0].task_type, TaskType::Task);
    assert_eq!(again.tasks.tasks()[0].subject, "");
    assert_eq!(again.tasks.tasks()[0].body, "");
    assert!(again.tasks.tasks()[0].properties.is_empty());
    assert_eq!(serialize(&again), text);
}

#[test]
fn the_end_of_a_heading_is_trimmed_after_the_cut() {
    let subject = |text: &str| parse(text).unwrap().tasks.tasks()[0].subject.clone();
    assert_eq!(subject("## Tasks\n### Task 1 - \n"), "");
    assert_eq!(subject("## Tasks\n### Task 1 -  \t \n"), "");
    assert_eq!(subject("## Tasks\n### Task 1 \n"), "");
    assert_eq!(subject("## Tasks\n### Task 1\t  \n"), "");
    assert_eq!(subject("## Tasks\n### Task 1 -\n"), "-");
    assert_eq!(subject("## Tasks\n### Task 1 - -\n"), "-");
    assert_eq!(subject("## Tasks\n### Task 1 - a  \n"), "a");
    assert_eq!(subject("## Tasks\n###   Task 1 - a\n"), "a");
    assert_eq!(
        parse("## Tasks\n### Task \n").err(),
        Some(ParseError { line: 2, kind: ParseErrorKind::InvalidTaskId })
    );
    assert_eq!(
        parse("## Tasks\n### Task\n").err(),
        Some(ParseError { line: 2, kind: ParseErrorKind::InvalidHeading })
    );
}

#[test]
fn the_latch_goes_one_way() {
    assert_eq!(Latch::Body.step(false), (Latch::Body, LineUse::Body));
    assert_eq!(Latch::Body.step(true), (Latch::Property, LineUse::Property));
    assert_eq!(Latch::Property.step(true), (Latch::Property, LineUse::Property));
    assert_eq!(Latch::Property.step(false), (Latch::Property, LineUse::Dropped));
}

fn lines(text: &[&str]) -> Vec<Vec<char>> {
    text.iter().map(|l| l.chars().collect()).collect()
}

#[test]
fn blocks_and_headings_on_their_own() {
    assert!(parse_task(&lines(&[])).unwrap().is_none());
    let task = parse_task(&lines(&["### Bug 7 - seven", "", " body ", "Status: s", "x"]))
        .unwrap()
        .unwrap();
    assert_eq!(task.id.value(), 7);
    assert_eq!(task.task_type, TaskType::Bug);
    assert_eq!(task.subject, "seven");
    assert_eq!(task.body, "body");
    assert_eq!(task.properties.len(), 1);
    assert_eq!(parse_task(&lines(&["### Bug"])).err(), Some(ParseErrorKind::InvalidHeading));

    let (kind, id, subject) =
        parse_heading(&"### Feature 12 -  spaced  out ".chars().collect()).unwrap();
    assert_eq!(kind, TaskType::Feature);
    assert_eq!(id.value(), 12);
    assert_eq!(subject, "spaced  out");
    let (_, _, subject) = parse_heading(&"### T 1 no dash".chars().collect()).unwrap();
    assert_eq!(subject, "no dash");
    let (_, _, subject) = parse_heading(&"### T 1 -".chars().collect()).unwrap();
    assert_eq!(subject, "-");
}

#[test]
fn body_lines_are_kept_as_they_are() {
    let doc = parse("## Tasks\n### Task 1 - t\n   first\n\t indented \n \n    \nlast   \n\n").unwrap();
    assert_eq!(doc.tasks.tasks()[0].body, "first\n\t indented \n\n\nlast");
    let text = serialize(&doc);
    assert_eq!(parse(&text).unwrap().tasks.tasks()[0].body, doc.tasks.tasks()[0].body);
}

#[test]
fn what_does_not_read_back() {
    let bullet = parse("## Team\n- * Bob <b@c>\n").unwrap();
    assert_eq!(bullet.team.members()[0].name, "* Bob");
    let again = parse(&serialize(&bullet)).unwrap();
    assert_eq!(again.team.members()[0].name, "Bob");

    let returns = parse("## Tasks\n### Task 1 - t\nfirst\r\r\nsecond\n").unwrap();
    assert_eq!(returns.tasks.tasks()[0].body, "first\r\nsecond");
    let again = parse(&serialize(&returns)).unwrap();
    assert_eq!(again.tasks.tasks()[0].body, "first\nsecond");
}
