use frump::export::{add_valid_properties, csv_records};
use serde_json::Value;
use frump::templates::fill;
use frump::text::{
    char_is_uppercase, char_is_whitespace, chars_of, count_words, read_u32, replace_all,
    split_lines, string_of, trim_chars, uppercase, write_u32,
};
use frump::{
    Email, ExportDoc, ExportTask, ExportTeamMember, FrumpDoc, PropertyKey, Task, TaskCollection,
    TaskId, TaskTemplate, TaskType, Team, TeamMember, TemplateError, TemplateManager,
    ValidationError,
};

fn pair(k: &str, v: &str) -> (String, String) {
    (k.to_string(), v.to_string())
}

fn sample_doc() -> FrumpDoc {
    let mut task = Task::new(TaskId::new(1).unwrap(), TaskType::Task, "test".to_string())
        .with_body("body".to_string());
    task.add_property(PropertyKey::status(), "working".to_string());
    task.add_property(PropertyKey::tags(), "a, b".to_string());
    task.add_property(PropertyKey::status(), "done".to_string());
    let other = Task::new(TaskId::new(2).unwrap(), TaskType::parse("Chore"), "o".to_string());
    let team = Team::new(vec![
        TeamMember::new("Ann".to_string(), Email::new("ann@x").unwrap())
            .with_role("Lead".to_string()),
    ]);
    FrumpDoc::new("# Test\n".to_string(), team, TaskCollection::new(vec![task, other]))
}

#[test]
fn export_keeps_values_and_merges_repeated_keys() {
    let export = ExportDoc::from(&sample_doc());
    assert_eq!(export.header, "# Test\n");
    assert_eq!(
        export.team,
        vec![ExportTeamMember {
            name: "Ann".to_string(),
            email: "ann@x".to_string(),
            role: Some("Lead".to_string())
        }]
    );
    assert_eq!(export.tasks.len(), 2);
    assert_eq!(export.tasks[0].id, 1);
    assert_eq!(export.tasks[0].task_type, "Task");
    assert_eq!(export.tasks[0].subject, "test");
    assert_eq!(export.tasks[0].body, "body");
    assert_eq!(export.tasks[0].properties, vec![pair("Status", "done"), pair("Tags", "a, b")]);
    assert_eq!(export.tasks[1].task_type, "Chore");
    assert!(export.tasks[1].properties.is_empty());
}

#[test]
fn import_validates_again() {
    let export = ExportDoc::from(&sample_doc());
    let doc = export.to_frump_doc().unwrap();
    assert_eq!(doc.tasks.len(), 2);
    assert_eq!(doc.tasks.tasks()[0].subject, "test");
    assert_eq!(doc.tasks.tasks()[0].status(), Some("done"));
    assert_eq!(doc.tasks.tasks()[1].task_type, TaskType::Custom("Chore".to_string()));
    assert_eq!(doc.team.members()[0].email.as_str(), "ann@x");

    let member = |email: &str| ExportTeamMember {
        name: "N".to_string(),
        email: email.to_string(),
        role: None,
    };
    let task = |id: u32| ExportTask {
        id,
        task_type: "Bug".to_string(),
        subject: "s".to_string(),
        body: String::new(),
        properties: vec![pair("lower", "x"), pair("Status", "open"), pair("A B C D", "y")],
    };
    let good = ExportDoc {
        header: String::new(),
        team: vec![member(" a@b ")],
        tasks: vec![task(3)],
    };
    let doc = good.to_frump_doc().unwrap();
    assert_eq!(doc.team.members()[0].email.as_str(), "a@b");
    assert_eq!(doc.tasks.tasks()[0].properties.len(), 1);
    assert_eq!(doc.tasks.tasks()[0].status(), Some("open"));
    assert_eq!(good.tasks[0].to_task().unwrap().id.value(), 3);

    let bad_team = ExportDoc {
        header: String::new(),
        team: vec![member("a@b"), member("a@@b"), member("nope")],
        tasks: vec![task(0)],
    };
    assert_eq!(bad_team.to_frump_doc().err(), Some(ValidationError::EmailMultipleAt));
    let bad_task = ExportDoc {
        header: String::new(),
        team: vec![member("a@b")],
        tasks: vec![task(1), task(0)],
    };
    assert_eq!(bad_task.to_frump_doc().err(), Some(ValidationError::ZeroTaskId));
    assert_eq!(member("@").to_member().err(), Some(ValidationError::EmailEmptyPart));
}

#[test]
fn csv_rows_fill_missing_properties_with_nothing() {
    let rows = csv_records(&sample_doc());
    assert_eq!(rows.len(), 2);
    assert_eq!(rows[0].id, 1);
    assert_eq!(rows[0].task_type, "Task");
    assert_eq!(rows[0].subject, "test");
    assert_eq!(rows[0].body, "body");
    assert_eq!(rows[0].status, "working");
    assert_eq!(rows[0].assignee, "");
    assert_eq!(rows[0].tags, "a, b");
    assert_eq!(rows[1].status, "");
    assert_eq!(rows[1].task_type, "Chore");
}

#[test]
fn valid_properties_are_added_in_order() {
    let mut task = Task::new(TaskId::new(1).unwrap(), TaskType::Task, "t".to_string());
    task.set_status("s".to_string());
    add_valid_properties(
        &mut task,
        &vec![pair("Tags", "t"), pair("", "x"), pair("Status", "again"), pair("bad", "y")],
    );
    let keys: Vec<&str> = task.properties.iter().map(|p| p.key.as_str()).collect();
    assert_eq!(keys, vec!["Status", "Tags", "Status"]);
}

fn bug_template() -> TaskTemplate {
    TaskTemplate {
        name: "bug".to_string(),
        task_type: "Bug".to_string(),
        subject_template: "Fix {component} issue".to_string(),
        body_template: "Issue in {component}: {description}".to_string(),
        properties: vec![pair("Status", "open"), pair("not a key", "x")],
    }
}

#[test]
fn test_template_placeholders() {
    let _template = bug_template();
    let replacements = vec![
        pair("component", "parser"),
        pair("description", "crashes on empty input"),
    ];
    let manager = TemplateManager::new();
    let _task = manager.instantiate("bug", TaskId::new(1).unwrap(), &replacements).ok();
    assert!(_task.is_none());
}

#[test]
fn template_instantiation_fills_placeholders() {
    let mut manager = TemplateManager::new();
    assert_eq!(manager.add(bug_template()), Ok(()));
    let replacements = vec![
        pair("component", "parser"),
        pair("description", "crashes on empty input"),
    ];
    let task = manager.instantiate("bug", TaskId::new(4).unwrap(), &replacements).unwrap();
    assert_eq!(task.id.value(), 4);
    assert_eq!(task.task_type, TaskType::Bug);
    assert_eq!(task.subject, "Fix parser issue");
    assert_eq!(task.body, "Issue in parser: crashes on empty input");
    assert_eq!(task.properties.len(), 1);
    assert_eq!(task.status(), Some("open"));
    assert_eq!(
        manager.instantiate("feature", TaskId::new(4).unwrap(), &replacements).err(),
        Some(TemplateError::NotFound)
    );
}

#[test]
fn replacements_apply_in_order_to_the_result_so_far() {
    assert_eq!(fill("{a}{b}{a}", &vec![pair("a", "{b}"), pair("b", "x")]), "xxx");
    assert_eq!(fill("{a}{b}{a}", &vec![pair("b", "x"), pair("a", "{b}")]), "{b}x{b}");
    assert_eq!(fill("{}-{ }", &vec![pair("", "e")]), "e-{ }");
    assert_eq!(fill("plain", &vec![]), "plain");
}

#[test]
fn template_store() {
    let mut manager = TemplateManager::with_templates(vec![bug_template()]);
    assert_eq!(manager.add(bug_template()), Err(TemplateError::AlreadyExists));
    let mut other = bug_template();
    other.name = "chore".to_string();
    assert_eq!(manager.add(other), Ok(()));
    assert_eq!(manager.list().len(), 2);
    assert_eq!(manager.list()[1].name, "chore");
    assert_eq!(manager.get("bug"), Ok(bug_template()));
    assert_eq!(manager.get("none").err(), Some(TemplateError::NotFound));
    assert_eq!(manager.remove("none"), Err(TemplateError::NotFound));
    assert_eq!(manager.remove("bug"), Ok(()));
    assert_eq!(manager.list().len(), 1);
    assert_eq!(manager.list()[0].name, "chore");
    assert_eq!(manager.remove("bug"), Err(TemplateError::NotFound));
}

fn s(text: &str) -> Vec<char> {
    chars_of(text)
}

#[test]
fn replace_all_takes_occurrences_from_the_left() {
    assert_eq!(string_of(&replace_all(&s("aaa"), &s("aa"), &s("b"))), "ba");
    assert_eq!(string_of(&replace_all(&s("abcabc"), &s("bc"), &s(""))), "aa");
    assert_eq!(string_of(&replace_all(&s("abc"), &s(""), &s("x"))), "abc");
    assert_eq!(string_of(&replace_all(&s("abc"), &s("abcd"), &s("x"))), "abc");
    assert_eq!(string_of(&replace_all(&s(""), &s("a"), &s("x"))), "");
}

#[test]
fn numbers_are_read_and_written_in_base_ten() {
    assert_eq!(read_u32(&s("0")), Some(0));
    assert_eq!(read_u32(&s("+12")), Some(12));
    assert_eq!(read_u32(&s("007")), Some(7));
    assert_eq!(read_u32(&s("4294967295")), Some(u32::MAX));
    assert_eq!(read_u32(&s("4294967296")), None);
    assert_eq!(read_u32(&s("99999999999999999999999")), None);
    assert_eq!(read_u32(&s("")), None);
    assert_eq!(read_u32(&s("+")), None);
    assert_eq!(read_u32(&s("-1")), None);
    assert_eq!(read_u32(&s("1 ")), None);
    assert_eq!(read_u32(&s("١")), None);
    assert_eq!(string_of(&write_u32(0)), "0");
    assert_eq!(string_of(&write_u32(10)), "10");
    assert_eq!(string_of(&write_u32(u32::MAX)), "4294967295");
    for n in [1u32, 9, 10, 99, 100, 12345, 4000000000] {
        assert_eq!(read_u32(&write_u32(n)), Some(n));
        assert_eq!("x".parse::<u32>().ok(), None);
        assert_eq!(string_of(&write_u32(n)), n.to_string());
    }
}

#[test]
fn text_primitives_agree_with_the_standard_library() {
    for text in ["", " a b ", "\u{3000}x\u{a0}", "\t\r\n", "a\u{200b}", "\u{85}k\u{2028}\u{2029}"] {
        assert_eq!(string_of(&trim_chars(&s(text))), text.trim());
    }
    for text in ["", "\n", "a", "a\n", "a\r\nb\r", "\r\n\r\n", "a\n\nb\n", "a\r\r\nb", "x\ry\n"] {
        let lines: Vec<String> = split_lines(&s(text)).iter().map(string_of).collect();
        let expected: Vec<String> = text.lines().map(|l| l.to_string()).collect();
        assert_eq!(lines, expected);
    }
    for text in ["## Team", "## tasks z{|}~`a", "stra\u{df}e", "\u{17f}\u{fb06}", "Ab\u{e4}"] {
        assert_eq!(string_of(&uppercase(&s(text))), text.to_uppercase());
    }
}

#[test]
fn character_classes_agree_with_the_standard_library_everywhere() {
    for code in 0..=0x10ffffu32 {
        if let Some(c) = char::from_u32(code) {
            assert_eq!(char_is_whitespace(c), c.is_whitespace(), "white space {:x}", code);
            assert_eq!(char_is_uppercase(c), c.is_uppercase(), "uppercase {:x}", code);
        }
    }
    for code in (0..=0x2ffffu32).step_by(7) {
        if let Some(c) = char::from_u32(code) {
            let text = c.to_string();
            assert_eq!(string_of(&uppercase(&s(&text))), text.to_uppercase());
        }
    }
}

#[test]
fn numbers_are_read_as_the_standard_library_reads_them() {
    let tokens = [
        "0", "00", "+0", "-0", "1", "+1", "++1", "+-1", "42", "4294967295", "4294967296",
        "04294967295", "42949672950", "1e3", "0x10", " 1", "1_000", "", "+", "12a", "٣",
        "18446744073709551616",
    ];
    for token in tokens {
        assert_eq!(read_u32(&s(token)), token.parse::<u32>().ok(), "{:?}", token);
    }
}

#[test]
fn words_are_counted_as_the_standard_library_splits_them() {
    for text in ["", " ", "a", " a ", "a b", "a  b\tc\n", "\u{3000}x\u{a0}y", "one two three four"] {
        assert_eq!(count_words(&s(text)), text.split_whitespace().count(), "{:?}", text);
    }
}

fn to_json(doc: &ExportDoc) -> String {
    let team: Vec<Value> = doc
        .team
        .iter()
        .map(|m| {
            let mut o = serde_json::Map::new();
            o.insert("name".to_string(), Value::String(m.name.clone()));
            o.insert("email".to_string(), Value::String(m.email.clone()));
            o.insert(
                "role".to_string(),
                m.role.clone().map(Value::String).unwrap_or(Value::Null),
            );
            Value::Object(o)
        })
        .collect();
    let tasks: Vec<Value> = doc
        .tasks
        .iter()
        .map(|t| {
            let mut props = serde_json::Map::new();
            for (k, v) in &t.properties {
                props.insert(k.clone(), Value::String(v.clone()));
            }
            let mut o = serde_json::Map::new();
            o.insert("id".to_string(), Value::from(t.id));
            o.insert("task_type".to_string(), Value::String(t.task_type.clone()));
            o.insert("subject".to_string(), Value::String(t.subject.clone()));
            o.insert("body".to_string(), Value::String(t.body.clone()));
            o.insert("properties".to_string(), Value::Object(props));
            Value::Object(o)
        })
        .collect();
    let mut root = serde_json::Map::new();
    root.insert("header".to_string(), Value::String(doc.header.clone()));
    root.insert("team".to_string(), Value::Array(team));
    root.insert("tasks".to_string(), Value::Array(tasks));
    serde_json::to_string_pretty(&Value::Object(root)).unwrap()
}

fn from_json(json: &str) -> ExportDoc {
    let root: serde_json::Value = serde_json::from_str(json).unwrap();
    let text = |v: &serde_json::Value| v.as_str().unwrap().to_string();
    ExportDoc {
        header: text(&root["header"]),
        team: root["team"]
            .as_array()
            .unwrap()
            .iter()
            .map(|m| ExportTeamMember {
                name: text(&m["name"]),
                email: text(&m["email"]),
                role: m["role"].as_str().map(|r| r.to_string()),
            })
            .collect(),
        tasks: root["tasks"]
            .as_array()
            .unwrap()
            .iter()
            .map(|t| ExportTask {
                id: t["id"].as_u64().unwrap() as u32,
                task_type: text(&t["task_type"]),
                subject: text(&t["subject"]),
                body: text(&t["body"]),
                properties: t["properties"]
                    .as_object()
                    .unwrap()
                    .iter()
                    .map(|(k, v)| (k.clone(), text(v)))
                    .collect(),
            })
            .collect(),
    }
}

#[test]
fn test_json_round_trip() {
    let id = TaskId::new(1).unwrap();
    let task = Task::new(id, TaskType::Task, "test".to_string());
    let tasks = TaskCollection::new(vec![task]);
    let team = Team::empty();
    let doc = FrumpDoc::new("# Test\n".to_string(), team, tasks);

    let json = to_json(&ExportDoc::from(&doc));
    let imported = from_json(&json).to_frump_doc().unwrap();

    assert_eq!(imported.tasks.len(), 1);
    assert_eq!(imported.tasks.tasks()[0].subject, "test");
}

#[test]
fn test_csv_export() {
    let id = TaskId::new(1).unwrap();
    let mut task = Task::new(id, TaskType::Task, "test".to_string());
    task.set_status("working".to_string());
    let tasks = TaskCollection::new(vec![task]);
    let team = Team::empty();
    let doc = FrumpDoc::new("# Test\n".to_string(), team, tasks);

    let mut wtr = csv::Writer::from_writer(vec![]);
    wtr.write_record(["id", "task_type", "subject", "body", "status", "assignee", "tags"])
        .unwrap();
    for row in csv_records(&doc) {
        wtr.write_record([
            row.id.to_string(),
            row.task_type,
            row.subject,
            row.body,
            row.status,
            row.assignee,
            row.tags,
        ])
        .unwrap();
    }
    let csv = String::from_utf8(wtr.into_inner().unwrap()).unwrap();
    assert!(csv.contains("test"));
    assert!(csv.contains("working"));
    assert_eq!(csv, "id,task_type,subject,body,status,assignee,tags\n1,Task,test,,working,,\n");
}

#[test]
fn records_survive_json() {
    let export = ExportDoc::from(&sample_doc());
    assert_eq!(from_json(&to_json(&export)), export);
    let doc = from_json(&to_json(&export)).to_frump_doc().unwrap();
    assert_eq!(ExportDoc::from(&doc), export);
}
