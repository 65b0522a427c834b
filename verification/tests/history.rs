use frump::conflicts::{
    find_conflicts, resolve_conflicts, ConflictError, RecordAction, RecordOutcome, Recording,
};
use frump::history::{classify, classify_all};
use frump::parser::{parse, serialize};
use frump::{
    ChangeType, FrumpDoc, FrumpRepo, HistoryError, ParseError, ParseErrorKind, Revision, Task,
    TaskCollection, TaskId, TaskType, Team,
};

fn revision(n: u32, seconds: i64, content: Option<&str>) -> Revision {
    Revision::new(
        format!("rev{}", n),
        Some(format!("author{}", n)),
        seconds,
        Some(format!(" message {} \n", n)),
        content.map(|c| c.to_string()),
    )
}

fn doc_with(ids: &[(u32, &str, &str)]) -> String {
    let mut text = String::from("# H\n\n## Tasks\n\n");
    for (id, kind, subject) in ids {
        text.push_str(&format!("### {} {} - {}\n\n", kind, id, subject));
    }
    text
}

#[test]
fn classification_of_each_step() {
    assert_eq!(classify(false, true), Some(ChangeType::Created));
    assert_eq!(classify(true, true), Some(ChangeType::Modified));
    assert_eq!(classify(true, false), Some(ChangeType::Deleted));
    assert_eq!(classify(false, false), None);
}

#[test]
fn presence_sequence_gives_created_modified_deleted() {
    assert_eq!(
        classify_all(&vec![false, true, true, false]),
        vec![ChangeType::Created, ChangeType::Modified, ChangeType::Deleted]
    );
    assert_eq!(classify_all(&vec![]), vec![]);
    assert_eq!(classify_all(&vec![false, false, false]), vec![]);
    assert_eq!(
        classify_all(&vec![true, false, false, true]),
        vec![ChangeType::Created, ChangeType::Deleted, ChangeType::Created]
    );
}

#[test]
fn revision_defaults() {
    let r = Revision::new("abc".to_string(), None, 5, None, None);
    assert_eq!(r.id, "abc");
    assert_eq!(r.author, "Unknown");
    assert_eq!(r.timestamp, 5);
    assert_eq!(r.message, "");
    assert_eq!(r.content, None);
    let r = revision(1, 7, Some("x"));
    assert_eq!(r.author, "author1");
    assert_eq!(r.message, "message 1");
    assert_eq!(r.content, Some("x".to_string()));
}

#[test]
fn task_history_follows_presence() {
    let with = doc_with(&[(1, "Task", "a"), (2, "Bug", "b")]);
    let without = doc_with(&[(1, "Task", "a")]);
    let repo = FrumpRepo::new(vec![
        revision(0, 100, Some(&without)),
        revision(1, 200, Some(&with)),
        revision(2, 300, Some(&with)),
        revision(3, 400, Some(&without)),
        revision(4, 500, None),
    ]);
    assert_eq!(repo.revisions().len(), 5);
    let history = repo.task_history(TaskId::new(2).unwrap()).unwrap();
    assert_eq!(history.task_id.value(), 2);
    let kinds: Vec<ChangeType> = history.commits.iter().map(|c| c.change_type).collect();
    assert_eq!(kinds, vec![ChangeType::Created, ChangeType::Modified, ChangeType::Deleted]);
    assert_eq!(history.commits[0].hash, "rev1");
    assert_eq!(history.commits[0].author, "author1");
    assert_eq!(history.commits[0].date, 200);
    assert_eq!(history.commits[0].message, "message 1");
    assert_eq!(history.commits[2].hash, "rev3");
    assert_eq!(history.commits[2].date, 400);

    let first = repo.task_history(TaskId::new(1).unwrap()).unwrap();
    let kinds: Vec<ChangeType> = first.commits.iter().map(|c| c.change_type).collect();
    assert_eq!(
        kinds,
        vec![
            ChangeType::Created,
            ChangeType::Modified,
            ChangeType::Modified,
            ChangeType::Modified,
            ChangeType::Deleted
        ]
    );
    assert!(repo.task_history(TaskId::new(9).unwrap()).unwrap().commits.is_empty());
}

#[test]
fn unreadable_revisions_count_as_absent() {
    let with = doc_with(&[(3, "Task", "a")]);
    let broken = "## Tasks\n### Task zero - x\n### Task 3 - a\n";
    let repo = FrumpRepo::new(vec![
        revision(0, 1, Some(&with)),
        revision(1, 2, Some(broken)),
        revision(2, 3, Some(&with)),
    ]);
    let history = repo.task_history(TaskId::new(3).unwrap()).unwrap();
    let kinds: Vec<ChangeType> = history.commits.iter().map(|c| c.change_type).collect();
    assert_eq!(kinds, vec![ChangeType::Created, ChangeType::Deleted, ChangeType::Created]);
    assert_eq!(repo.max_historical_id().unwrap().value(), 3);
}

#[test]
fn a_change_at_an_unrepresentable_date_is_an_error() {
    let with = doc_with(&[(1, "Task", "a")]);
    let repo = FrumpRepo::new(vec![
        revision(0, i64::MAX, None),
        revision(1, 10, Some(&with)),
        revision(2, i64::MAX, Some(&with)),
        revision(3, i64::MIN, None),
    ]);
    assert_eq!(
        repo.task_history(TaskId::new(1).unwrap()).err(),
        Some(HistoryError::InvalidTimestamp { revision: 2 })
    );
    assert!(repo.task_history(TaskId::new(2).unwrap()).is_ok());
    let late = FrumpRepo::new(vec![revision(0, 8_210_266_876_799, Some(&with))]);
    assert_eq!(late.task_history(TaskId::new(1).unwrap()).unwrap().commits[0].date, 8_210_266_876_799);
}

#[test]
fn max_historical_id_over_all_snapshots() {
    assert!(FrumpRepo::new(vec![]).max_historical_id().is_none());
    let repo = FrumpRepo::new(vec![
        revision(0, 1, Some(&doc_with(&[(4, "Task", "a"), (2, "Task", "b")]))),
        revision(1, 2, None),
        revision(2, 3, Some("## Tasks\n### Task 99\n### Task\n")),
        revision(3, 4, Some(&doc_with(&[(7, "Task", "c")]))),
        revision(4, 5, Some(&doc_with(&[]))),
    ]);
    assert_eq!(repo.max_historical_id().unwrap().value(), 7);
    let none = FrumpRepo::new(vec![revision(0, 1, Some("# only a header\n")), revision(1, 2, None)]);
    assert!(none.max_historical_id().is_none());
}

#[test]
fn deleted_tasks_are_sorted_and_remember_the_first_sighting() {
    let repo = FrumpRepo::new(vec![
        revision(0, 1, Some(&doc_with(&[(3, "Bug", "three"), (1, "Task", "one")]))),
        revision(1, 2, Some(&doc_with(&[(1, "Feature", "renamed"), (2, "Task", "two")]))),
        revision(2, 3, Some("## Tasks\n### broken\n")),
        revision(3, 4, Some(&doc_with(&[(3, "Task", "later"), (2, "Task", "two")]))),
    ]);
    let current = doc_with(&[(2, "Task", "two")]);
    let deleted = repo.deleted_tasks(&current).unwrap();
    assert_eq!(deleted.len(), 2);
    assert_eq!(deleted[0].0.value(), 1);
    assert_eq!(deleted[0].1, TaskType::Task);
    assert_eq!(deleted[0].2, "one");
    assert_eq!(deleted[1].0.value(), 3);
    assert_eq!(deleted[1].1, TaskType::Bug);
    assert_eq!(deleted[1].2, "three");

    assert!(repo.deleted_tasks(&doc_with(&[(1, "T", "a"), (2, "T", "b"), (3, "T", "c")])).unwrap().is_empty());
    assert_eq!(repo.deleted_tasks("").unwrap().len(), 3);
    assert_eq!(
        repo.deleted_tasks("## Tasks\n### Task 0 - x\n").err(),
        Some(ParseError {
            line: 2,
            kind: ParseErrorKind::Invalid(frump::ValidationError::ZeroTaskId)
        })
    );
}

fn task(id: u32, subject: &str) -> Task {
    Task::new(TaskId::new(id).unwrap(), TaskType::Task, subject.to_string())
}

#[test]
fn conflicts_are_grouped_by_identifier() {
    let tasks = TaskCollection::new(vec![
        task(5, "a"),
        task(2, "Fix A"),
        task(7, "x"),
        task(2, "Fix B"),
        task(5, "b"),
        task(2, "Fix C"),
        task(1, "single"),
    ]);
    let groups = find_conflicts(&tasks);
    assert_eq!(groups.len(), 2);
    assert_eq!(groups[0].id.value(), 2);
    assert_eq!(groups[0].positions, vec![1, 3, 5]);
    assert_eq!(groups[1].id.value(), 5);
    assert_eq!(groups[1].positions, vec![0, 4]);
    assert!(find_conflicts(&TaskCollection::new(vec![task(1, "a"), task(2, "b")])).is_empty());
    assert!(find_conflicts(&TaskCollection::empty()).is_empty());
}

#[test]
fn resolution_keeps_the_first_and_renumbers_the_second() {
    let mut doc = FrumpDoc::new(
        "# H\n".to_string(),
        Team::empty(),
        TaskCollection::new(vec![task(2, "Fix A"), task(5, "other"), task(2, "Fix B")]),
    );
    let list = resolve_conflicts(&mut doc).unwrap();
    assert_eq!(list.len(), 1);
    assert_eq!(list[0].position, 2);
    assert_eq!(list[0].old_id.value(), 2);
    assert_eq!(list[0].new_id.value(), 6);
    assert_eq!(list[0].subject, "Fix B");
    let ids: Vec<u32> = doc.tasks.tasks().iter().map(|t| t.id.value()).collect();
    assert_eq!(ids, vec![2, 5, 6]);
    assert_eq!(doc.tasks.tasks()[0].subject, "Fix A");
    assert_eq!(doc.tasks.tasks()[2].subject, "Fix B");
    assert_eq!(doc.header, "# H\n");
    assert!(find_conflicts(&doc.tasks).is_empty());
    assert!(resolve_conflicts(&mut doc).unwrap().is_empty());
}

#[test]
fn resolution_takes_groups_in_ascending_order_of_identifier() {
    let mut doc = FrumpDoc::new(
        String::new(),
        Team::empty(),
        TaskCollection::new(vec![
            task(9, "a"),
            task(9, "b"),
            task(3, "c"),
            task(3, "d"),
            task(9, "e"),
            task(3, "f"),
            task(4, "g"),
        ]),
    );
    let list = resolve_conflicts(&mut doc).unwrap();
    let ids: Vec<u32> = doc.tasks.tasks().iter().map(|t| t.id.value()).collect();
    assert_eq!(ids, vec![9, 12, 3, 10, 13, 11, 4]);
    let pairs: Vec<(usize, u32, u32)> =
        list.iter().map(|r| (r.position, r.old_id.value(), r.new_id.value())).collect();
    assert_eq!(pairs, vec![(1, 9, 12), (3, 3, 10), (4, 9, 13), (5, 3, 11)]);
    let text = serialize(&doc);
    let again = parse(&text).unwrap();
    assert!(find_conflicts(&again.tasks).is_empty());
}

#[test]
fn resolution_fails_when_identifiers_run_out() {
    let mut doc = FrumpDoc::new(
        String::new(),
        Team::empty(),
        TaskCollection::new(vec![task(u32::MAX, "a"), task(1, "b"), task(1, "c")]),
    );
    assert_eq!(resolve_conflicts(&mut doc).err(), Some(ConflictError::IdentifiersExhausted));
    let ids: Vec<u32> = doc.tasks.tasks().iter().map(|t| t.id.value()).collect();
    assert_eq!(ids, vec![u32::MAX, 1, 1]);
    let mut fits = FrumpDoc::new(
        String::new(),
        Team::empty(),
        TaskCollection::new(vec![task(u32::MAX - 1, "a"), task(1, "b"), task(1, "c")]),
    );
    assert_eq!(resolve_conflicts(&mut fits).unwrap()[0].new_id.value(), u32::MAX);
}

#[test]
fn recording_stages_before_it_records() {
    let start = Recording::start();
    assert_eq!(start.action(), RecordAction::Stage);
    let failed = start.after(false);
    assert_eq!(failed, Recording::Done(RecordOutcome::NotStaged));
    assert_eq!(failed.action(), RecordAction::Stop);
    assert_eq!(failed.after(true), failed);

    let staged = start.after(true);
    assert_eq!(staged.action(), RecordAction::Record);
    assert_eq!(staged.after(true), Recording::Done(RecordOutcome::Recorded));
    assert_eq!(staged.after(false), Recording::Done(RecordOutcome::SavedNotRecorded));
    assert_eq!(staged.after(true).action(), RecordAction::Stop);
}
