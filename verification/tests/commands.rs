use frump::commands::{
    assign_by_type, close_by_status, count_by_property, count_by_type, count_names, id_gaps,
    merge_tasks, rank_by_count, search, select, set_by_status, MergeError,
};
use frump::history::next_unused_id;
use frump::{PropertyKey, Task, TaskCollection, TaskId, TaskType};

fn task(id: u32, kind: &str, subject: &str, status: Option<&str>, assignee: Option<&str>) -> Task {
    let mut t = Task::new(TaskId::new(id).unwrap(), TaskType::parse(kind), subject.to_string());
    if let Some(s) = status {
        t.set_status(s.to_string());
    }
    if let Some(a) = assignee {
        t.set_assignee(a.to_string());
    }
    t
}

fn sample() -> TaskCollection {
    TaskCollection::new(vec![
        task(1, "Task", "Write Parser", Some("open"), Some("Ann")),
        task(2, "Bug", "crash in parser", Some("done"), Some("Bob")),
        task(3, "Bug", "typo", Some("open"), None),
        task(5, "Chore", "tidy", None, Some("Ann")),
        task(2, "Task", "duplicate", Some("open"), Some("Ann")),
    ])
}

fn ids(tasks: &[&Task]) -> Vec<u32> {
    tasks.iter().map(|t| t.id.value()).collect()
}

fn all_ids(c: &TaskCollection) -> Vec<u32> {
    c.tasks().iter().map(|t| t.id.value()).collect()
}

#[test]
fn select_applies_every_filter_given() {
    let c = sample();
    assert_eq!(ids(&select(&c, None, None, None)), vec![1, 2, 3, 5, 2]);
    assert_eq!(ids(&select(&c, Some(&TaskType::Bug), None, None)), vec![2, 3]);
    assert_eq!(ids(&select(&c, None, Some("open"), None)), vec![1, 3, 2]);
    assert_eq!(ids(&select(&c, None, None, Some("Ann"))), vec![1, 5, 2]);
    assert_eq!(ids(&select(&c, Some(&TaskType::Task), Some("open"), Some("Ann"))), vec![1, 2]);
    assert!(select(&c, Some(&TaskType::Bug), Some("open"), Some("Ann")).is_empty());
}

#[test]
fn close_by_status_removes_the_first_task_of_each_identifier() {
    let mut c = sample();
    assert_eq!(close_by_status(&mut c, "open"), 3);
    assert_eq!(all_ids(&c), vec![5, 2]);
    assert_eq!(c.tasks()[1].subject, "duplicate");
    assert_eq!(close_by_status(&mut c, "nothing"), 0);
    assert_eq!(all_ids(&c), vec![5, 2]);
}

#[test]
fn assign_by_type_sets_the_assignee_of_matching_tasks() {
    let mut c = sample();
    assert_eq!(assign_by_type(&mut c, &TaskType::Bug, "Cy"), 2);
    let assignees: Vec<Option<&str>> = c.tasks().iter().map(|t| t.assignee()).collect();
    assert_eq!(assignees, vec![Some("Ann"), Some("Cy"), Some("Cy"), Some("Ann"), Some("Ann")]);
    assert_eq!(c.tasks()[1].properties.len(), 2);
    assert_eq!(c.tasks()[2].properties.len(), 2);
    assert_eq!(assign_by_type(&mut c, &TaskType::Feature, "Cy"), 0);
}

#[test]
fn set_by_status_stores_the_property_on_matching_tasks() {
    let mut c = sample();
    assert_eq!(set_by_status(&mut c, "open", &PropertyKey::priority(), "high"), 3);
    let marks: Vec<Option<&str>> =
        c.tasks().iter().map(|t| t.get_property(&PropertyKey::priority())).collect();
    assert_eq!(marks, vec![Some("high"), None, Some("high"), None, Some("high")]);
    assert_eq!(set_by_status(&mut c, "open", &PropertyKey::status(), "closed"), 3);
    assert_eq!(select(&c, None, Some("open"), None).len(), 0);
    assert_eq!(select(&c, None, Some("closed"), None).len(), 3);
}

#[test]
fn merge_gives_fresh_identifiers_in_order() {
    let mut c = sample();
    let more = TaskCollection::new(vec![
        task(1, "Bug", "first", Some("open"), None),
        task(1, "Task", "second", None, None),
    ]);
    assert_eq!(merge_tasks(&mut c, &more), Ok(2));
    assert_eq!(all_ids(&c), vec![1, 2, 3, 5, 2, 6, 7]);
    assert_eq!(c.tasks()[5].subject, "first");
    assert_eq!(c.tasks()[5].task_type, TaskType::Bug);
    assert_eq!(c.tasks()[5].status(), Some("open"));
    assert_eq!(c.tasks()[6].subject, "second");

    let mut empty = TaskCollection::empty();
    assert_eq!(merge_tasks(&mut empty, &more), Ok(2));
    assert_eq!(all_ids(&empty), vec![1, 2]);

    let mut full = TaskCollection::new(vec![task(u32::MAX - 1, "Task", "x", None, None)]);
    assert_eq!(merge_tasks(&mut full, &more), Err(MergeError::IdentifiersExhausted));
    assert_eq!(all_ids(&full), vec![u32::MAX - 1]);
    assert_eq!(merge_tasks(&mut full, &TaskCollection::empty()), Ok(0));
}

#[test]
fn gaps_between_identifiers() {
    assert_eq!(id_gaps(&sample()), vec![(4, 4)]);
    let c = TaskCollection::new(vec![
        task(10, "T", "a", None, None),
        task(2, "T", "b", None, None),
        task(3, "T", "c", None, None),
        task(20, "T", "d", None, None),
        task(10, "T", "e", None, None),
    ]);
    assert_eq!(id_gaps(&c), vec![(4, 9), (11, 19)]);
    assert!(id_gaps(&TaskCollection::empty()).is_empty());
    let ends = TaskCollection::new(vec![
        task(u32::MAX, "T", "a", None, None),
        task(u32::MAX - 2, "T", "b", None, None),
    ]);
    assert_eq!(id_gaps(&ends), vec![(u32::MAX - 1, u32::MAX - 1)]);
}

#[test]
fn search_ignores_letter_case() {
    let mut c = sample();
    c.tasks_mut()[3].set_body("remove the old PARSER tables".to_string());
    assert_eq!(ids(&search(&c, "parser", false)), vec![1, 2]);
    assert_eq!(ids(&search(&c, "PARSER", false)), vec![1, 2]);
    assert_eq!(ids(&search(&c, "parser", true)), vec![1, 2, 5]);
    assert_eq!(ids(&search(&c, "", false)), vec![1, 2, 3, 5, 2]);
    assert!(search(&c, "compiler", true).is_empty());
    assert_eq!(ids(&search(&c, "Ypo", false)), vec![3]);
}

#[test]
fn counts_are_ranked_by_count_in_order_of_first_occurrence() {
    let names: Vec<String> =
        ["b", "a", "b", "c", "a", "b", "d"].iter().map(|s| s.to_string()).collect();
    let counts = count_names(&names);
    assert_eq!(
        counts,
        vec![
            ("b".to_string(), 3),
            ("a".to_string(), 2),
            ("c".to_string(), 1),
            ("d".to_string(), 1)
        ]
    );
    let ranked = rank_by_count(&vec![
        ("x".to_string(), 1),
        ("y".to_string(), 3),
        ("z".to_string(), 1),
        ("w".to_string(), 3),
        ("v".to_string(), 2),
    ]);
    let order: Vec<&str> = ranked.iter().map(|e| e.0.as_str()).collect();
    assert_eq!(order, vec!["y", "w", "v", "x", "z"]);
}

#[test]
fn statistics_of_a_collection() {
    let c = sample();
    assert_eq!(
        count_by_type(&c),
        vec![("Task".to_string(), 2), ("Bug".to_string(), 2), ("Chore".to_string(), 1)]
    );
    let (statuses, without) = count_by_property(&c, &PropertyKey::status());
    assert_eq!(statuses, vec![("open".to_string(), 3), ("done".to_string(), 1)]);
    assert_eq!(without, 1);
    let (assignees, unassigned) = count_by_property(&c, &PropertyKey::assigned_to());
    assert_eq!(assignees, vec![("Ann".to_string(), 3), ("Bob".to_string(), 1)]);
    assert_eq!(unassigned, 1);
}

#[test]
fn next_unused_id_looks_at_history_too() {
    let c = sample();
    assert_eq!(next_unused_id(&c, None).unwrap().value(), 6);
    assert_eq!(next_unused_id(&c, TaskId::new(3).ok()).unwrap().value(), 6);
    assert_eq!(next_unused_id(&c, TaskId::new(9).ok()).unwrap().value(), 10);
    assert_eq!(next_unused_id(&TaskCollection::empty(), None).unwrap().value(), 1);
    assert_eq!(next_unused_id(&TaskCollection::empty(), TaskId::new(4).ok()).unwrap().value(), 5);
    assert!(next_unused_id(&c, TaskId::new(u32::MAX).ok()).is_none());
}
