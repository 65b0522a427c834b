use frump::{
    Email, FrumpDoc, PropertyKey, Task, TaskCollection, TaskId, TaskType, Team, TeamMember,
};

fn create_test_task(id: u32, subject: &str) -> Task {
    Task::new(TaskId::new(id).unwrap(), TaskType::Task, subject.to_string())
}

#[test]
fn test_new_task() {
    let id = TaskId::new(1).unwrap();
    let task = Task::new(id, TaskType::Task, "test task".to_string());
    assert_eq!(task.id, id);
    assert_eq!(task.subject, "test task");
    assert!(task.body.is_empty());
    assert!(task.properties.is_empty());
}

#[test]
fn test_with_body() {
    let id = TaskId::new(1).unwrap();
    let task = Task::new(id, TaskType::Task, "test".to_string())
        .with_body("This is the body".to_string());
    assert_eq!(task.body, "This is the body");
}

#[test]
fn test_add_property() {
    let id = TaskId::new(1).unwrap();
    let mut task = Task::new(id, TaskType::Task, "test".to_string());
    task.add_property(PropertyKey::status(), "working".to_string());
    assert_eq!(task.get_property(&PropertyKey::status()), Some("working"));
}

#[test]
fn test_set_property_updates_existing() {
    let id = TaskId::new(1).unwrap();
    let mut task = Task::new(id, TaskType::Task, "test".to_string());
    task.add_property(PropertyKey::status(), "pending".to_string());
    task.set_property(PropertyKey::status(), "working".to_string());
    assert_eq!(task.get_property(&PropertyKey::status()), Some("working"));
    assert_eq!(task.properties.len(), 1);
}

#[test]
fn test_convenience_methods() {
    let id = TaskId::new(1).unwrap();
    let mut task = Task::new(id, TaskType::Task, "test".to_string());

    task.set_status("working".to_string());
    assert_eq!(task.status(), Some("working"));

    task.set_assignee("John".to_string());
    assert_eq!(task.assignee(), Some("John"));
}

#[test]
fn test_remove_property() {
    let id = TaskId::new(1).unwrap();
    let mut task = Task::new(id, TaskType::Task, "test".to_string());
    task.add_property(PropertyKey::status(), "working".to_string());
    task.remove_property(&PropertyKey::status());
    assert_eq!(task.get_property(&PropertyKey::status()), None);
}

#[test]
fn duplicate_keys_get_first_set_first_remove_all() {
    let mut task = create_test_task(1, "t");
    task.add_property(PropertyKey::status(), "one".to_string());
    task.add_property(PropertyKey::priority(), "high".to_string());
    task.add_property(PropertyKey::status(), "two".to_string());
    assert_eq!(task.properties.len(), 3);
    assert_eq!(task.get_property(&PropertyKey::status()), Some("one"));

    task.set_property(PropertyKey::status(), "three".to_string());
    assert_eq!(task.properties.len(), 3);
    assert_eq!(task.properties[0].value, "three");
    assert_eq!(task.properties[2].value, "two");

    task.set_property(PropertyKey::tags(), "a".to_string());
    assert_eq!(task.properties.len(), 4);
    assert_eq!(task.properties[3].key, PropertyKey::tags());

    task.remove_property(&PropertyKey::status());
    assert_eq!(task.properties.len(), 2);
    assert_eq!(task.properties[0].key, PropertyKey::priority());
    assert_eq!(task.properties[1].key, PropertyKey::tags());
    assert_eq!(task.status(), None);
}

#[test]
fn set_body_replaces_the_body() {
    let mut task = create_test_task(1, "t").with_body("old".to_string());
    task.set_body("new\nbody".to_string());
    assert_eq!(task.body, "new\nbody");
    assert_eq!(task.subject, "t");
}

#[test]
fn tags_are_split_at_commas_and_trimmed() {
    let mut task = create_test_task(1, "t");
    assert_eq!(task.tags(), None);
    task.set_property(PropertyKey::tags(), " a, b c ,,d ".to_string());
    assert_eq!(
        task.tags(),
        Some(vec!["a".to_string(), "b c".to_string(), String::new(), "d".to_string()])
    );
    task.set_property(PropertyKey::tags(), String::new());
    assert_eq!(task.tags(), Some(vec![String::new()]));
}

#[test]
fn clone_keeps_every_field() {
    let mut task = Task::new(TaskId::new(9).unwrap(), TaskType::parse("Chore"), "s".to_string())
        .with_body("b".to_string());
    task.set_status("open".to_string());
    let copy = task.clone();
    assert_eq!(copy.id, task.id);
    assert_eq!(copy.task_type, TaskType::Custom("Chore".to_string()));
    assert_eq!(copy.subject, "s");
    assert_eq!(copy.body, "b");
    assert_eq!(copy.properties, task.properties);
}

#[test]
fn test_empty_collection() {
    let collection = TaskCollection::empty();
    assert!(collection.is_empty());
    assert_eq!(collection.len(), 0);
}

#[test]
fn test_next_id_empty() {
    let collection = TaskCollection::empty();
    assert_eq!(collection.next_id().value(), 1);
}

#[test]
fn test_next_id() {
    let tasks = vec![create_test_task(1, "test"), create_test_task(3, "test2")];
    let collection = TaskCollection::new(tasks);
    assert_eq!(collection.next_id().value(), 4);
}

#[test]
fn test_find_by_id() {
    let tasks = vec![create_test_task(1, "test"), create_test_task(2, "test2")];
    let collection = TaskCollection::new(tasks);

    assert!(collection.find_by_id(TaskId::new(1).unwrap()).is_some());
    assert!(collection.find_by_id(TaskId::new(3).unwrap()).is_none());
}

#[test]
fn test_add_task() {
    let mut collection = TaskCollection::empty();
    collection.add(create_test_task(1, "test"));
    assert_eq!(collection.len(), 1);
}

#[test]
fn test_remove_task() {
    let mut collection = TaskCollection::new(vec![create_test_task(1, "test")]);
    let removed = collection.remove(TaskId::new(1).unwrap());
    assert!(removed.is_some());
    assert!(collection.is_empty());
}

#[test]
fn test_filter_by_type() {
    let tasks = vec![
        Task::new(TaskId::new(1).unwrap(), TaskType::Task, "test".to_string()),
        Task::new(TaskId::new(2).unwrap(), TaskType::Bug, "bug".to_string()),
    ];
    let collection = TaskCollection::new(tasks);

    let bugs = collection.filter_by_type(&TaskType::Bug);
    assert_eq!(bugs.len(), 1);
    assert_eq!(bugs[0].id.value(), 2);
}

#[test]
fn test_filter_by_status() {
    let mut task1 = create_test_task(1, "test1");
    task1.set_status("working".to_string());

    let mut task2 = create_test_task(2, "test2");
    task2.set_status("done".to_string());

    let collection = TaskCollection::new(vec![task1, task2]);
    let working = collection.filter_by_status("working");
    assert_eq!(working.len(), 1);
}

#[test]
fn max_id_is_the_largest_wherever_it_stands() {
    assert!(TaskCollection::empty().max_id().is_none());
    let collection = TaskCollection::new(vec![
        create_test_task(4, "a"),
        create_test_task(9, "b"),
        create_test_task(2, "c"),
        create_test_task(9, "d"),
    ]);
    assert_eq!(collection.max_id().unwrap().value(), 9);
    assert_eq!(collection.next_id().value(), 10);
}

#[test]
fn duplicates_are_found_and_removed_first_first() {
    let mut collection = TaskCollection::new(vec![
        create_test_task(1, "a"),
        create_test_task(2, "first"),
        create_test_task(2, "second"),
    ]);
    assert_eq!(collection.find_by_id(TaskId::new(2).unwrap()).unwrap().subject, "first");
    collection.find_by_id_mut(TaskId::new(2).unwrap()).unwrap().subject = "changed".to_string();
    assert_eq!(collection.tasks()[1].subject, "changed");
    assert_eq!(collection.tasks()[2].subject, "second");
    assert!(collection.find_by_id_mut(TaskId::new(7).unwrap()).is_none());

    let removed = collection.remove(TaskId::new(2).unwrap()).unwrap();
    assert_eq!(removed.subject, "changed");
    assert_eq!(collection.len(), 2);
    assert_eq!(collection.tasks()[1].subject, "second");
    assert!(collection.remove(TaskId::new(5).unwrap()).is_none());
    assert_eq!(collection.len(), 2);
}

#[test]
fn tasks_mut_changes_the_collection() {
    let mut collection = TaskCollection::new(vec![create_test_task(1, "a")]);
    collection.tasks_mut().push(create_test_task(2, "b"));
    collection.tasks_mut()[0].subject = "z".to_string();
    assert_eq!(collection.len(), 2);
    assert_eq!(collection.tasks()[0].subject, "z");
    assert_eq!(collection.tasks()[1].id.value(), 2);
}

#[test]
fn filters_keep_order_and_compare_whole_values() {
    let mut a = create_test_task(1, "a");
    a.set_assignee("Ann".to_string());
    a.set_status("open".to_string());
    let mut b = Task::new(TaskId::new(2).unwrap(), TaskType::parse("Chore"), "b".to_string());
    b.set_assignee("Bob".to_string());
    let mut c = create_test_task(3, "c");
    c.set_assignee("Ann".to_string());
    c.add_property(PropertyKey::status(), "open".to_string());
    c.add_property(PropertyKey::status(), "done".to_string());
    let collection = TaskCollection::new(vec![a, b, c]);

    let of_ann = collection.filter_by_assignee("Ann");
    assert_eq!(of_ann.len(), 2);
    assert_eq!(of_ann[0].id.value(), 1);
    assert_eq!(of_ann[1].id.value(), 3);
    assert!(collection.filter_by_assignee("An").is_empty());

    let open = collection.filter_by_status("open");
    assert_eq!(open.len(), 2);
    assert!(collection.filter_by_status("done").is_empty());

    let chores = collection.filter_by_type(&TaskType::Custom("Chore".to_string()));
    assert_eq!(chores.len(), 1);
    assert_eq!(chores[0].subject, "b");
    assert_eq!(collection.filter_by_type(&TaskType::Task).len(), 2);
}

#[test]
fn default_assignee_goes_to_unassigned_tasks_only() {
    let team = Team::new(vec![
        TeamMember::new("Ann".to_string(), Email::new("ann@x").unwrap()),
        TeamMember::new("Bob".to_string(), Email::new("bob@x").unwrap()),
    ]);
    let mut assigned = create_test_task(2, "b");
    assigned.set_assignee("Bob".to_string());
    let tasks = TaskCollection::new(vec![create_test_task(1, "a"), assigned]);
    let mut doc = FrumpDoc::new("# H\n".to_string(), team, tasks);
    doc.apply_default_assignees();
    assert_eq!(doc.tasks.tasks()[0].assignee(), Some("Ann"));
    assert_eq!(doc.tasks.tasks()[1].assignee(), Some("Bob"));
    assert_eq!(doc.tasks.tasks()[1].properties.len(), 1);
    assert_eq!(doc.header, "# H\n");
}

#[test]
fn default_assignee_without_team_changes_nothing() {
    let tasks = TaskCollection::new(vec![create_test_task(1, "a")]);
    let mut doc = FrumpDoc::new(String::new(), Team::empty(), tasks);
    doc.apply_default_assignees();
    assert_eq!(doc.tasks.tasks()[0].assignee(), None);
    assert!(doc.tasks.tasks()[0].properties.is_empty());
}
