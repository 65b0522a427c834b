use frump::{Email, PropertyKey, TaskId, TaskType, Team, TeamMember, ValidationError};

#[test]
fn test_valid_task_id() {
    let id = TaskId::new(1).unwrap();
    assert_eq!(id.value(), 1);
}

#[test]
fn test_zero_task_id_fails() {
    assert!(TaskId::new(0).is_err());
}

#[test]
fn test_task_id_next() {
    let id = TaskId::new(5).unwrap();
    let next = id.next();
    assert_eq!(next.value(), 6);
}

#[test]
fn test_task_id_ordering() {
    let id1 = TaskId::new(1).unwrap();
    let id2 = TaskId::new(2).unwrap();
    assert!(id1 < id2);
}

#[test]
fn task_id_zero_is_the_only_refused_value() {
    assert_eq!(TaskId::new(0), Err(ValidationError::ZeroTaskId));
    assert_eq!(TaskId::new(u32::MAX).unwrap().value(), u32::MAX);
    assert_eq!(TaskId::new(41).unwrap().next().value(), 42);
}

#[test]
fn task_id_is_written_in_base_ten() {
    assert_eq!(TaskId::new(7).unwrap().to_string(), "7");
    assert_eq!(TaskId::new(120).unwrap().to_string(), "120");
    assert_eq!(TaskId::new(4294967295).unwrap().to_string(), "4294967295");
}

#[test]
fn test_valid_single_word() {
    let key = PropertyKey::new("Status").unwrap();
    assert_eq!(key.as_str(), "Status");
}

#[test]
fn test_valid_two_words() {
    let key = PropertyKey::new("Assigned To").unwrap();
    assert_eq!(key.as_str(), "Assigned To");
}

#[test]
fn test_valid_three_words() {
    let key = PropertyKey::new("Some Other Property").unwrap();
    assert_eq!(key.as_str(), "Some Other Property");
}

#[test]
fn test_invalid_lowercase() {
    assert!(PropertyKey::new("status").is_err());
}

#[test]
fn test_invalid_too_many_words() {
    assert!(PropertyKey::new("This Has Too Many Words").is_err());
}

#[test]
fn test_invalid_empty() {
    assert!(PropertyKey::new("").is_err());
}

#[test]
fn test_predefined_keys() {
    assert_eq!(PropertyKey::status().as_str(), "Status");
    assert_eq!(PropertyKey::assigned_to().as_str(), "Assigned To");
    assert_eq!(PropertyKey::tags().as_str(), "Tags");
}

#[test]
fn test_try_parse() {
    assert!(PropertyKey::try_parse("Status").is_some());
    assert!(PropertyKey::try_parse("status").is_none());
}

#[test]
fn property_key_errors_name_the_broken_rule() {
    assert_eq!(PropertyKey::new("status"), Err(ValidationError::KeyNotCapitalized));
    assert_eq!(PropertyKey::new(""), Err(ValidationError::KeyEmpty));
    assert_eq!(PropertyKey::new(" \t\u{3000}"), Err(ValidationError::KeyEmpty));
    assert_eq!(PropertyKey::new(" Status"), Err(ValidationError::KeyNotCapitalized));
    assert_eq!(PropertyKey::new("a b c d e"), Err(ValidationError::KeyNotCapitalized));
    assert_eq!(
        PropertyKey::new("This Has Too Many Words"),
        Err(ValidationError::KeyTooManyWords)
    );
    assert_eq!(PropertyKey::new("A b\tc").unwrap().as_str(), "A b\tc");
    assert_eq!(PropertyKey::new("A  b \u{3000} c  "), Ok(PropertyKey::new("A  b \u{3000} c  ").unwrap()));
    assert_eq!(PropertyKey::new("A b c d"), Err(ValidationError::KeyTooManyWords));
}

#[test]
fn property_key_accepts_uppercase_beyond_ascii() {
    assert_eq!(PropertyKey::new("Ärger").unwrap().as_str(), "Ärger");
    assert_eq!(PropertyKey::new("Δelta").unwrap().as_str(), "Δelta");
    assert_eq!(PropertyKey::new("ärger"), Err(ValidationError::KeyNotCapitalized));
    assert_eq!(PropertyKey::new("δelta"), Err(ValidationError::KeyNotCapitalized));
    assert_eq!(PropertyKey::new("1st"), Err(ValidationError::KeyNotCapitalized));
}

#[test]
fn remaining_predefined_keys() {
    assert_eq!(PropertyKey::priority().as_str(), "Priority");
    assert_eq!(PropertyKey::due_date().as_str(), "Due Date");
    assert_eq!(PropertyKey::due_date(), PropertyKey::new("Due Date").unwrap());
}

#[test]
fn test_standard_types() {
    assert_eq!(TaskType::parse("Task"), TaskType::Task);
    assert_eq!(TaskType::parse("Bug"), TaskType::Bug);
    assert_eq!(TaskType::parse("Issue"), TaskType::Issue);
    assert_eq!(TaskType::parse("Feature"), TaskType::Feature);
}

#[test]
fn test_custom_type() {
    let custom = TaskType::parse("Enhancement");
    assert_eq!(custom, TaskType::Custom("Enhancement".to_string()));
}

#[test]
fn test_display() {
    assert_eq!(TaskType::Task.to_string(), "Task");
    assert_eq!(TaskType::Bug.to_string(), "Bug");
    assert_eq!(TaskType::Custom("Test".to_string()).to_string(), "Test");
}

#[test]
fn task_type_tokens_are_case_sensitive() {
    assert_eq!(TaskType::parse("task"), TaskType::Custom("task".to_string()));
    assert_eq!(TaskType::parse(""), TaskType::Custom(String::new()));
    assert_eq!(TaskType::parse("Issue").as_str(), "Issue");
    assert_eq!(TaskType::parse("Feature").as_str(), "Feature");
    assert_eq!(TaskType::parse("Chore").as_str(), "Chore");
    assert!(TaskType::Bug.same(&TaskType::parse("Bug")));
    assert!(!TaskType::Bug.same(&TaskType::Task));
    assert!(TaskType::parse("X").same(&TaskType::Custom("X".to_string())));
    assert!(!TaskType::parse("X").same(&TaskType::Custom("Y".to_string())));
}

#[test]
fn test_valid_email() {
    let email = Email::new("test@example.com").unwrap();
    assert_eq!(email.as_str(), "test@example.com");
}

#[test]
fn test_invalid_email_no_at() {
    assert!(Email::new("testexample.com").is_err());
}

#[test]
fn test_invalid_email_multiple_at() {
    assert!(Email::new("test@@example.com").is_err());
}

#[test]
fn test_invalid_email_empty_parts() {
    assert!(Email::new("@example.com").is_err());
    assert!(Email::new("test@").is_err());
}

#[test]
fn email_rules() {
    assert_eq!(Email::new("a@b").unwrap().as_str(), "a@b");
    assert_eq!(Email::new("ab"), Err(ValidationError::EmailMissingAt));
    assert_eq!(Email::new(""), Err(ValidationError::EmailMissingAt));
    assert_eq!(Email::new("a@@b"), Err(ValidationError::EmailMultipleAt));
    assert_eq!(Email::new("a@b@c"), Err(ValidationError::EmailMultipleAt));
    assert_eq!(Email::new("@b"), Err(ValidationError::EmailEmptyPart));
    assert_eq!(Email::new("a@"), Err(ValidationError::EmailEmptyPart));
    assert_eq!(Email::new("@"), Err(ValidationError::EmailEmptyPart));
}

#[test]
fn email_is_trimmed() {
    assert_eq!(Email::new("  a@b \t\n").unwrap().as_str(), "a@b");
    assert_eq!(Email::new("\u{a0}a b@c\u{2003}").unwrap().as_str(), "a b@c");
    assert_eq!(Email::new(" @b "), Err(ValidationError::EmailEmptyPart));
}

#[test]
fn test_team_member() {
    let email = Email::new("john@example.com").unwrap();
    let member = TeamMember::new("John Doe".to_string(), email);
    assert_eq!(member.name, "John Doe");
    assert_eq!(member.email.as_str(), "john@example.com");
    assert!(member.role.is_none());
}

#[test]
fn test_team_member_with_role() {
    let email = Email::new("john@example.com").unwrap();
    let member =
        TeamMember::new("John Doe".to_string(), email).with_role("Developer".to_string());
    assert_eq!(member.role, Some("Developer".to_string()));
}

#[test]
fn test_team_default_assignee() {
    let email1 = Email::new("john@example.com").unwrap();
    let email2 = Email::new("jane@example.com").unwrap();

    let members = vec![
        TeamMember::new("John".to_string(), email1),
        TeamMember::new("Jane".to_string(), email2),
    ];

    let team = Team::new(members);
    assert_eq!(team.default_assignee().unwrap().name, "John");
}

#[test]
fn test_team_find_by_name() {
    let email = Email::new("john@example.com").unwrap();
    let member = TeamMember::new("John Doe".to_string(), email);
    let team = Team::new(vec![member]);

    assert!(team.find_by_name("John Doe").is_some());
    assert!(team.find_by_name("Jane").is_none());
}

#[test]
fn test_empty_team() {
    let team = Team::empty();
    assert!(team.is_empty());
    assert_eq!(team.len(), 0);
    assert!(team.default_assignee().is_none());
}

#[test]
fn team_keeps_order_and_finds_the_first_match() {
    let mut team = Team::empty();
    team.add_member(TeamMember::new("Ann".to_string(), Email::new("ann@x").unwrap()));
    team.add_member(
        TeamMember::new("Bob".to_string(), Email::new("bob@x").unwrap())
            .with_role("first".to_string()),
    );
    let mut second = TeamMember::new("Bob".to_string(), Email::new("ann@x").unwrap());
    second.set_role("second".to_string());
    team.add_member(second);
    assert_eq!(team.len(), 3);
    assert!(!team.is_empty());
    assert_eq!(team.members()[2].role, Some("second".to_string()));
    assert_eq!(team.default_assignee().unwrap().name, "Ann");
    assert_eq!(team.find_by_name("Bob").unwrap().role, Some("first".to_string()));
    assert_eq!(team.find_by_email("ann@x").unwrap().name, "Ann");
    assert_eq!(team.find_by_email("bob@x").unwrap().name, "Bob");
    assert!(team.find_by_email("carl@x").is_none());
    let copy = team.clone();
    assert_eq!(copy.members(), team.members());
}

#[test]
fn conversions() {
    assert_eq!(u32::from(TaskId::new(5).unwrap()), 5);
    let n: u32 = TaskId::new(u32::MAX).unwrap().into();
    assert_eq!(n, u32::MAX);
    assert_eq!(TaskType::from("Bug"), TaskType::Bug);
    assert_eq!(TaskType::from("Other".to_string()), TaskType::Custom("Other".to_string()));
    assert_eq!(TaskType::parse("Bug").clone(), TaskType::Bug);
}
