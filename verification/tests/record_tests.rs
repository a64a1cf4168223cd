use td::record::AddArgs;
use td::tags::parse_tags;
use td::task::check_timestamp;
use td::task::check_uuid;
use td::task::Task;
use td::task::TaskStatus;

#[test]
fn add_with_title_only() {
    let args = AddArgs { title: String::from("Write tests"), desc: None, tags: None };
    let t = Task::new(&args);
    assert_eq!(t.title, "Write tests");
    assert_eq!(t.status, TaskStatus::TODO);
    assert!(t.tags.is_empty());
    assert!(t.updated_at.is_none());
    assert_eq!(t.description, "");
    assert!(!t.id.is_empty());
    assert!(check_uuid(&t.id));
    assert!(check_timestamp(&t.created_at));
    let s = t.to_string().unwrap();
    assert!(!s.contains("tags: ["));
    assert!(!s.contains("updated_at: "));
    let d = Task::from_str(&s).unwrap();
    assert_eq!(d.id, t.id);
    assert_eq!(d.created_at, t.created_at);
    assert_eq!(d.title, t.title);
}

#[test]
fn add_parses_and_trims_tags() {
    let args = AddArgs {
        title: String::from("t"),
        desc: None,
        tags: Some(String::from("a, b ,c")),
    };
    let t = Task::new(&args);
    assert_eq!(t.tags, vec![String::from("a"), String::from("b"), String::from("c")]);
}

#[test]
fn add_keeps_description() {
    let args = AddArgs {
        title: String::from("t"),
        desc: Some(String::from("some body\n")),
        tags: None,
    };
    let t = Task::new(&args);
    assert_eq!(t.description, "some body\n");
}

#[test]
fn fresh_ids_differ_between_records() {
    let args = AddArgs { title: String::from("t"), desc: None, tags: None };
    let a = Task::new(&args);
    let b = Task::new(&args);
    assert_ne!(a.id, b.id);
}

#[test]
fn parse_tags_trims_whitespace() {
    assert_eq!(
        parse_tags("a, b ,c"),
        vec![String::from("a"), String::from("b"), String::from("c")]
    );
}

#[test]
fn parse_tags_keeps_empty_pieces() {
    assert_eq!(
        parse_tags("a,,b"),
        vec![String::from("a"), String::from(""), String::from("b")]
    );
    assert_eq!(parse_tags(""), vec![String::from("")]);
}
