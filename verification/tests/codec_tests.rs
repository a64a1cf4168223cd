use td::codec::FormatError;
use td::task::Task;
use td::task::TaskStatus;

fn plain_task() -> Task {
    Task {
        title: String::from("Write tests"),
        status: TaskStatus::TODO,
        created_at: String::from("2024-05-01T12:30:00Z"),
        updated_at: None,
        id: String::from("123e4567-e89b-12d3-a456-426614174000"),
        tags: Vec::new(),
        description: String::new(),
    }
}

fn full_task() -> Task {
    Task {
        title: String::from("Fix the parser"),
        status: TaskStatus::DOING,
        created_at: String::from("2024-05-01T12:30:00Z"),
        updated_at: Some(String::from("2024-06-02T08:15:59Z")),
        id: String::from("00000000-0000-4000-8000-000000000001"),
        tags: vec![String::from("core"), String::from("parser")],
        description: String::from("line one\nline two\n"),
    }
}

#[test]
fn encode_exact_text_minimal() {
    let s = plain_task().to_string().unwrap();
    assert_eq!(
        s,
        "---\ntitle: Write tests\nstatus: todo\ncreated_at: 2024-05-01T12:30:00Z\nid: 123e4567-e89b-12d3-a456-426614174000\n---\n"
    );
}

#[test]
fn encode_exact_text_full() {
    let s = full_task().to_string().unwrap();
    assert_eq!(
        s,
        "---\ntitle: Fix the parser\nstatus: doing\ncreated_at: 2024-05-01T12:30:00Z\nupdated_at: 2024-06-02T08:15:59Z\nid: 00000000-0000-4000-8000-000000000001\ntags: [core,parser]\n---\nline one\nline two\n"
    );
}

#[test]
fn round_trip_minimal() {
    let t = plain_task();
    let s = t.to_string().unwrap();
    let d = Task::from_str(&s).unwrap();
    assert_eq!(d.title, t.title);
    assert_eq!(d.status, t.status);
    assert_eq!(d.created_at, t.created_at);
    assert_eq!(d.updated_at, t.updated_at);
    assert_eq!(d.id, t.id);
    assert_eq!(d.tags, t.tags);
    assert_eq!(d.description, t.description);
    let s2 = d.to_string().unwrap();
    assert_eq!(s2, s);
}

#[test]
fn round_trip_full() {
    let t = full_task();
    let s = t.to_string().unwrap();
    let d = Task::from_str(&s).unwrap();
    assert_eq!(d.title, t.title);
    assert_eq!(d.status, t.status);
    assert_eq!(d.created_at, t.created_at);
    assert_eq!(d.updated_at, t.updated_at);
    assert_eq!(d.id, t.id);
    assert_eq!(d.tags, t.tags);
    assert_eq!(d.description, t.description);
    let s2 = d.to_string().unwrap();
    assert_eq!(s2, s);
}

#[test]
fn decode_handwritten_text() {
    let s = "---\ntitle: T\nstatus: done\ncreated_at: 2023-01-31T23:59:59Z\nid: 123e4567-e89b-12d3-a456-426614174000\ntags: [a,b]\n---\n  body kept verbatim \n";
    let t = Task::from_str(s).unwrap();
    assert_eq!(t.title, "T");
    assert_eq!(t.status, TaskStatus::DONE);
    assert_eq!(t.created_at, "2023-01-31T23:59:59Z");
    assert_eq!(t.updated_at, None);
    assert_eq!(t.tags, vec![String::from("a"), String::from("b")]);
    assert_eq!(t.description, "  body kept verbatim \n");
}

#[test]
fn decode_missing_opening_delimiter() {
    let r = Task::from_str("title: x\n---\n");
    assert!(matches!(r, Err(FormatError::MissingOpeningDelimiter)));
}

#[test]
fn decode_empty_input() {
    let r = Task::from_str("");
    assert!(matches!(r, Err(FormatError::MissingOpeningDelimiter)));
}

#[test]
fn decode_missing_closing_delimiter() {
    let r = Task::from_str("---\ntitle: x\nstatus: todo\n");
    assert!(matches!(r, Err(FormatError::MissingClosingDelimiter)));
}

#[test]
fn decode_invalid_metadata_unknown_key() {
    let r = Task::from_str("---\nbogus: x\n---\n");
    assert!(matches!(r, Err(FormatError::InvalidMetadata)));
}

#[test]
fn decode_invalid_metadata_bad_status() {
    let r = Task::from_str(
        "---\ntitle: T\nstatus: later\ncreated_at: 2023-01-31T23:59:59Z\nid: 123e4567-e89b-12d3-a456-426614174000\n---\n",
    );
    assert!(matches!(r, Err(FormatError::InvalidMetadata)));
}

#[test]
fn decode_invalid_metadata_bad_timestamp() {
    let r = Task::from_str(
        "---\ntitle: T\nstatus: todo\ncreated_at: yesterday\nid: 123e4567-e89b-12d3-a456-426614174000\n---\n",
    );
    assert!(matches!(r, Err(FormatError::InvalidMetadata)));
}

#[test]
fn decode_invalid_metadata_bad_id() {
    let r = Task::from_str(
        "---\ntitle: T\nstatus: todo\ncreated_at: 2023-01-31T23:59:59Z\nid: not-a-uuid\n---\n",
    );
    assert!(matches!(r, Err(FormatError::InvalidMetadata)));
}

#[test]
fn encode_rejects_multiline_title() {
    let mut t = plain_task();
    t.title = String::from("a\nb");
    assert!(matches!(t.to_string(), Err(FormatError::Unencodable)));
}

#[test]
fn encode_rejects_bad_timestamp() {
    let mut t = plain_task();
    t.created_at = String::from("not a time");
    assert!(matches!(t.to_string(), Err(FormatError::Unencodable)));
}

#[test]
fn encode_rejects_comma_in_tag() {
    let mut t = plain_task();
    t.tags = vec![String::from("a,b")];
    assert!(matches!(t.to_string(), Err(FormatError::Unencodable)));
}

#[test]
fn body_with_delimiter_line_stays_verbatim() {
    let mut t = plain_task();
    t.description = String::from("---\nnot metadata\n");
    let s = t.to_string().unwrap();
    let d = Task::from_str(&s).unwrap();
    assert_eq!(d.description, "---\nnot metadata\n");
    assert_eq!(d.to_string().unwrap(), s);
}
