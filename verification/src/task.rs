use vstd::prelude::*;
use vstd::string::*;

verus! {

/// The lifecycle state of a task. New tasks start in `TODO`.
#[derive(Clone, Copy, Debug, PartialEq, Eq, Structural)]
pub enum TaskStatus {
    TODO,
    DOING,
    DONE,
}

/// Decimal digit.
pub open spec fn is_digit(c: char) -> bool {
    48 <= c as u32 && c as u32 <= 57
}

/// Lowercase hexadecimal digit.
pub open spec fn is_hex_lower(c: char) -> bool {
    is_digit(c) || (97 <= c as u32 && c as u32 <= 102)
}

/// Shape of position `i` of a UTC timestamp `YYYY-MM-DDTHH:MM:SSZ`.
pub open spec fn timestamp_char_ok(i: int, c: char) -> bool {
    if i == 4 || i == 7 {
        c == '-'
    } else if i == 10 {
        c == 'T'
    } else if i == 13 || i == 16 {
        c == ':'
    } else if i == 19 {
        c == 'Z'
    } else {
        is_digit(c)
    }
}

/// A UTC timestamp in the interchange form `YYYY-MM-DDTHH:MM:SSZ`.
pub open spec fn is_timestamp(s: Seq<char>) -> bool {
    s.len() == 20 && (forall|i: int| 0 <= i < 20 ==> timestamp_char_ok(i, #[trigger] s[i]))
}

/// Shape of position `i` of a hyphenated UUID string.
pub open spec fn uuid_char_ok(i: int, c: char) -> bool {
    if i == 8 || i == 13 || i == 18 || i == 23 {
        c == '-'
    } else {
        is_hex_lower(c)
    }
}

/// A canonical hyphenated UUID string: 32 lowercase hex digits in five
/// hyphen-separated groups, 36 characters in all.
pub open spec fn is_uuid(s: Seq<char>) -> bool {
    s.len() == 36 && (forall|i: int| 0 <= i < 36 ==> uuid_char_ok(i, #[trigger] s[i]))
}

/// `s` fits on a single line of the metadata block.
pub open spec fn no_newline(s: Seq<char>) -> bool {
    forall|i: int| 0 <= i < s.len() ==> #[trigger] s[i] != '\n'
}

/// A tag can be stored between commas on one metadata line: it holds
/// neither a newline nor a comma.
pub open spec fn wf_tag(t: Seq<char>) -> bool {
    forall|i: int| 0 <= i < t.len() ==> #[trigger] t[i] != '\n' && t[i] != ','
}

/// The mathematical content of a task record.
#[verifier::ext_equal]
pub struct TaskView {
    pub title: Seq<char>,
    pub status: TaskStatus,
    pub created_at: Seq<char>,
    pub updated_at: Option<Seq<char>>,
    pub id: Seq<char>,
    pub tags: Seq<Seq<char>>,
    pub description: Seq<char>,
}

/// A task record as held in memory: a structured header and a free-form body.
pub struct Task {
    pub title: String,
    pub status: TaskStatus,
    pub created_at: String,
    pub updated_at: Option<String>,
    pub id: String,
    pub tags: Vec<String>,
    pub description: String,
}

impl View for Task {
    type V = TaskView;

    open spec fn view(&self) -> TaskView {
        TaskView {
            title: self.title@,
            status: self.status,
            created_at: self.created_at@,
            updated_at: match self.updated_at {
                Some(u) => Some(u@),
                None => None,
            },
            id: self.id@,
            tags: self.tags.deep_view(),
            description: self.description@,
        }
    }
}

/// A record is well formed when every header field fits on its metadata
/// line: the title is a single line, the timestamps and the id have their
/// canonical shapes, and each tag is comma- and newline-free. The body is
/// unconstrained.
pub open spec fn wf_task(v: TaskView) -> bool {
    &&& no_newline(v.title)
    &&& is_timestamp(v.created_at)
    &&& match v.updated_at {
        Some(u) => is_timestamp(u),
        None => true,
    }
    &&& is_uuid(v.id)
    &&& forall|i: int| 0 <= i < v.tags.len() ==> wf_tag(#[trigger] v.tags[i])
}

/// Reports whether `s` has the canonical timestamp shape.
pub fn check_timestamp(s: &str) -> (r: bool)
    ensures
        r == is_timestamp(s@),
{
    let n = s.unicode_len();
    if n != 20 {
        return false;
    }
    let mut i: usize = 0;
    while i < 20
        invariant
            s@.len() == 20,
            i <= 20,
            forall|j: int| 0 <= j < i ==> timestamp_char_ok(j, #[trigger] s@[j]),
        decreases 20 - i,
    {
        let c = s.get_char(i);
        let ok: bool = if i == 4 || i == 7 {
            c == '-'
        } else if i == 10 {
            c == 'T'
        } else if i == 13 || i == 16 {
            c == ':'
        } else if i == 19 {
            c == 'Z'
        } else {
            (c as u32) >= 48 && (c as u32) <= 57
        };
        if !ok {
            assert(!timestamp_char_ok(i as int, s@[i as int]));
            return false;
        }
        i += 1;
    }
    true
}

/// Reports whether `s` has the canonical hyphenated UUID shape.
pub fn check_uuid(s: &str) -> (r: bool)
    ensures
        r == is_uuid(s@),
{
    let n = s.unicode_len();
    if n != 36 {
        return false;
    }
    let mut i: usize = 0;
    while i < 36
        invariant
            s@.len() == 36,
            i <= 36,
            forall|j: int| 0 <= j < i ==> uuid_char_ok(j, #[trigger] s@[j]),
        decreases 36 - i,
    {
        let c = s.get_char(i);
        let ok: bool = if i == 8 || i == 13 || i == 18 || i == 23 {
            c == '-'
        } else {
            ((c as u32) >= 48 && (c as u32) <= 57) || ((c as u32) >= 97 && (c as u32) <= 102)
        };
        if !ok {
            assert(!uuid_char_ok(i as int, s@[i as int]));
            return false;
        }
        i += 1;
    }
    true
}

/// Reports whether `s` is free of newlines.
pub fn check_single_line(s: &str) -> (r: bool)
    ensures
        r == no_newline(s@),
{
    let n = s.unicode_len();
    let mut i: usize = 0;
    while i < n
        invariant
            n == s@.len(),
            i <= n,
            forall|j: int| 0 <= j < i ==> #[trigger] s@[j] != '\n',
        decreases n - i,
    {
        if s.get_char(i) == '\n' {
            return false;
        }
        i += 1;
    }
    true
}

/// Reports whether `s` can be stored as one tag.
pub fn check_tag(s: &str) -> (r: bool)
    ensures
        r == wf_tag(s@),
{
    let n = s.unicode_len();
    let mut i: usize = 0;
    while i < n
        invariant
            n == s@.len(),
            i <= n,
            forall|j: int| 0 <= j < i ==> #[trigger] s@[j] != '\n' && s@[j] != ',',
        decreases n - i,
    {
        let c = s.get_char(i);
        if c == '\n' || c == ',' {
            return false;
        }
        i += 1;
    }
    true
}

} // verus!
