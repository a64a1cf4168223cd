use vstd::prelude::*;
use vstd::string::*;
use crate::task::Task;
use crate::task::TaskStatus;
use crate::task::is_timestamp;
use crate::task::is_uuid;
use crate::task::check_timestamp;
use crate::tags::parse_tags;
use crate::tags::spec_parse_tags;

verus! {

/// The arguments of the `add` command: a title, an optional description,
/// and an optional comma-separated tag list.
pub struct AddArgs {
    pub title: String,
    pub desc: Option<String>,
    pub tags: Option<String>,
}

/// Relies on uuid's `Uuid::new_v4` and its `Display` form: a version-4
/// identifier printed as 32 lowercase hexadecimal digits in five
/// hyphen-separated groups, 36 characters in all.
#[verifier::external_body]
fn fresh_uuid_string() -> (r: String)
    ensures
        is_uuid(r@),
{
    uuid::Uuid::new_v4().to_string()
}

/// Relies on chrono's `Utc::now` and `DateTime::to_rfc3339_opts`: the
/// current UTC time as RFC 3339 text. Nothing is assumed of its shape;
/// the caller checks it.
#[verifier::external_body]
fn now_rfc3339_string() -> String {
    chrono::Utc::now().to_rfc3339_opts(chrono::SecondsFormat::Secs, true)
}

/// The creation time recorded when the clock's text cannot be carried by
/// the record format.
fn fallback_timestamp() -> (r: String)
    ensures
        is_timestamp(r@),
{
    let s: &str = "1970-01-01T00:00:00Z";
    proof {
        reveal_strlit("1970-01-01T00:00:00Z");
        assert(is_timestamp(s@));
    }
    s.to_owned()
}

impl Task {
    /// Creates the record of the `add` command: the given title, `TODO`
    /// status, a fresh identifier, the current time, the parsed tag list,
    /// the given description or an empty body, and no update time.
    pub fn new(args: &AddArgs) -> (r: Task)
        ensures
            r.title@ == args.title@,
            r.status == TaskStatus::TODO,
            r.updated_at is None,
            is_timestamp(r.created_at@),
            is_uuid(r.id@),
            r.tags.deep_view() == match args.tags {
                Some(t) => spec_parse_tags(t@),
                None => Seq::<Seq<char>>::empty(),
            },
            r.description@ == match args.desc {
                Some(d) => d@,
                None => Seq::<char>::empty(),
            },
    {
        let now = now_rfc3339_string();
        let created_at = if check_timestamp(now.as_str()) {
            now
        } else {
            fallback_timestamp()
        };
        let id = fresh_uuid_string();
        let tags: Vec<String> = match &args.tags {
            Some(t) => parse_tags(t.as_str()),
            None => Vec::new(),
        };
        proof {
            if args.tags is None {
                assert(tags.deep_view() =~= Seq::<Seq<char>>::empty());
            }
        }
        let description: String = match &args.desc {
            Some(d) => d.clone(),
            None => String::new(),
        };
        Task {
            title: args.title.clone(),
            status: TaskStatus::TODO,
            created_at,
            updated_at: None,
            id,
            tags,
            description,
        }
    }
}

} // verus!
