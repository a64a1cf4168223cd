use vstd::prelude::*;
use vstd::string::*;
use crate::task::TaskStatus;
use crate::task::TaskView;
use crate::task::Task;
use crate::task::is_timestamp;
use crate::task::is_uuid;
use crate::task::no_newline;
use crate::task::wf_tag;
use crate::task::wf_task;
use crate::task::check_timestamp;
use crate::task::check_uuid;
use crate::task::check_single_line;
use crate::task::check_tag;
use crate::tags::split_from;
use crate::tags::split_plain;
use crate::tags::lemma_dist_to_found;
use crate::tags::lemma_dist_to_end;
use crate::tags::lemma_split_sub;

verus! {

/// Why a record could not be decoded from or encoded into the file format.
#[derive(Clone, Copy, Debug, PartialEq, Eq, Structural)]
pub enum FormatError {
    /// The content does not begin with a delimiter line.
    MissingOpeningDelimiter,
    /// No delimiter line closes the metadata block.
    MissingClosingDelimiter,
    /// The metadata block does not follow the key-value grammar.
    InvalidMetadata,
    /// A field holds a character the line format cannot carry.
    Unencodable,
}

pub open spec fn nl_s() -> Seq<char> {
    "\n"@
}

/// The delimiter line that opens and closes the metadata block.
pub open spec fn delim() -> Seq<char> {
    "---\n"@
}

pub open spec fn key_title() -> Seq<char> {
    "title: "@
}

pub open spec fn key_status() -> Seq<char> {
    "status: "@
}

pub open spec fn key_created() -> Seq<char> {
    "created_at: "@
}

pub open spec fn key_updated() -> Seq<char> {
    "updated_at: "@
}

pub open spec fn key_id() -> Seq<char> {
    "id: "@
}

pub open spec fn key_tags() -> Seq<char> {
    "tags: ["@
}

pub open spec fn tags_end() -> Seq<char> {
    "]\n"@
}

/// The serialized token of a status value.
pub open spec fn status_token(st: TaskStatus) -> Seq<char> {
    match st {
        TaskStatus::TODO => "todo"@,
        TaskStatus::DOING => "doing"@,
        TaskStatus::DONE => "done"@,
    }
}

/// One metadata line: key, value, newline.
pub open spec fn line_of(key: Seq<char>, val: Seq<char>) -> Seq<char> {
    key + val + nl_s()
}

/// The tag values joined by commas.
pub open spec fn join_tags(tags: Seq<Seq<char>>) -> Seq<char>
    decreases tags.len(),
{
    if tags.len() == 0 {
        Seq::empty()
    } else if tags.len() == 1 {
        tags[0]
    } else {
        tags[0] + ","@ + join_tags(tags.drop_first())
    }
}

/// The title line of a record's metadata block.
pub open spec fn meta_l1(v: TaskView) -> Seq<char> {
    line_of(key_title(), v.title)
}

/// The status line of a record's metadata block.
pub open spec fn meta_l2(v: TaskView) -> Seq<char> {
    line_of(key_status(), status_token(v.status))
}

/// The creation-time line of a record's metadata block.
pub open spec fn meta_l3(v: TaskView) -> Seq<char> {
    line_of(key_created(), v.created_at)
}

/// The update-time line of a record's metadata block; empty when the
/// record was never updated.
pub open spec fn meta_lu(v: TaskView) -> Seq<char> {
    match v.updated_at {
        Some(u) => line_of(key_updated(), u),
        None => Seq::empty(),
    }
}

/// The id line of a record's metadata block.
pub open spec fn meta_l4(v: TaskView) -> Seq<char> {
    line_of(key_id(), v.id)
}

/// The tags line of a record's metadata block; empty when the record has
/// no tags.
pub open spec fn meta_lt(v: TaskView) -> Seq<char> {
    if v.tags.len() == 0 {
        Seq::empty()
    } else {
        key_tags() + join_tags(v.tags) + tags_end()
    }
}

/// The metadata block of a record: one line per present field, in fixed
/// order; `updated_at` is omitted when absent and `tags` when empty.
pub open spec fn meta_of(v: TaskView) -> Seq<char> {
    meta_l1(v) + meta_l2(v) + meta_l3(v) + meta_lu(v) + meta_l4(v) + meta_lt(v)
}

/// The textual form of a record: delimiter line, metadata block,
/// delimiter line, then the body verbatim.
pub open spec fn spec_encode(v: TaskView) -> Seq<char> {
    delim() + meta_of(v) + delim() + v.description
}

/// Index of the first newline at or after `i` (`s.len()` when none).
pub open spec fn find_nl(s: Seq<char>, i: int) -> int
    decreases s.len() - i when 0 <= i
{
    if i >= s.len() {
        s.len() as int
    } else if s[i] == '\n' {
        i
    } else {
        find_nl(s, i + 1)
    }
}

/// If the characters of `p` stand in `s` at position `i`, the position
/// just past them.
pub open spec fn expect_at(s: Seq<char>, i: int, p: Seq<char>) -> Option<int> {
    if 0 <= i && i + p.len() <= s.len() && s.subrange(i, i + p.len()) == p {
        Some(i + p.len())
    } else {
        None
    }
}

/// The characters from `i` up to the next newline, and the position just
/// past that newline; nothing when no newline follows.
pub open spec fn take_value(s: Seq<char>, i: int) -> Option<(Seq<char>, int)> {
    let j = find_nl(s, i);
    if j < s.len() {
        Some((s.subrange(i, j), j + 1))
    } else {
        None
    }
}

/// Position `i` starts a closing delimiter line: the delimiter characters
/// stand there and a line begins there.
pub open spec fn close_at(s: Seq<char>, i: int) -> bool {
    expect_at(s, i, delim()) is Some && (i == 4 || (4 <= i && s[i - 1] == '\n'))
}

/// The first closing delimiter line at or after `i`.
pub open spec fn find_close(s: Seq<char>, i: int) -> Option<int>
    decreases s.len() - i when 0 <= i
{
    if close_at(s, i) {
        Some(i)
    } else if i >= s.len() {
        None
    } else {
        find_close(s, i + 1)
    }
}

/// The status named by a serialized token.
pub open spec fn parse_status(v: Seq<char>) -> Option<TaskStatus> {
    if v == status_token(TaskStatus::TODO) {
        Some(TaskStatus::TODO)
    } else if v == status_token(TaskStatus::DOING) {
        Some(TaskStatus::DOING)
    } else if v == status_token(TaskStatus::DONE) {
        Some(TaskStatus::DONE)
    } else {
        None
    }
}

/// The fields read from a metadata block.
#[verifier::ext_equal]
pub struct MetaView {
    pub title: Seq<char>,
    pub status: TaskStatus,
    pub created_at: Seq<char>,
    pub updated_at: Option<Seq<char>>,
    pub id: Seq<char>,
    pub tags: Seq<Seq<char>>,
}

/// Parses the fixed-order metadata block: `title`, `status`, `created_at`,
/// then the optional and trailing fields.
pub open spec fn spec_parse_meta(m: Seq<char>) -> Option<MetaView> {
    match expect_at(m, 0, key_title()) {
        None => None,
        Some(i1) => match take_value(m, i1) {
            None => None,
            Some((title, i2)) => match expect_at(m, i2, key_status()) {
                None => None,
                Some(i3) => match take_value(m, i3) {
                    None => None,
                    Some((stv, i4)) => match parse_status(stv) {
                        None => None,
                        Some(st) => match expect_at(m, i4, key_created()) {
                            None => None,
                            Some(i5) => match take_value(m, i5) {
                                None => None,
                                Some((ca, i6)) => if !is_timestamp(ca) {
                                    None
                                } else {
                                    spec_parse_tail(m, i6, title, st, ca)
                                },
                            },
                        },
                    },
                },
            },
        },
    }
}

/// Parses the optional `updated_at` line, then the `id` and `tags` lines.
pub open spec fn spec_parse_tail(
    m: Seq<char>,
    i: int,
    title: Seq<char>,
    st: TaskStatus,
    ca: Seq<char>,
) -> Option<MetaView> {
    match expect_at(m, i, key_updated()) {
        Some(j) => match take_value(m, j) {
            None => None,
            Some((ua, i2)) => if !is_timestamp(ua) {
                None
            } else {
                spec_parse_id_tags(m, i2, title, st, ca, Some(ua))
            },
        },
        None => spec_parse_id_tags(m, i, title, st, ca, None),
    }
}

/// Parses the `id` line and, when the block continues, the `tags` line,
/// which must close the block.
pub open spec fn spec_parse_id_tags(
    m: Seq<char>,
    i: int,
    title: Seq<char>,
    st: TaskStatus,
    ca: Seq<char>,
    ua: Option<Seq<char>>,
) -> Option<MetaView> {
    match expect_at(m, i, key_id()) {
        None => None,
        Some(j) => match take_value(m, j) {
            None => None,
            Some((idv, i2)) => if !is_uuid(idv) {
                None
            } else if i2 == m.len() {
                Some(
                    MetaView {
                        title: title,
                        status: st,
                        created_at: ca,
                        updated_at: ua,
                        id: idv,
                        tags: Seq::empty(),
                    },
                )
            } else {
                match expect_at(m, i2, key_tags()) {
                    None => None,
                    Some(j2) => match take_value(m, j2) {
                        None => None,
                        Some((tv, i3)) => if i3 == m.len() && tv.len() >= 1 && tv.last() == ']' {
                            Some(
                                MetaView {
                                    title: title,
                                    status: st,
                                    created_at: ca,
                                    updated_at: ua,
                                    id: idv,
                                    tags: split_from(tv.subrange(0, tv.len() - 1), 0),
                                },
                            )
                        } else {
                            None
                        },
                    },
                }
            },
        },
    }
}

/// The record denoted by `s`, or the reason `s` denotes none: the content
/// must open with a delimiter line and hold a closing delimiter line; the
/// block between them must parse; the body after the closing delimiter is
/// taken verbatim.
pub open spec fn spec_decode(s: Seq<char>) -> Result<TaskView, FormatError> {
    if expect_at(s, 0, delim()) is None {
        Err(FormatError::MissingOpeningDelimiter)
    } else {
        match find_close(s, 4) {
            None => Err(FormatError::MissingClosingDelimiter),
            Some(k) => match spec_parse_meta(s.subrange(4, k)) {
                None => Err(FormatError::InvalidMetadata),
                Some(meta) => Ok(
                    TaskView {
                        title: meta.title,
                        status: meta.status,
                        created_at: meta.created_at,
                        updated_at: meta.updated_at,
                        id: meta.id,
                        tags: meta.tags,
                        description: s.subrange(k + 4, s.len() as int),
                    },
                ),
            },
        }
    }
}

/// Character-for-character equality of two string slices.
fn str_eq(a: &str, b: &str) -> (r: bool)
    ensures
        r == (a@ == b@),
{
    let n = a.unicode_len();
    let m = b.unicode_len();
    if n != m {
        return false;
    }
    let mut k: usize = 0;
    while k < n
        invariant
            n == a@.len(),
            n == b@.len(),
            k <= n,
            forall|q: int| 0 <= q < k ==> a@[q] == b@[q],
        decreases n - k,
    {
        if a.get_char(k) != b.get_char(k) {
            return false;
        }
        k += 1;
    }
    proof {
        assert(a@ =~= b@);
    }
    true
}

/// Whether the characters of `p` stand in `s` at position `i`, as
/// `expect_at` says.
fn exec_expect(s: &str, i: usize, p: &str) -> (r: Option<usize>)
    requires
        i <= s@.len(),
    ensures
        match r {
            Some(x) => expect_at(s@, i as int, p@) == Some(x as int) && x <= s@.len(),
            None => expect_at(s@, i as int, p@) is None,
        },
{
    let n = s.unicode_len();
    let m = p.unicode_len();
    if m > n - i {
        return None;
    }
    let mut k: usize = 0;
    while k < m
        invariant
            n == s@.len(),
            m == p@.len(),
            i + m <= n,
            k <= m,
            forall|q: int| 0 <= q < k ==> s@[i + q] == p@[q],
        decreases m - k,
    {
        if s.get_char(i + k) != p.get_char(k) {
            proof {
                assert(s@.subrange(i as int, i as int + p@.len())[k as int] != p@[k as int]);
            }
            return None;
        }
        k += 1;
    }
    proof {
        assert(s@.subrange(i as int, i as int + p@.len()) =~= p@);
    }
    Some(i + m)
}

/// Index of the first newline at or after `i`, as `find_nl` says.
fn exec_find_nl(s: &str, i: usize) -> (r: usize)
    requires
        i <= s@.len(),
    ensures
        r as int == find_nl(s@, i as int),
        i <= r <= s@.len(),
{
    let n = s.unicode_len();
    let mut j: usize = i;
    while j < n
        invariant
            n == s@.len(),
            i <= j <= n,
            find_nl(s@, i as int) == find_nl(s@, j as int),
        decreases n - j,
    {
        if s.get_char(j) == '\n' {
            return j;
        }
        j += 1;
    }
    j
}

/// The value characters up to the next newline and the position past it,
/// as `take_value` says.
fn take_val(s: &str, i: usize) -> (r: Option<(String, usize)>)
    requires
        i <= s@.len(),
    ensures
        match r {
            Some(p) => take_value(s@, i as int) == Some((p.0@, p.1 as int)) && p.1 <= s@.len(),
            None => take_value(s@, i as int) is None,
        },
{
    let n = s.unicode_len();
    let j = exec_find_nl(s, i);
    if j < n {
        Some((s.substring_char(i, j).to_owned(), j + 1))
    } else {
        None
    }
}

/// The first closing delimiter line, as `find_close` says.
fn exec_find_close(s: &str) -> (r: Option<usize>)
    requires
        4 <= s@.len(),
    ensures
        match r {
            Some(k) => find_close(s@, 4) == Some(k as int) && 4 <= k && k + 4 <= s@.len(),
            None => find_close(s@, 4) is None,
        },
{
    proof {
        reveal_strlit("---\n");
    }
    let n = s.unicode_len();
    let mut i: usize = 4;
    while i < n
        invariant
            n == s@.len(),
            4 <= i <= n,
            find_close(s@, 4) == find_close(s@, i as int),
        decreases n - i,
    {
        let here = match exec_expect(s, i, "---\n") {
            Some(_) => i == 4 || s.get_char(i - 1) == '\n',
            None => false,
        };
        if here {
            proof {
                reveal_strlit("---\n");
                assert(close_at(s@, i as int));
            }
            return Some(i);
        }
        proof {
            reveal_strlit("---\n");
            assert(!close_at(s@, i as int));
        }
        i += 1;
    }
    proof {
        reveal_strlit("---\n");
        assert(!close_at(s@, i as int));
    }
    None
}

/// The status named by a token, as `parse_status` says.
fn exec_parse_status(v: &str) -> (r: Option<TaskStatus>)
    ensures
        match r {
            Some(st) => parse_status(v@) == Some(st),
            None => parse_status(v@) is None,
        },
{
    if str_eq(v, "todo") {
        Some(TaskStatus::TODO)
    } else if str_eq(v, "doing") {
        Some(TaskStatus::DOING)
    } else if str_eq(v, "done") {
        Some(TaskStatus::DONE)
    } else {
        None
    }
}

/// The serialized token of a status.
fn status_str(st: TaskStatus) -> (r: &'static str)
    ensures
        r@ == status_token(st),
{
    match st {
        TaskStatus::TODO => "todo",
        TaskStatus::DOING => "doing",
        TaskStatus::DONE => "done",
    }
}

/// Appending one more tag extends the joined text by a comma and the tag.
pub proof fn lemma_join_push(ts: Seq<Seq<char>>, t: Seq<char>)
    requires
        ts.len() >= 1,
    ensures
        join_tags(ts.push(t)) == join_tags(ts) + ","@ + t,
    decreases ts.len(),
{
    let e = ts.push(t);
    if ts.len() == 1 {
        assert(e.drop_first() =~= seq![t]);
        assert(join_tags(e) == e[0] + ","@ + join_tags(e.drop_first()));
    } else {
        lemma_join_push(ts.drop_first(), t);
        assert(e.drop_first() =~= ts.drop_first().push(t));
        assert(join_tags(e) == e[0] + ","@ + join_tags(e.drop_first()));
        assert(join_tags(e) =~= join_tags(ts) + ","@ + t);
    }
}

/// `find_nl` finds the first newline: if none lies in `[i, j)` and one
/// stands at `j`, it answers `j`.
pub proof fn lemma_find_nl_at(s: Seq<char>, i: int, j: int)
    requires
        0 <= i <= j < s.len(),
        s[j] == '\n',
        forall|p: int| i <= p < j ==> s[p] != '\n',
    ensures
        find_nl(s, i) == j,
    decreases j - i,
{
    if i < j {
        lemma_find_nl_at(s, i + 1, j);
    }
}

/// The closing-delimiter scan passes over a span holding no closing
/// delimiter line.
pub proof fn lemma_skip_to(s: Seq<char>, i: int, e: int)
    requires
        0 <= i <= e <= s.len(),
        forall|p: int| i <= p < e ==> !close_at(s, p),
    ensures
        find_close(s, i) == find_close(s, e),
    decreases e - i,
{
    if i < e {
        lemma_skip_to(s, i + 1, e);
    }
}

/// A timestamp-shaped value holds no newline.
pub proof fn lemma_timestamp_no_newline(s: Seq<char>)
    requires
        is_timestamp(s),
    ensures
        no_newline(s),
{
    assert forall|i: int| 0 <= i < s.len() implies s[i] != '\n' by {
        assert(crate::task::timestamp_char_ok(i, s[i]));
        assert('\n' as u32 == 10);
    }
}

/// A UUID-shaped value holds no newline.
pub proof fn lemma_uuid_no_newline(s: Seq<char>)
    requires
        is_uuid(s),
    ensures
        no_newline(s),
{
    assert forall|i: int| 0 <= i < s.len() implies s[i] != '\n' by {
        assert(crate::task::uuid_char_ok(i, s[i]));
        assert('\n' as u32 == 10);
    }
}

/// Joined well-formed tags hold no newline and end (and begin) as their
/// pieces do.
pub proof fn lemma_join_no_newline(tags: Seq<Seq<char>>)
    requires
        forall|i: int| 0 <= i < tags.len() ==> wf_tag(#[trigger] tags[i]),
    ensures
        no_newline(join_tags(tags)),
    decreases tags.len(),
{
    reveal_strlit(",");
    if tags.len() == 0 {
    } else if tags.len() == 1 {
        assert(wf_tag(tags[0]));
    } else {
        assert(wf_tag(tags[0]));
        lemma_join_no_newline(tags.drop_first());
        assert forall|p: int| 0 <= p < join_tags(tags).len() implies join_tags(tags)[p]
            != '\n' by {
            let j = join_tags(tags);
            let t0 = tags[0];
            let rest = join_tags(tags.drop_first());
            assert(j == t0 + ","@ + rest);
            if p < t0.len() {
                assert(j[p] == t0[p]);
            } else if p == t0.len() {
                assert(j[p] == ',');
            } else {
                assert(j[p] == rest[p - t0.len() - 1]);
            }
        }
    }
}

/// Splitting joined well-formed tags at the commas restores the tag list.
pub proof fn lemma_split_join(tags: Seq<Seq<char>>)
    requires
        tags.len() >= 1,
        forall|i: int| 0 <= i < tags.len() ==> wf_tag(#[trigger] tags[i]),
    ensures
        split_from(join_tags(tags), 0) == tags,
    decreases tags.len(),
{
    reveal_strlit(",");
    let j = join_tags(tags);
    if tags.len() == 1 {
        assert(wf_tag(tags[0]));
        lemma_dist_to_end(j, 0, ',');
        assert(j.subrange(0, j.len() as int) =~= tags[0]);
        assert(split_from(j, 0) =~= tags);
    } else {
        let t0 = tags[0];
        let rest = tags.drop_first();
        assert(wf_tag(t0));
        assert(j == t0 + ","@ + join_tags(rest));
        assert(j[t0.len() as int] == ',');
        assert forall|p: int| 0 <= p < t0.len() implies j[p] != ',' by {
            assert(j[p] == t0[p]);
        }
        lemma_dist_to_found(j, 0, t0.len() as int, ',');
        lemma_split_sub(j, t0.len() as int + 1);
        assert(j.subrange(t0.len() as int + 1, j.len() as int) =~= join_tags(rest));
        lemma_split_join(rest);
        assert(j.subrange(0, t0.len() as int) =~= t0);
        assert(split_from(j, 0) =~= tags);
    }
}

/// Facts about one metadata line `key + val + newline` standing in `s`
/// just after `pre`: the parser reads exactly `val` there, the line's only
/// newline is its last character, and the line opens with the key.
pub proof fn lemma_line(s: Seq<char>, pre: Seq<char>, key: Seq<char>, val: Seq<char>, rest: Seq<char>)
    requires
        s == pre + key + val + nl_s() + rest,
        key.len() > 0,
        no_newline(key),
        no_newline(val),
    ensures
        expect_at(s, pre.len() as int, key) == Some((pre.len() + key.len()) as int),
        take_value(s, (pre.len() + key.len()) as int) == Some(
            (val, (pre.len() + key.len() + val.len() + 1) as int),
        ),
        forall|p: int| pre.len() <= p < pre.len() + key.len() + val.len() ==> s[p] != '\n',
        s[(pre.len() + key.len() + val.len()) as int] == '\n',
        s[pre.len() as int] == key[0],
{
    reveal_strlit("\n");
    let i = pre.len() as int;
    let kl = key.len() as int;
    let vl = val.len() as int;
    assert(nl_s().len() == 1);
    assert(nl_s()[0] == '\n');
    assert(s.len() == pre.len() + kl + vl + 1 + rest.len());
    assert(s.subrange(i, i + kl) =~= key);
    assert(s.subrange(i + kl, i + kl + vl) =~= val);
    assert(s[i + kl + vl] == '\n');
    assert forall|p: int| i <= p < i + kl + vl implies s[p] != '\n' by {
        if p < i + kl {
            assert(s[p] == key[p - i]);
        } else {
            assert(s[p] == val[p - i - kl]);
        }
    }
    lemma_find_nl_at(s, i + kl, i + kl + vl);
    assert(s.subrange(i + kl, find_nl(s, i + kl)) =~= val);
}

/// No closing delimiter line begins inside a metadata line that does not
/// itself start with a dash: `[i, e)` is the line's newline-free part.
pub proof fn lemma_line_skips(s: Seq<char>, i: int, e: int)
    requires
        4 <= i <= e <= s.len(),
        s[i] != '-',
        forall|p: int| i <= p < e ==> s[p] != '\n',
    ensures
        forall|p: int| i <= p < e + 1 ==> !close_at(s, p),
{
    reveal_strlit("---\n");
    assert forall|p: int| i <= p < e + 1 implies !close_at(s, p) by {
        if p == i {
            if expect_at(s, p, delim()) is Some {
                assert(s.subrange(p, p + 4)[0] == s[p]);
            }
        } else {
            assert(s[p - 1] != '\n');
        }
    }
}

/// Subranges of a four-piece concatenation give the pieces back.
pub proof fn lemma_four_chunks(w: Seq<char>, x: Seq<char>, y: Seq<char>, z: Seq<char>)
    ensures
        (w + x + y + z).subrange(0, w.len() as int) == w,
        (w + x + y + z).subrange(w.len() as int, (w + x).len() as int) == x,
        (w + x + y + z).subrange((w + x).len() as int, (w + x + y).len() as int) == y,
        (w + x + y + z).subrange((w + x + y).len() as int, (w + x + y + z).len() as int) == z,
{
    let s = w + x + y + z;
    assert(s.subrange(0, w.len() as int) =~= w);
    assert(s.subrange(w.len() as int, (w + x).len() as int) =~= x);
    assert(s.subrange((w + x).len() as int, (w + x + y).len() as int) =~= y);
    assert(s.subrange((w + x + y).len() as int, s.len() as int) =~= z);
}

/// Parse and newline facts for the title line of the metadata block.
pub proof fn lemma_meta_title(v: TaskView)
    requires
        wf_task(v),
    ensures
        ({
            let m = meta_of(v);
            let e = meta_l1(v).len() as int;
            &&& expect_at(m, 0, key_title()) == Some(key_title().len() as int)
            &&& take_value(m, key_title().len() as int) == Some((v.title, e))
            &&& forall|p: int| 0 <= p < e - 1 ==> m[p] != '\n'
            &&& m[e - 1] == '\n'
            &&& m[0] == 't'
        }),
{
    reveal_strlit("\n");
    reveal_strlit("title: ");
    let m = meta_of(v);
    let rest = meta_l2(v) + meta_l3(v) + meta_lu(v) + meta_l4(v) + meta_lt(v);
    assert(m =~= Seq::<char>::empty() + key_title() + v.title + nl_s() + rest);
    lemma_line(m, Seq::<char>::empty(), key_title(), v.title, rest);
}

/// Parse and newline facts for the status line of the metadata block.
pub proof fn lemma_meta_status(v: TaskView)
    requires
        wf_task(v),
    ensures
        ({
            let m = meta_of(v);
            let b = meta_l1(v).len() as int;
            let e = b + meta_l2(v).len() as int;
            &&& expect_at(m, b, key_status()) == Some(b + key_status().len())
            &&& take_value(m, b + key_status().len() as int) == Some(
                (status_token(v.status), e),
            )
            &&& forall|p: int| b <= p < e - 1 ==> m[p] != '\n'
            &&& m[e - 1] == '\n'
            &&& m[b] == 's'
        }),
{
    reveal_strlit("\n");
    reveal_strlit("status: ");
    reveal_strlit("todo");
    reveal_strlit("doing");
    reveal_strlit("done");
    let m = meta_of(v);
    let pre = meta_l1(v);
    let rest = meta_l3(v) + meta_lu(v) + meta_l4(v) + meta_lt(v);
    assert(no_newline(status_token(v.status)));
    assert(m =~= pre + key_status() + status_token(v.status) + nl_s() + rest);
    lemma_line(m, pre, key_status(), status_token(v.status), rest);
}

/// Parse and newline facts for the creation-time line of the block.
pub proof fn lemma_meta_created(v: TaskView)
    requires
        wf_task(v),
    ensures
        ({
            let m = meta_of(v);
            let b = (meta_l1(v) + meta_l2(v)).len() as int;
            let e = b + meta_l3(v).len() as int;
            &&& expect_at(m, b, key_created()) == Some(b + key_created().len())
            &&& take_value(m, b + key_created().len() as int) == Some((v.created_at, e))
            &&& forall|p: int| b <= p < e - 1 ==> m[p] != '\n'
            &&& m[e - 1] == '\n'
            &&& m[b] == 'c'
        }),
{
    reveal_strlit("\n");
    reveal_strlit("created_at: ");
    let m = meta_of(v);
    let pre = meta_l1(v) + meta_l2(v);
    let rest = meta_lu(v) + meta_l4(v) + meta_lt(v);
    lemma_timestamp_no_newline(v.created_at);
    assert(m =~= pre + key_created() + v.created_at + nl_s() + rest);
    lemma_line(m, pre, key_created(), v.created_at, rest);
}

/// Parse and newline facts for the update-time line, when present.
pub proof fn lemma_meta_updated(v: TaskView)
    requires
        wf_task(v),
        v.updated_at is Some,
    ensures
        ({
            let m = meta_of(v);
            let b = (meta_l1(v) + meta_l2(v) + meta_l3(v)).len() as int;
            let e = b + meta_lu(v).len() as int;
            &&& expect_at(m, b, key_updated()) == Some(b + key_updated().len())
            &&& take_value(m, b + key_updated().len() as int) == Some((v.updated_at->0, e))
            &&& forall|p: int| b <= p < e - 1 ==> m[p] != '\n'
            &&& m[e - 1] == '\n'
            &&& m[b] == 'u'
        }),
{
    reveal_strlit("\n");
    reveal_strlit("updated_at: ");
    let m = meta_of(v);
    let u = v.updated_at->0;
    let pre = meta_l1(v) + meta_l2(v) + meta_l3(v);
    let rest = meta_l4(v) + meta_lt(v);
    lemma_timestamp_no_newline(u);
    assert(m =~= pre + key_updated() + u + nl_s() + rest);
    lemma_line(m, pre, key_updated(), u, rest);
}

/// Parse and newline facts for the id line of the metadata block.
pub proof fn lemma_meta_id(v: TaskView)
    requires
        wf_task(v),
    ensures
        ({
            let m = meta_of(v);
            let b = (meta_l1(v) + meta_l2(v) + meta_l3(v) + meta_lu(v)).len() as int;
            let e = b + meta_l4(v).len() as int;
            &&& expect_at(m, b, key_id()) == Some(b + key_id().len())
            &&& take_value(m, b + key_id().len() as int) == Some((v.id, e))
            &&& forall|p: int| b <= p < e - 1 ==> m[p] != '\n'
            &&& m[e - 1] == '\n'
            &&& m[b] == 'i'
        }),
{
    reveal_strlit("\n");
    reveal_strlit("id: ");
    let m = meta_of(v);
    let pre = meta_l1(v) + meta_l2(v) + meta_l3(v) + meta_lu(v);
    let rest = meta_lt(v);
    lemma_uuid_no_newline(v.id);
    assert(m =~= pre + key_id() + v.id + nl_s() + rest);
    lemma_line(m, pre, key_id(), v.id, rest);
}

/// Parse and newline facts for the tags line, when tags are present.
pub proof fn lemma_meta_tags(v: TaskView)
    requires
        wf_task(v),
        v.tags.len() > 0,
    ensures
        ({
            let m = meta_of(v);
            let b = (meta_l1(v) + meta_l2(v) + meta_l3(v) + meta_lu(v) + meta_l4(v)).len() as int;
            let valt = join_tags(v.tags) + seq![']'];
            &&& expect_at(m, b, key_tags()) == Some(b + key_tags().len())
            &&& take_value(m, b + key_tags().len() as int) == Some((valt, m.len() as int))
            &&& forall|p: int| b <= p < m.len() - 1 ==> m[p] != '\n'
            &&& m[m.len() - 1] == '\n'
            &&& m[b] == 't'
        }),
{
    reveal_strlit("\n");
    reveal_strlit("tags: [");
    reveal_strlit("]\n");
    reveal_strlit(",");
    let m = meta_of(v);
    let jt = join_tags(v.tags);
    let valt = jt + seq![']'];
    let pre = meta_l1(v) + meta_l2(v) + meta_l3(v) + meta_lu(v) + meta_l4(v);
    lemma_join_no_newline(v.tags);
    assert(no_newline(valt)) by {
        assert forall|p: int| 0 <= p < valt.len() implies valt[p] != '\n' by {
            if p < jt.len() {
                assert(valt[p] == jt[p]);
            } else {
                assert(valt[p] == ']');
            }
        }
    }
    assert(tags_end() =~= seq![']'] + nl_s());
    assert(m =~= pre + key_tags() + valt + nl_s() + Seq::<char>::empty());
    lemma_line(m, pre, key_tags(), valt, Seq::<char>::empty());
}

/// The metadata block of a well-formed record parses back to its fields.
#[verifier::rlimit(100)]
pub proof fn lemma_parse_meta_of(v: TaskView)
    requires
        wf_task(v),
    ensures
        spec_parse_meta(meta_of(v)) == Some(
            MetaView {
                title: v.title,
                status: v.status,
                created_at: v.created_at,
                updated_at: v.updated_at,
                id: v.id,
                tags: v.tags,
            },
        ),
{
    reveal_strlit("todo");
    reveal_strlit("doing");
    reveal_strlit("done");
    reveal_strlit("updated_at: ");
    reveal_strlit("tags: [");
    reveal_strlit("]\n");
    let m = meta_of(v);
    lemma_meta_title(v);
    lemma_meta_status(v);
    lemma_meta_created(v);
    lemma_meta_id(v);
    assert(parse_status(status_token(v.status)) == Some(v.status));
    let o3 = (meta_l1(v) + meta_l2(v) + meta_l3(v)).len() as int;
    if v.updated_at is Some {
        lemma_meta_updated(v);
    } else {
        assert((meta_l1(v) + meta_l2(v) + meta_l3(v) + meta_lu(v)).len() == o3);
        assert(m[o3] == 'i');
        assert(expect_at(m, o3, key_updated()) is None) by {
            if 0 <= o3 && o3 + key_updated().len() <= m.len() && m.subrange(
                o3,
                o3 + key_updated().len() as int,
            ) == key_updated() {
                assert(m.subrange(o3, o3 + key_updated().len() as int)[0] == m[o3]);
            }
        }
    }
    let o5 = (meta_l1(v) + meta_l2(v) + meta_l3(v) + meta_lu(v) + meta_l4(v)).len() as int;
    if v.tags.len() == 0 {
        assert(meta_lt(v).len() == 0);
        assert(o5 == m.len());
        assert(v.tags =~= Seq::<Seq<char>>::empty());
    } else {
        lemma_meta_tags(v);
        let valt = join_tags(v.tags) + seq![']'];
        assert(meta_lt(v).len() > 0);
        assert(o5 < m.len());
        assert(valt[valt.len() - 1] == ']');
        assert(valt.len() >= 1);
        assert(valt.subrange(0, valt.len() - 1) =~= join_tags(v.tags));
        lemma_split_join(v.tags);
    }
}

/// In an encoded record, the first closing delimiter line stands exactly
/// after the metadata block.
#[verifier::rlimit(100)]
pub proof fn lemma_find_close_of(v: TaskView)
    requires
        wf_task(v),
    ensures
        find_close(spec_encode(v), 4) == Some(4 + meta_of(v).len() as int),
{
    reveal_strlit("---\n");
    let m = meta_of(v);
    let d = delim();
    let s = spec_encode(v);
    let k = 4 + m.len() as int;
    assert(s == d + m + d + v.description);
    assert(d.len() == 4);
    assert(s.len() == 4 + m.len() + 4 + v.description.len());
    assert forall|p: int| 4 <= p < 4 + m.len() implies #[trigger] s[p] == m[p - 4] by {
        assert(s[p] == (d + m + d)[p]);
    }
    lemma_meta_title(v);
    lemma_meta_status(v);
    lemma_meta_created(v);
    lemma_meta_id(v);
    let o1 = meta_l1(v).len() as int;
    let o2 = o1 + meta_l2(v).len() as int;
    let o3 = o2 + meta_l3(v).len() as int;
    let o4 = o3 + meta_lu(v).len() as int;
    let o5 = o4 + meta_l4(v).len() as int;
    lemma_line_skips(s, 4, 4 + (o1 - 1));
    lemma_line_skips(s, 4 + o1, 4 + (o2 - 1));
    lemma_line_skips(s, 4 + o2, 4 + (o3 - 1));
    if v.updated_at is Some {
        lemma_meta_updated(v);
        lemma_line_skips(s, 4 + o3, 4 + (o4 - 1));
    }
    lemma_line_skips(s, 4 + o4, 4 + (o5 - 1));
    if v.tags.len() > 0 {
        lemma_meta_tags(v);
        lemma_line_skips(s, 4 + o5, 4 + (m.len() - 1) as int);
    }
    assert(o5 == m.len() || v.tags.len() > 0);
    assert forall|p: int| 4 <= p < k implies !close_at(s, p) by {}
    lemma_skip_to(s, 4, k);
    lemma_four_chunks(d + m, d, v.description, Seq::<char>::empty());
    assert(d + m + d + v.description =~= (d + m) + d + v.description + Seq::<char>::empty());
    assert(s.subrange(k, k + 4) == d);
    assert(s[k - 1] == m[m.len() - 1]);
    assert(s[k - 1] == '\n');
    assert(close_at(s, k));
    assert(find_close(s, k) == Some(k));
}

/// Decoding an encoded well-formed record restores it in every field.
#[verifier::rlimit(100)]
pub proof fn lemma_encode_decode(v: TaskView)
    requires
        wf_task(v),
    ensures
        spec_decode(spec_encode(v)) == Ok::<TaskView, FormatError>(v),
{
    reveal_strlit("---\n");
    let m = meta_of(v);
    let d = delim();
    let s = spec_encode(v);
    let k = 4 + m.len() as int;
    assert(s == d + m + d + v.description);
    lemma_four_chunks(d, m, d, v.description);
    assert(s.subrange(0, 4) == d);
    assert(expect_at(s, 0, d) is Some);
    lemma_find_close_of(v);
    assert(s.subrange(4, k) == m);
    lemma_parse_meta_of(v);
    assert(s.subrange(k + 4, s.len() as int) == v.description);
    assert(TaskView {
        title: v.title,
        status: v.status,
        created_at: v.created_at,
        updated_at: v.updated_at,
        id: v.id,
        tags: v.tags,
        description: v.description,
    } =~= v);
}

/// A string produced by encoding a well-formed record decodes, and
/// re-encoding the decoded record gives the same string back.
pub proof fn lemma_decode_encode(s: Seq<char>, v: TaskView)
    requires
        wf_task(v),
        s == spec_encode(v),
    ensures
        spec_decode(s) matches Ok(w) && spec_encode(w) == s,
{
    lemma_encode_decode(v);
}

/// Reads the metadata block into a record with an empty body.
fn parse_meta(m: &str) -> (r: Option<Task>)
    ensures
        match r {
            Some(t) => spec_parse_meta(m@) == Some(
                MetaView {
                    title: t.title@,
                    status: t.status,
                    created_at: t.created_at@,
                    updated_at: match t.updated_at {
                        Some(u) => Some(u@),
                        None => None,
                    },
                    id: t.id@,
                    tags: t.tags.deep_view(),
                },
            ) && t.description@ == Seq::<char>::empty(),
            None => spec_parse_meta(m@) is None,
        },
{
    let i1 = match exec_expect(m, 0, "title: ") {
        Some(x) => x,
        None => {
            return None;
        },
    };
    let (title, i2) = match take_val(m, i1) {
        Some(p) => p,
        None => {
            return None;
        },
    };
    let i3 = match exec_expect(m, i2, "status: ") {
        Some(x) => x,
        None => {
            return None;
        },
    };
    let (stv, i4) = match take_val(m, i3) {
        Some(p) => p,
        None => {
            return None;
        },
    };
    let st = match exec_parse_status(stv.as_str()) {
        Some(x) => x,
        None => {
            return None;
        },
    };
    let i5 = match exec_expect(m, i4, "created_at: ") {
        Some(x) => x,
        None => {
            return None;
        },
    };
    let (ca, i6) = match take_val(m, i5) {
        Some(p) => p,
        None => {
            return None;
        },
    };
    if !check_timestamp(ca.as_str()) {
        return None;
    }
    let (ua, i7) = match exec_expect(m, i6, "updated_at: ") {
        Some(j) => {
            let (u, iu) = match take_val(m, j) {
                Some(p) => p,
                None => {
                    return None;
                },
            };
            if !check_timestamp(u.as_str()) {
                return None;
            }
            (Some(u), iu)
        },
        None => (None, i6),
    };
    let i8 = match exec_expect(m, i7, "id: ") {
        Some(x) => x,
        None => {
            return None;
        },
    };
    let (idv, i9) = match take_val(m, i8) {
        Some(p) => p,
        None => {
            return None;
        },
    };
    if !check_uuid(idv.as_str()) {
        return None;
    }
    let n = m.unicode_len();
    if i9 == n {
        let t = Task {
            title,
            status: st,
            created_at: ca,
            updated_at: ua,
            id: idv,
            tags: Vec::new(),
            description: String::new(),
        };
        proof {
            assert(t.tags.deep_view() =~= Seq::<Seq<char>>::empty());
        }
        return Some(t);
    }
    let j2 = match exec_expect(m, i9, "tags: [") {
        Some(x) => x,
        None => {
            return None;
        },
    };
    let (tv, i10) = match take_val(m, j2) {
        Some(p) => p,
        None => {
            return None;
        },
    };
    let tvn = tv.as_str().unicode_len();
    if !(i10 == n && tvn >= 1) {
        return None;
    }
    if tv.as_str().get_char(tvn - 1) != ']' {
        return None;
    }
    let inner = tv.as_str().substring_char(0, tvn - 1).to_owned();
    let tags = split_plain(inner.as_str());
    Some(
        Task {
            title,
            status: st,
            created_at: ca,
            updated_at: ua,
            id: idv,
            tags,
            description: String::new(),
        },
    )
}

impl Task {
    /// Decodes the textual record format, as `spec_decode` says: an opening
    /// delimiter line, the metadata block, the first closing delimiter line,
    /// then the body verbatim.
    pub fn from_str(content: &str) -> (r: Result<Task, FormatError>)
        ensures
            match r {
                Ok(t) => spec_decode(content@) == Ok::<TaskView, FormatError>(t@),
                Err(e) => spec_decode(content@) == Err::<TaskView, FormatError>(e),
            },
    {
        let opening = exec_expect(content, 0, "---\n");
        if opening.is_none() {
            return Err(FormatError::MissingOpeningDelimiter);
        }
        proof {
            reveal_strlit("---\n");
        }
        let k = match exec_find_close(content) {
            Some(x) => x,
            None => {
                return Err(FormatError::MissingClosingDelimiter);
            },
        };
        let n = content.unicode_len();
        let meta = content.substring_char(4, k);
        let body = content.substring_char(k + 4, n).to_owned();
        match parse_meta(meta) {
            None => Err(FormatError::InvalidMetadata),
            Some(t) => {
                let t2 = Task {
                    title: t.title,
                    status: t.status,
                    created_at: t.created_at,
                    updated_at: t.updated_at,
                    id: t.id,
                    tags: t.tags,
                    description: body,
                };
                Ok(t2)
            },
        }
    }

    /// Serializes the record, as `spec_encode` says; fails exactly when a
    /// field cannot be carried by the line format.
    pub fn to_string(&self) -> (r: Result<String, FormatError>)
        ensures
            match r {
                Ok(out) => wf_task(self@) && out@ == spec_encode(self@),
                Err(e) => !wf_task(self@) && e == FormatError::Unencodable,
            },
    {
        if !check_single_line(self.title.as_str()) {
            return Err(FormatError::Unencodable);
        }
        if !check_timestamp(self.created_at.as_str()) {
            return Err(FormatError::Unencodable);
        }
        match &self.updated_at {
            Some(u) => {
                if !check_timestamp(u.as_str()) {
                    proof {
                        assert(self@.updated_at == Some(u@));
                        assert(!wf_task(self@));
                    }
                    return Err(FormatError::Unencodable);
                }
            },
            None => {},
        }
        if !check_uuid(self.id.as_str()) {
            return Err(FormatError::Unencodable);
        }
        let ghost tv = self.tags.deep_view();
        let mut ti: usize = 0;
        while ti < self.tags.len()
            invariant
                tv == self.tags.deep_view(),
                ti <= self.tags.len(),
                forall|q: int| 0 <= q < ti ==> wf_tag(#[trigger] tv[q]),
            decreases self.tags.len() - ti,
        {
            if !check_tag(self.tags[ti].as_str()) {
                proof {
                    assert(tv[ti as int] == self.tags@[ti as int]@);
                    assert(!wf_tag(tv[ti as int]));
                    assert(self@.tags == tv);
                    assert(!wf_task(self@));
                }
                return Err(FormatError::Unencodable);
            }
            ti += 1;
        }
        proof {
            assert(wf_task(self@));
        }
        let mut ms = String::new();
        ms.append("title: ");
        ms.append(self.title.as_str());
        ms.append("\n");
        ms.append("status: ");
        ms.append(status_str(self.status));
        ms.append("\n");
        ms.append("created_at: ");
        ms.append(self.created_at.as_str());
        ms.append("\n");
        proof {
            assert(ms@ =~= line_of(key_title(), self@.title) + line_of(
                key_status(),
                status_token(self.status),
            ) + line_of(key_created(), self@.created_at));
        }
        let ghost m3 = ms@;
        match &self.updated_at {
            Some(u) => {
                ms.append("updated_at: ");
                ms.append(u.as_str());
                ms.append("\n");
            },
            None => {},
        }
        proof {
            assert(ms@ =~= m3 + (match self@.updated_at {
                Some(u) => line_of(key_updated(), u),
                None => Seq::<char>::empty(),
            }));
        }
        let ghost mu = ms@;
        ms.append("id: ");
        ms.append(self.id.as_str());
        ms.append("\n");
        proof {
            assert(ms@ =~= mu + line_of(key_id(), self@.id));
        }
        let ghost m4 = ms@;
        if self.tags.len() > 0 {
            ms.append("tags: [");
            let ghost base = ms@;
            let mut i: usize = 0;
            proof {
                assert(ms@ =~= base + join_tags(tv.subrange(0, 0)));
            }
            while i < self.tags.len()
                invariant
                    tv == self.tags.deep_view(),
                    i <= self.tags.len(),
                    ms@ == base + join_tags(tv.subrange(0, i as int)),
                decreases self.tags.len() - i,
            {
                if i > 0 {
                    ms.append(",");
                }
                ms.append(self.tags[i].as_str());
                proof {
                    if i == 0 {
                        assert(tv.subrange(0, 1) =~= seq![tv[0]]);
                        assert(join_tags(tv.subrange(0, 1)) == tv[0]);
                        assert(ms@ =~= base + join_tags(tv.subrange(0, 1)));
                    } else {
                        lemma_join_push(tv.subrange(0, i as int), tv[i as int]);
                        assert(tv.subrange(0, i as int).push(tv[i as int]) =~= tv.subrange(
                            0,
                            i as int + 1,
                        ));
                        assert(ms@ =~= base + join_tags(tv.subrange(0, i as int + 1)));
                    }
                }
                i += 1;
            }
            proof {
                assert(tv.subrange(0, tv.len() as int) =~= tv);
            }
            ms.append("]\n");
            proof {
                assert(ms@ =~= m4 + (key_tags() + join_tags(tv) + tags_end()));
            }
        }
        proof {
            assert(ms@ =~= meta_of(self@));
        }
        let mut out = String::new();
        out.append("---\n");
        out.append(ms.as_str());
        out.append("---\n");
        out.append(self.description.as_str());
        proof {
            assert(out@ =~= spec_encode(self@));
        }
        Ok(out)
    }
}

} // verus!
