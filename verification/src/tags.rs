use vstd::prelude::*;
use vstd::string::*;

verus! {

/// ASCII whitespace, as trimmed from around a tag.
pub open spec fn is_space(c: char) -> bool {
    c == ' ' || c == '\t' || c == '\r' || c == '\n'
}

/// Number of characters from position `i` to the next occurrence of `c`
/// (to the end of `s` when `c` does not occur at or after `i`).
pub open spec fn dist_to(s: Seq<char>, i: int, c: char) -> nat
    decreases s.len() - i when 0 <= i
{
    if i >= s.len() {
        0
    } else if s[i] == c {
        0
    } else {
        1 + dist_to(s, i + 1, c)
    }
}

/// The pieces of `s[i..]` split at every comma. Splitting an empty suffix
/// yields one empty piece, so a trailing comma yields a final empty piece.
pub open spec fn split_from(s: Seq<char>, i: int) -> Seq<Seq<char>>
    decreases s.len() - i when 0 <= i <= s.len()
{
    let j = i + dist_to(s, i, ',');
    if j >= s.len() {
        seq![s.subrange(i, s.len() as int)]
    } else {
        seq![s.subrange(i, j)] + split_from(s, j + 1)
    }
}

/// If `c` does not occur in `[i, j)` and `s[j] == c`, the next occurrence
/// of `c` at or after `i` is exactly at `j`.
pub proof fn lemma_dist_to_found(s: Seq<char>, i: int, j: int, c: char)
    requires
        0 <= i <= j < s.len(),
        s[j] == c,
        forall|p: int| i <= p < j ==> s[p] != c,
    ensures
        i + dist_to(s, i, c) == j,
    decreases j - i,
{
    if i < j {
        lemma_dist_to_found(s, i + 1, j, c);
    }
}

/// When `c` does not occur in `[i, len)`, the distance runs to the end.
pub proof fn lemma_dist_to_end(s: Seq<char>, i: int, c: char)
    requires
        0 <= i <= s.len(),
        forall|p: int| i <= p < s.len() ==> s[p] != c,
    ensures
        i + dist_to(s, i, c) == s.len(),
    decreases s.len() - i,
{
    if i < s.len() {
        lemma_dist_to_end(s, i + 1, c);
    }
}

/// The distance is the same whether measured in `s` from `i` or in the
/// suffix `s[i..]` from its start.
pub proof fn lemma_dist_sub(s: Seq<char>, i: int, c: char)
    requires
        0 <= i <= s.len(),
    ensures
        dist_to(s, i, c) == dist_to(s.subrange(i, s.len() as int), 0, c),
    decreases s.len() - i,
{
    let t = s.subrange(i, s.len() as int);
    if i >= s.len() {
    } else if s[i] == c {
    } else {
        lemma_dist_sub(s, i + 1, c);
        lemma_dist_sub(t, 1, c);
        assert(t.subrange(1, t.len() as int) =~= s.subrange(i + 1, s.len() as int));
    }
}

/// Splitting `s` from `i` equals splitting the suffix `s[i..]` from its start.
pub proof fn lemma_split_sub(s: Seq<char>, i: int)
    requires
        0 <= i <= s.len(),
    ensures
        split_from(s, i) == split_from(s.subrange(i, s.len() as int), 0),
    decreases s.len() - i,
{
    let t = s.subrange(i, s.len() as int);
    lemma_dist_sub(s, i, ',');
    let j = i + dist_to(s, i, ',');
    if j >= s.len() {
        assert(t.subrange(0, t.len() as int) =~= t);
        assert(s.subrange(i, s.len() as int) =~= t);
    } else {
        lemma_split_sub(s, j + 1);
        lemma_split_sub(t, j - i + 1);
        assert(t.subrange(j - i + 1, t.len() as int) =~= s.subrange(j + 1, s.len() as int));
        assert(t.subrange(0, j - i) =~= s.subrange(i, j));
        assert(split_from(s, i) =~= split_from(t, 0));
    }
}

/// First index at or after `i` holding a non-whitespace character
/// (`s.len()` when the rest is all whitespace).
pub open spec fn first_solid(s: Seq<char>, i: int) -> int
    decreases s.len() - i when 0 <= i
{
    if i >= s.len() {
        s.len() as int
    } else if !is_space(s[i]) {
        i
    } else {
        first_solid(s, i + 1)
    }
}

/// Last index at or before `j` holding a non-whitespace character
/// (`-1` when there is none).
pub open spec fn last_solid(s: Seq<char>, j: int) -> int
    decreases j + 1 when -1 <= j < s.len()
{
    if j < 0 {
        -1
    } else if !is_space(s[j]) {
        j
    } else {
        last_solid(s, j - 1)
    }
}

/// `s` without leading and trailing whitespace.
pub open spec fn trim(s: Seq<char>) -> Seq<char> {
    let a = first_solid(s, 0);
    let b = last_solid(s, s.len() - 1);
    if a <= b {
        s.subrange(a, b + 1)
    } else {
        Seq::empty()
    }
}

pub proof fn lemma_first_solid_found(s: Seq<char>, i: int, j: int)
    requires
        0 <= i <= j <= s.len(),
        forall|p: int| i <= p < j ==> is_space(s[p]),
        j < s.len() ==> !is_space(s[j]),
    ensures
        first_solid(s, i) == j,
    decreases j - i,
{
    if i < j {
        lemma_first_solid_found(s, i + 1, j);
    }
}

pub proof fn lemma_last_solid_found(s: Seq<char>, j: int, b: int)
    requires
        -1 <= b <= j < s.len(),
        forall|p: int| b < p <= j ==> is_space(s[p]),
        b >= 0 ==> !is_space(s[b]),
    ensures
        last_solid(s, j) == b,
    decreases j - b,
{
    if b < j {
        lemma_last_solid_found(s, j - 1, b);
    }
}

/// Whether `c` is whitespace, as `is_space` says.
fn check_space(c: char) -> (r: bool)
    ensures
        r == is_space(c),
{
    c == ' ' || c == '\t' || c == '\r' || c == '\n'
}

/// A copy of `s` without leading and trailing whitespace.
fn trim_str(s: &str) -> (r: String)
    ensures
        r@ == trim(s@),
{
    let n = s.unicode_len();
    let mut a: usize = 0;
    while a < n && check_space(s.get_char(a))
        invariant
            n == s@.len(),
            a <= n,
            forall|p: int| 0 <= p < a ==> is_space(s@[p]),
        decreases n - a,
    {
        a += 1;
    }
    if a == n {
        proof {
            lemma_first_solid_found(s@, 0, n as int);
            lemma_last_solid_found(s@, n as int - 1, -1);
        }
        return String::new();
    }
    proof {
        lemma_first_solid_found(s@, 0, a as int);
    }
    let mut b: usize = n;
    while b > a + 1 && check_space(s.get_char(b - 1))
        invariant
            n == s@.len(),
            a < b <= n,
            !is_space(s@[a as int]),
            forall|p: int| b <= p < n ==> is_space(s@[p]),
        decreases b,
    {
        b -= 1;
    }
    proof {
        assert(!is_space(s@[b as int - 1]));
        lemma_last_solid_found(s@, n as int - 1, b as int - 1);
    }
    s.substring_char(a, b).to_owned()
}

/// Splits `s` at every comma, keeping each piece verbatim.
pub(crate) fn split_plain(s: &str) -> (r: Vec<String>)
    ensures
        r.deep_view() == split_from(s@, 0),
{
    let n = s.unicode_len();
    let mut r: Vec<String> = Vec::new();
    let mut start: usize = 0;
    let mut idx: usize = 0;
    proof {
        assert(r.deep_view() =~= Seq::<Seq<char>>::empty());
        assert(split_from(s@, 0) =~= r.deep_view() + split_from(s@, 0));
    }
    while idx < n
        invariant
            n == s@.len(),
            start <= idx <= n,
            forall|p: int| start <= p < idx ==> s@[p] != ',',
            split_from(s@, 0) == r.deep_view() + split_from(s@, start as int),
        decreases n - idx,
    {
        if s.get_char(idx) == ',' {
            let piece = s.substring_char(start, idx).to_owned();
            proof {
                lemma_dist_to_found(s@, start as int, idx as int, ',');
            }
            let ghost prev = r.deep_view();
            r.push(piece);
            proof {
                assert(r.deep_view() =~= prev.push(s@.subrange(start as int, idx as int)));
                assert(split_from(s@, start as int) =~= seq![
                    s@.subrange(start as int, idx as int),
                ] + split_from(s@, idx as int + 1));
                assert(split_from(s@, 0) =~= r.deep_view() + split_from(s@, idx as int + 1));
            }
            start = idx + 1;
        }
        idx += 1;
    }
    let piece = s.substring_char(start, n).to_owned();
    proof {
        lemma_dist_to_end(s@, start as int, ',');
    }
    let ghost prev = r.deep_view();
    r.push(piece);
    proof {
        assert(r.deep_view() =~= prev.push(s@.subrange(start as int, n as int)));
        assert(split_from(s@, start as int) =~= seq![s@.subrange(start as int, n as int)]);
        assert(split_from(s@, 0) =~= r.deep_view());
    }
    r
}

/// Every piece of `ts`, trimmed.
pub open spec fn trim_all(ts: Seq<Seq<char>>) -> Seq<Seq<char>> {
    ts.map_values(|t: Seq<char>| trim(t))
}

/// The tag list denoted by a comma-separated input: the input is split at
/// every comma and each piece is trimmed of surrounding whitespace.
pub open spec fn spec_parse_tags(s: Seq<char>) -> Seq<Seq<char>> {
    trim_all(split_from(s, 0))
}

/// Splits `s` at every comma and trims each piece.
pub fn parse_tags(s: &str) -> (r: Vec<String>)
    ensures
        r.deep_view() == spec_parse_tags(s@),
{
    let n = s.unicode_len();
    let mut r: Vec<String> = Vec::new();
    let mut start: usize = 0;
    let mut idx: usize = 0;
    proof {
        assert(r.deep_view() =~= Seq::<Seq<char>>::empty());
        assert(spec_parse_tags(s@) =~= r.deep_view() + trim_all(split_from(s@, 0)));
    }
    while idx < n
        invariant
            n == s@.len(),
            start <= idx <= n,
            forall|p: int| start <= p < idx ==> s@[p] != ',',
            spec_parse_tags(s@) == r.deep_view() + trim_all(split_from(s@, start as int)),
        decreases n - idx,
    {
        if s.get_char(idx) == ',' {
            let piece = s.substring_char(start, idx);
            let trimmed = trim_str(piece);
            proof {
                lemma_dist_to_found(s@, start as int, idx as int, ',');
            }
            let ghost prev = r.deep_view();
            r.push(trimmed);
            proof {
                assert(r.deep_view() =~= prev.push(trim(piece@)));
                assert(trim_all(split_from(s@, start as int)) =~= seq![
                    trim(s@.subrange(start as int, idx as int)),
                ] + trim_all(split_from(s@, idx as int + 1)));
                assert(spec_parse_tags(s@) =~= r.deep_view() + trim_all(
                    split_from(s@, idx as int + 1),
                ));
            }
            start = idx + 1;
        }
        idx += 1;
    }
    let piece = s.substring_char(start, n);
    let trimmed = trim_str(piece);
    proof {
        lemma_dist_to_end(s@, start as int, ',');
    }
    let ghost prev = r.deep_view();
    r.push(trimmed);
    proof {
        assert(r.deep_view() =~= prev.push(trim(piece@)));
        assert(trim_all(split_from(s@, start as int)) =~= seq![
            trim(s@.subrange(start as int, n as int)),
        ]);
        assert(spec_parse_tags(s@) =~= r.deep_view());
    }
    r
}

} // verus!
