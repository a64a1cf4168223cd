use vstd::prelude::*;
use vstd::string::*;

verus! {

/// Characters never allowed in a directory-name segment.
pub open spec fn is_denied(c: char) -> bool {
    c == '/' || c == '\\' || c == ':' || c == '*' || c == '?' || c == '"' || c == '<' || c == '>'
        || c == '|' || c == ' ' || c == '@' || c == '#' || c == '$' || c == '%' || c == '^' || c
        == '&' || c == '+' || c == '=' || c == '~'
}

/// `s` with every denied character replaced by an underscore.
pub open spec fn subst_denied(s: Seq<char>) -> Seq<char> {
    s.map_values(
        |c: char|
            if is_denied(c) {
                '_'
            } else {
                c
            },
    )
}

/// First index at or after `i` that holds no dot (`s.len()` when none).
pub open spec fn first_not_dot(s: Seq<char>, i: int) -> int
    decreases s.len() - i when 0 <= i
{
    if i >= s.len() {
        s.len() as int
    } else if s[i] != '.' {
        i
    } else {
        first_not_dot(s, i + 1)
    }
}

/// Last index at or before `j` that holds no dot (`-1` when none).
pub open spec fn last_not_dot(s: Seq<char>, j: int) -> int
    decreases j + 1 when -1 <= j
{
    if j < 0 {
        -1
    } else if s[j] != '.' {
        j
    } else {
        last_not_dot(s, j - 1)
    }
}

/// `s` without leading and trailing dots.
pub open spec fn trim_dots(s: Seq<char>) -> Seq<char> {
    let a = first_not_dot(s, 0);
    let b = last_not_dot(s, s.len() - 1);
    if a <= b {
        s.subrange(a, b + 1)
    } else {
        Seq::empty()
    }
}

/// `s` with every leftmost pair of adjacent dots replaced by one
/// underscore, scanning left to right.
pub open spec fn collapse_dots(s: Seq<char>) -> Seq<char>
    decreases s.len(),
{
    if s.len() >= 2 && s[0] == '.' && s[1] == '.' {
        seq!['_'] + collapse_dots(s.skip(2))
    } else if s.len() >= 1 {
        seq![s[0]] + collapse_dots(s.skip(1))
    } else {
        Seq::empty()
    }
}

/// The sanitized form of a remote identity: denied characters become
/// underscores, then edge dots are trimmed, then the remaining dot pairs
/// collapse to underscores, in exactly this order.
pub open spec fn spec_sanitize(s: Seq<char>) -> Seq<char> {
    collapse_dots(trim_dots(subst_denied(s)))
}

pub proof fn lemma_first_not_dot_found(s: Seq<char>, i: int, j: int)
    requires
        0 <= i <= j <= s.len(),
        forall|p: int| i <= p < j ==> s[p] == '.',
        j < s.len() ==> s[j] != '.',
    ensures
        first_not_dot(s, i) == j,
    decreases j - i,
{
    if i < j {
        lemma_first_not_dot_found(s, i + 1, j);
    }
}

pub proof fn lemma_last_not_dot_found(s: Seq<char>, j: int, b: int)
    requires
        -1 <= b <= j < s.len(),
        forall|p: int| b < p <= j ==> s[p] == '.',
        b >= 0 ==> s[b] != '.',
    ensures
        last_not_dot(s, j) == b,
    decreases j - b,
{
    if b < j {
        lemma_last_not_dot_found(s, j - 1, b);
    }
}

/// What collapsing preserves: freedom from denied characters, emptiness
/// only for empty input, edge characters that are underscores or the
/// input's own edges, and the absence of adjacent dot pairs.
pub proof fn lemma_collapse_props(s: Seq<char>)
    requires
        forall|p: int| 0 <= p < s.len() ==> !is_denied(#[trigger] s[p]),
    ensures
        forall|p: int|
            0 <= p < collapse_dots(s).len() ==> !is_denied(#[trigger] collapse_dots(s)[p]),
        collapse_dots(s).len() == 0 <==> s.len() == 0,
        s.len() > 0 ==> (collapse_dots(s)[0] == '_' || collapse_dots(s)[0] == s[0]),
        s.len() > 0 ==> (collapse_dots(s).last() == '_' || collapse_dots(s).last() == s.last()),
        forall|p: int|
            0 <= p < collapse_dots(s).len() - 1 ==> !(#[trigger] collapse_dots(s)[p] == '.'
                && collapse_dots(s)[p + 1] == '.'),
    decreases s.len(),
{
    let r = collapse_dots(s);
    if s.len() >= 2 && s[0] == '.' && s[1] == '.' {
        let t = s.skip(2);
        assert forall|p: int| 0 <= p < t.len() implies !is_denied(#[trigger] t[p]) by {
            assert(t[p] == s[p + 2]);
        }
        lemma_collapse_props(t);
        let rt = collapse_dots(t);
        assert(r == seq!['_'] + rt);
        assert forall|p: int| 0 <= p < r.len() implies !is_denied(#[trigger] r[p]) by {
            if p > 0 {
                assert(r[p] == rt[p - 1]);
            }
        }
        if t.len() > 0 {
            assert(t.last() == s.last());
        }
        assert forall|p: int| 0 <= p < r.len() - 1 implies !(#[trigger] r[p] == '.' && r[p + 1] == '.') by {
            if p > 0 {
                assert(r[p] == rt[p - 1]);
                assert(r[p + 1] == rt[p]);
            }
        }
    } else if s.len() >= 1 {
        let t = s.skip(1);
        assert forall|p: int| 0 <= p < t.len() implies !is_denied(#[trigger] t[p]) by {
            assert(t[p] == s[p + 1]);
        }
        lemma_collapse_props(t);
        let rt = collapse_dots(t);
        assert(r == seq![s[0]] + rt);
        assert forall|p: int| 0 <= p < r.len() implies !is_denied(#[trigger] r[p]) by {
            if p > 0 {
                assert(r[p] == rt[p - 1]);
            }
        }
        if t.len() > 0 {
            assert(t.last() == s.last());
        }
        assert forall|p: int| 0 <= p < r.len() - 1 implies !(#[trigger] r[p] == '.' && r[p + 1] == '.') by {
            if p == 0 {
                if r[0] == '.' && r[1] == '.' {
                    assert(r[1] == rt[0]);
                    assert(rt[0] == '_' || rt[0] == t[0]);
                    assert(t[0] == s[1]);
                }
            } else {
                assert(r[p] == rt[p - 1]);
                assert(r[p + 1] == rt[p]);
            }
        }
    }
}

/// The sanitizer's output is safe for one path segment: it holds no
/// denied character, does not begin or end with a dot, and holds no two
/// adjacent dots.
pub proof fn lemma_sanitize_safe(s: Seq<char>)
    ensures
        forall|p: int|
            0 <= p < spec_sanitize(s).len() ==> !is_denied(#[trigger] spec_sanitize(s)[p]),
        spec_sanitize(s).len() > 0 ==> spec_sanitize(s)[0] != '.' && spec_sanitize(s).last()
            != '.',
        forall|p: int|
            0 <= p < spec_sanitize(s).len() - 1 ==> !(#[trigger] spec_sanitize(s)[p] == '.'
                && spec_sanitize(s)[p + 1] == '.'),
{
    let u = subst_denied(s);
    let t = trim_dots(u);
    let a = first_not_dot(u, 0);
    let b = last_not_dot(u, u.len() - 1);
    lemma_first_not_dot_char(u, 0);
    lemma_last_not_dot_char(u, u.len() - 1);
    assert forall|p: int| 0 <= p < t.len() implies !is_denied(#[trigger] t[p]) by {
        assert(t[p] == u[a + p]);
        assert(!is_denied(u[a + p]));
    }
    if t.len() > 0 {
        assert(t[0] == u[a]);
        assert(t.last() == u[b]);
    }
    lemma_collapse_props(t);
}

/// `first_not_dot` lands on a non-dot character or the end.
pub proof fn lemma_first_not_dot_char(s: Seq<char>, i: int)
    requires
        0 <= i <= s.len(),
    ensures
        i <= first_not_dot(s, i),
        first_not_dot(s, i) <= s.len(),
        first_not_dot(s, i) < s.len() ==> s[first_not_dot(s, i)] != '.',
    decreases s.len() - i,
{
    if i < s.len() && s[i] == '.' {
        lemma_first_not_dot_char(s, i + 1);
    }
}

/// `last_not_dot` lands on a non-dot character or before the start.
pub proof fn lemma_last_not_dot_char(s: Seq<char>, j: int)
    requires
        -1 <= j < s.len(),
    ensures
        last_not_dot(s, j) <= j,
        -1 <= last_not_dot(s, j),
        last_not_dot(s, j) >= 0 ==> s[last_not_dot(s, j)] != '.',
    decreases j + 1,
{
    if j >= 0 && s[j] == '.' {
        lemma_last_not_dot_char(s, j - 1);
    }
}

/// Sanitizing is deterministic: equal inputs give equal outputs.
pub proof fn lemma_sanitize_deterministic(a: Seq<char>, b: Seq<char>)
    requires
        a == b,
    ensures
        spec_sanitize(a) == spec_sanitize(b),
{
}

/// Whether `c` is on the denylist, as `is_denied` says.
pub fn check_denied(c: char) -> (r: bool)
    ensures
        r == is_denied(c),
{
    c == '/' || c == '\\' || c == ':' || c == '*' || c == '?' || c == '"' || c == '<' || c == '>'
        || c == '|' || c == ' ' || c == '@' || c == '#' || c == '$' || c == '%' || c == '^' || c
        == '&' || c == '+' || c == '=' || c == '~'
}

/// Maps a remote identity to a directory-name segment, as `spec_sanitize`
/// says: denied characters become underscores, then edge dots are
/// trimmed, then the remaining dot pairs collapse to underscores.
pub fn sanitize_dir_name(origin: &str) -> (r: String)
    ensures
        r@ == spec_sanitize(origin@),
{
    let n = origin.unicode_len();
    let mut sub = String::new();
    let mut i: usize = 0;
    proof {
        assert(sub@ =~= subst_denied(origin@).subrange(0, 0));
    }
    while i < n
        invariant
            n == origin@.len(),
            i <= n,
            sub@ == subst_denied(origin@).subrange(0, i as int),
        decreases n - i,
    {
        let c = origin.get_char(i);
        if check_denied(c) {
            sub.append("_");
            proof {
                reveal_strlit("_");
                assert(sub@ =~= subst_denied(origin@).subrange(0, i as int + 1));
            }
        } else {
            let piece = origin.substring_char(i, i + 1);
            sub.append(piece);
            proof {
                assert(piece@ =~= seq![origin@[i as int]]);
                assert(sub@ =~= subst_denied(origin@).subrange(0, i as int + 1));
            }
        }
        i += 1;
    }
    proof {
        assert(subst_denied(origin@).subrange(0, n as int) =~= subst_denied(origin@));
    }
    let ghost u = subst_denied(origin@);
    let un = sub.as_str().unicode_len();
    let mut a: usize = 0;
    while a < un && sub.as_str().get_char(a) == '.'
        invariant
            un == u.len(),
            sub@ == u,
            a <= un,
            forall|p: int| 0 <= p < a ==> u[p] == '.',
        decreases un - a,
    {
        a += 1;
    }
    let trimmed: String;
    if a == un {
        proof {
            lemma_first_not_dot_found(u, 0, un as int);
            lemma_last_not_dot_found(u, un as int - 1, -1);
        }
        trimmed = String::new();
    } else {
        proof {
            lemma_first_not_dot_found(u, 0, a as int);
        }
        let mut b: usize = un;
        while b > a + 1 && sub.as_str().get_char(b - 1) == '.'
            invariant
                un == u.len(),
                sub@ == u,
                a < b <= un,
                u[a as int] != '.',
                forall|p: int| b <= p < un ==> u[p] == '.',
            decreases b,
        {
            b -= 1;
        }
        proof {
            assert(u[b as int - 1] != '.');
            lemma_last_not_dot_found(u, un as int - 1, b as int - 1);
        }
        trimmed = sub.as_str().substring_char(a, b).to_owned();
    }
    proof {
        assert(trimmed@ == trim_dots(u));
    }
    let t = trimmed.as_str();
    let tn = t.unicode_len();
    let mut out = String::new();
    let mut j: usize = 0;
    proof {
        assert(t@.skip(0) =~= t@);
        assert(out@ + collapse_dots(t@.skip(0)) =~= collapse_dots(t@));
    }
    while j < tn
        invariant
            tn == t@.len(),
            j <= tn,
            collapse_dots(t@) == out@ + collapse_dots(t@.skip(j as int)),
        decreases tn - j,
    {
        if j + 1 < tn && t.get_char(j) == '.' && t.get_char(j + 1) == '.' {
            out.append("_");
            proof {
                reveal_strlit("_");
                let r = t@.skip(j as int);
                assert(r[0] == '.');
                assert(r[1] == '.');
                assert(r.skip(2) =~= t@.skip(j as int + 2));
                assert(collapse_dots(t@) =~= out@ + collapse_dots(t@.skip(j as int + 2)));
            }
            j += 2;
        } else {
            let piece = t.substring_char(j, j + 1);
            out.append(piece);
            proof {
                let r = t@.skip(j as int);
                assert(r[0] == t@[j as int]);
                if r.len() >= 2 {
                    assert(r[1] == t@[j as int + 1]);
                }
                assert(piece@ =~= seq![t@[j as int]]);
                assert(r.skip(1) =~= t@.skip(j as int + 1));
                assert(collapse_dots(t@) =~= out@ + collapse_dots(t@.skip(j as int + 1)));
            }
            j += 1;
        }
    }
    proof {
        assert(t@.skip(tn as int) =~= Seq::<char>::empty());
        assert(out@ =~= collapse_dots(t@));
    }
    out
}

} // verus!
