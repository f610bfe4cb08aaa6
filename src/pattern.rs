//! Name patterns: exact names, or globs where `?` stands for one character
//! and `*` for any run of characters, compared with or without ASCII case.
use vstd::prelude::*;

verus! {

/// The ASCII lower-case form of `c`; every other character is left as it is.
pub open spec fn fold_char(c: char) -> char {
    if 'A' <= c && c <= 'Z' {
        ((c as u32) + 32) as char
    } else {
        c
    }
}

/// `s` with each ASCII upper-case letter replaced by its lower-case form.
pub open spec fn fold(s: Seq<char>) -> Seq<char> {
    s.map_values(|c: char| fold_char(c))
}

/// The form in which names are compared: `s` itself, or `s` folded when case is ignored.
pub open spec fn adjust(s: Seq<char>, case_sensitive: bool) -> Seq<char> {
    if case_sensitive {
        s
    } else {
        fold(s)
    }
}

/// A query is a glob when it holds a `*` or a `?`.
pub open spec fn has_wildcard(q: Seq<char>) -> bool {
    q.contains('*') || q.contains('?')
}

/// Whether the pattern `p` from position `i` on matches the text `t` from position `j` on:
/// `*` takes any run of characters (none included), `?` exactly one character, and every
/// other character itself.
pub open spec fn glob_from(p: Seq<char>, t: Seq<char>, i: int, j: int) -> bool
    decreases p.len() - i, t.len() - j,
{
    if i < 0 || j < 0 || i > p.len() || j > t.len() {
        false
    } else if i == p.len() {
        j == t.len()
    } else if p[i] == '*' {
        glob_from(p, t, i + 1, j) || (j < t.len() && glob_from(p, t, i, j + 1))
    } else {
        j < t.len() && (p[i] == '?' || p[i] == t[j]) && glob_from(p, t, i + 1, j + 1)
    }
}

/// `j`, or `len` where `j` lies past it.
pub open spec fn clamp_index(j: usize, len: nat) -> int {
    if j > len {
        len as int
    } else {
        j as int
    }
}

/// Whether the whole pattern `p` matches the whole text `t`.
pub open spec fn glob(p: Seq<char>, t: Seq<char>) -> bool {
    glob_from(p, t, 0, 0)
}

/// Whether `name` is matched by `query`: as a glob when `wildcard` holds, else by equality;
/// both sides folded first when case is ignored.
pub open spec fn name_matches(
    query: Seq<char>,
    wildcard: bool,
    case_sensitive: bool,
    name: Seq<char>,
) -> bool {
    if wildcard {
        glob(adjust(query, case_sensitive), adjust(name, case_sensitive))
    } else {
        adjust(query, case_sensitive) == adjust(name, case_sensitive)
    }
}

/// A run of pattern characters without `*` between `a` and `p` consumes exactly one text
/// character each.
proof fn lemma_run(p: Seq<char>, t: Seq<char>, a: int, e: int, k: int)
    requires
        0 <= a <= e <= p.len(),
        forall|i: int| a <= i < e ==> p[i] != '*',
        0 <= k <= t.len(),
        glob_from(p, t, a, k),
    ensures
        k + (e - a) <= t.len(),
        glob_from(p, t, e, k + (e - a)),
    decreases e - a,
{
    if a < e {
        lemma_run(p, t, a + 1, e, k + 1);
    }
}

/// A `*` may take more text: a match from a later text position gives one from an earlier.
proof fn lemma_absorb(p: Seq<char>, t: Seq<char>, s: int, j: int, k: int)
    requires
        0 <= s < p.len(),
        p[s] == '*',
        0 <= j <= k <= t.len(),
        glob_from(p, t, s, k),
    ensures
        glob_from(p, t, s, j),
    decreases k - j,
{
    if j < k {
        lemma_absorb(p, t, s, j + 1, k);
    }
}

/// After a `*` at `s` followed by a run without `*` up to `e`, any match from text
/// position `j` leaves room for that run.
proof fn lemma_star_bound(p: Seq<char>, t: Seq<char>, s: int, e: int, j: int)
    requires
        0 <= s < e <= p.len(),
        p[s] == '*',
        forall|i: int| s < i < e ==> p[i] != '*',
        0 <= j <= t.len(),
        glob_from(p, t, s, j),
    ensures
        j + (e - s - 1) <= t.len(),
    decreases t.len() - j,
{
    if glob_from(p, t, s + 1, j) {
        lemma_run(p, t, s + 1, e, j);
    } else {
        lemma_star_bound(p, t, s, e, j + 1);
    }
}

/// Once a later `*` at `e` is reached, the earlier `*` at `s` need not take more text:
/// whatever it could match, the later one matches from text position `u` on.
proof fn lemma_star_skip(p: Seq<char>, t: Seq<char>, s: int, e: int, j: int, u: int)
    requires
        0 <= s < e < p.len(),
        p[s] == '*',
        p[e] == '*',
        forall|i: int| s < i < e ==> p[i] != '*',
        0 <= j <= t.len(),
        0 <= u <= j + (e - s - 1),
        u <= t.len(),
        glob_from(p, t, s, j),
    ensures
        glob_from(p, t, e, u),
    decreases t.len() - j,
{
    if glob_from(p, t, s + 1, j) {
        lemma_run(p, t, s + 1, e, j);
        lemma_absorb(p, t, e, u, j + (e - s - 1));
    } else {
        lemma_star_skip(p, t, s, e, j + 1, u);
    }
}

/// The characters of `s`, in order, folded when `case_sensitive` is off.
pub(crate) fn adjusted_chars(s: &str, case_sensitive: bool) -> (r: Vec<char>)
    ensures
        r@ == adjust(s@, case_sensitive),
{
    let mut r: Vec<char> = Vec::new();
    for c in it: s.chars()
        invariant
            it.seq() == s@,
            r@ == adjust(s@.take(it.index() as int), case_sensitive),
    {
        proof {
            assert(s@.take(it.index() + 1) == s@.take(it.index() as int).push(c));
        }
        if case_sensitive {
            r.push(c);
        } else {
            r.push(fold_ascii(c));
        }
    }
    proof {
        assert(s@.take(s@.len() as int) == s@);
    }
    r
}

/// The ASCII lower-case form of `c`.
fn fold_ascii(c: char) -> (r: char)
    ensures
        r == fold_char(c),
{
    if 'A' <= c && c <= 'Z' {
        ((c as u8) + 32) as char
    } else {
        c
    }
}

/// Whether two character sequences are equal.
fn same_chars(a: &[char], b: &[char]) -> (r: bool)
    ensures
        r == (a@ == b@),
{
    if a.len() != b.len() {
        return false;
    }
    let mut i: usize = 0;
    while i < a.len()
        invariant
            a@.len() == b@.len(),
            i <= a.len(),
            forall|k: int| 0 <= k < i ==> a@[k] == b@[k],
        decreases a.len() - i,
    {
        if a[i] != b[i] {
            return false;
        }
        i += 1;
    }
    proof {
        assert(a@ =~= b@);
    }
    true
}

/// Whether two strings hold the same characters.
pub fn same_text(a: &str, b: &str) -> (r: bool)
    ensures
        r == (a@ == b@),
{
    let x = adjusted_chars(a, true);
    let y = adjusted_chars(b, true);
    same_chars(x.as_slice(), y.as_slice())
}

/// A compiled query: the text as given, whether it is read as a glob, and whether case counts.
pub struct Pattern {
    text: String,
    compiled: Vec<char>,
    is_wildcard: bool,
    case_sensitive: bool,
}

impl Pattern {
    #[verifier::type_invariant]
    spec fn inv(self) -> bool {
        self.compiled@ == adjust(self.text@, self.case_sensitive)
    }

    /// The query text.
    pub closed spec fn query(self) -> Seq<char> {
        self.text@
    }

    /// Whether `*` and `?` act as wildcards.
    pub closed spec fn wildcard(self) -> bool {
        self.is_wildcard
    }

    /// Whether upper and lower case are told apart.
    pub closed spec fn cased(self) -> bool {
        self.case_sensitive
    }

    /// What `matches` answers for `name`.
    pub open spec fn accepts(self, name: Seq<char>) -> bool {
        name_matches(self.query(), self.wildcard(), self.cased(), name)
    }

    /// A pattern for `query`, read as a glob exactly when it holds `*` or `?`.
    pub fn new(query: &str, case_sensitive: bool) -> (r: Pattern)
        ensures
            r.query() == query@,
            r.wildcard() == has_wildcard(query@),
            r.cased() == case_sensitive,
    {
        let compiled = adjusted_chars(query, case_sensitive);
        let mut is_wildcard = false;
        let mut i: usize = 0;
        while i < compiled.len()
            invariant
                i <= compiled.len(),
                compiled@ == adjust(query@, case_sensitive),
                is_wildcard <==> exists|k: int|
                    0 <= k < i && (compiled@[k] == '*' || compiled@[k] == '?'),
            decreases compiled.len() - i,
        {
            if compiled[i] == '*' || compiled[i] == '?' {
                is_wildcard = true;
            }
            i += 1;
        }
        proof {
            lemma_adjust_keeps_wildcards(query@, case_sensitive);
        }
        Pattern {
            text: query.to_string(),
            compiled,
            is_wildcard,
            case_sensitive,
        }
    }

    /// A pattern that compares names with `query` as they are, `*` and `?` included.
    pub fn literal(query: &str, case_sensitive: bool) -> (r: Pattern)
        ensures
            r.query() == query@,
            !r.wildcard(),
            r.cased() == case_sensitive,
    {
        let compiled = adjusted_chars(query, case_sensitive);
        Pattern { text: query.to_string(), compiled, is_wildcard: false, case_sensitive }
    }

    /// Whether `text` is matched: by glob when the pattern is one, else by equality, and
    /// in both cases with ASCII case folded when case is ignored.
    pub fn matches(&self, text: &str) -> (r: bool)
        ensures
            r == self.accepts(text@),
    {
        proof {
            use_type_invariant(self);
        }
        let t = adjusted_chars(text, self.case_sensitive);
        if self.is_wildcard {
            self.match_wildcard(self.compiled.as_slice(), t.as_slice(), 0, 0)
        } else {
            same_chars(self.compiled.as_slice(), t.as_slice())
        }
    }

    /// Glob matching of `pattern` from `p_idx` against `text` from `t_idx`, in one pass
    /// (a pattern position past the end matches nothing; a text position past the end
    /// counts as the end):
    /// a mismatch after a `*` goes back to just past that `*` and lets it take one more
    /// character; a later `*` replaces the earlier one as the point to go back to.
    pub fn match_wildcard(&self, pattern: &[char], text: &[char], p_idx: usize, t_idx: usize) -> (r:
        bool)
        ensures
            r == if p_idx > pattern@.len() {
                false
            } else {
                glob_from(pattern@, text@, p_idx as int, clamp_index(t_idx, text@.len()))
            },
    {
        if p_idx > pattern.len() {
            return false;
        }
        let t_start: usize = if t_idx > text.len() {
            text.len()
        } else {
            t_idx
        };
        let ghost pat = pattern@;
        let ghost txt = text@;
        let ghost goal = glob_from(pat, txt, p_idx as int, t_start as int);
        let mut p: usize = p_idx;
        let mut t: usize = t_start;
        let mut text_idx: usize = 0;
        let mut star_idx: Option<usize> = None;

        while t < text.len()
            invariant
                pat == pattern@,
                txt == text@,
                goal == glob_from(pat, txt, p_idx as int, t_start as int),
                p_idx <= pat.len(),
                t_start as int == clamp_index(t_idx, txt.len()),
                p <= pat.len(),
                t <= txt.len(),
                text_idx <= t,
                match star_idx {
                    None => goal == glob_from(pat, txt, p as int, t as int),
                    Some(s) => {
                        &&& s < p
                        &&& pat[s as int] == '*'
                        &&& t - text_idx == p - s - 1
                        &&& forall|i: int| s < i < p ==> pat[i] != '*'
                        &&& goal == glob_from(pat, txt, s as int, text_idx as int)
                        &&& glob_from(pat, txt, s + 1, text_idx as int) == glob_from(
                            pat,
                            txt,
                            p as int,
                            t as int,
                        )
                    },
                },
            decreases txt.len() - text_idx, (txt.len() - t) + (pat.len() - p),
        {
            if p < pattern.len() && pattern[p] == '*' {
                proof {
                    if let Some(s) = star_idx {
                        if text_idx < txt.len() && glob_from(pat, txt, s as int, text_idx + 1) {
                            lemma_star_skip(pat, txt, s as int, p as int, text_idx + 1, t as int);
                        }
                    }
                }
                star_idx = Some(p);
                text_idx = t;
                p += 1;
            } else if p < pattern.len() && (pattern[p] == '?' || pattern[p] == text[t]) {
                p += 1;
                t += 1;
            } else if let Some(si) = star_idx {
                p = si + 1;
                t = text_idx + 1;
                text_idx += 1;
            } else {
                return false;
            }
        }

        proof {
            if let Some(s) = star_idx {
                if text_idx < txt.len() && glob_from(pat, txt, s as int, text_idx + 1) {
                    lemma_star_bound(pat, txt, s as int, p as int, text_idx + 1);
                }
            }
        }
        while p < pattern.len() && pattern[p] == '*'
            invariant
                pat == pattern@,
                txt == text@,
                p <= pat.len(),
                goal == glob_from(pat, txt, p as int, txt.len() as int),
            decreases pat.len() - p,
        {
            p += 1;
        }

        p == pattern.len()
    }
}

/// Folding changes letters only, so a query holds a wildcard exactly when its folded form does.
proof fn lemma_adjust_keeps_wildcards(q: Seq<char>, case_sensitive: bool)
    ensures
        has_wildcard(q) <==> exists|k: int|
            0 <= k < adjust(q, case_sensitive).len() && (adjust(q, case_sensitive)[k] == '*'
                || adjust(q, case_sensitive)[k] == '?'),
{
    let a = adjust(q, case_sensitive);
    assert(a.len() == q.len());
    assert forall|k: int| 0 <= k < q.len() implies (a[k] == '*' <==> q[k] == '*') && (a[k]
        == '?' <==> q[k] == '?') by {}
    if q.contains('*') {
        let k = choose|k: int| 0 <= k < q.len() && q[k] == '*';
        assert(a[k] == '*');
    }
    if q.contains('?') {
        let k = choose|k: int| 0 <= k < q.len() && q[k] == '?';
        assert(a[k] == '?');
    }
}

} // verus!
