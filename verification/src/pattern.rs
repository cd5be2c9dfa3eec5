//! Wildcard patterns: `*` stands for any run of characters, and a pattern
//! without `*` is a prefix.
use vstd::prelude::*;
use crate::chars::to_chars;

verus! {

/// Whether the whole of `s` can be read as `p`, each `*` of `p` standing for
/// zero or more characters of any kind.
pub open spec fn wildcard_match(p: Seq<char>, s: Seq<char>) -> bool
    decreases p.len() + s.len(),
{
    if p.len() == 0 {
        s.len() == 0
    } else if p[0] == '*' {
        wildcard_match(p.drop_first(), s) || (s.len() > 0 && wildcard_match(p, s.drop_first()))
    } else {
        s.len() > 0 && p[0] == s[0] && wildcard_match(p.drop_first(), s.drop_first())
    }
}

/// Whether pattern `p` matches `s`: as a prefix where `p` has no `*`, and
/// else as a wildcard pattern for the whole of `s`.
pub open spec fn pattern_matches(p: Seq<char>, s: Seq<char>) -> bool {
    if p.contains('*') {
        wildcard_match(p, s)
    } else {
        p.is_prefix_of(s)
    }
}

/// Whether `p` holds a `*`.
fn has_wildcard(p: &Vec<char>) -> (r: bool)
    ensures
        r == p@.contains('*'),
{
    let mut i: usize = 0;
    while i < p.len()
        invariant
            i <= p.len(),
            forall|j: int| 0 <= j < i ==> p@[j] != '*',
        decreases p.len() - i,
    {
        if p[i] == '*' {
            return true;
        }
        i = i + 1;
    }
    false
}

/// Whether `s` starts with `p`.
fn is_prefix(p: &Vec<char>, s: &Vec<char>) -> (r: bool)
    ensures
        r == p@.is_prefix_of(s@),
{
    if s.len() < p.len() {
        return false;
    }
    let mut i: usize = 0;
    while i < p.len()
        invariant
            i <= p.len() <= s.len(),
            forall|j: int| 0 <= j < i ==> p@[j] == s@[j],
        decreases p.len() - i,
    {
        if p[i] != s[i] {
            return false;
        }
        i = i + 1;
    }
    true
}

/// Whether what is left of `p` from `i` on matches what is left of `s` from
/// `j` on.
pub open spec fn suffix_match(p: Seq<char>, s: Seq<char>, i: int, j: int) -> bool {
    wildcard_match(p.skip(i), s.skip(j))
}

/// How a match at `(i, j)` depends on the matches one step further on.
proof fn lemma_suffix_match_step(p: Seq<char>, s: Seq<char>, i: int, j: int)
    requires
        0 <= i <= p.len(),
        0 <= j <= s.len(),
    ensures
        i == p.len() ==> suffix_match(p, s, i, j) == (j == s.len()),
        i < p.len() && p[i] == '*' ==> suffix_match(p, s, i, j) == (suffix_match(p, s, i + 1, j)
            || (j < s.len() && suffix_match(p, s, i, j + 1))),
        i < p.len() && p[i] != '*' ==> suffix_match(p, s, i, j) == (j < s.len() && p[i] == s[j]
            && suffix_match(p, s, i + 1, j + 1)),
{
    if i < p.len() {
        assert(p.skip(i).drop_first() =~= p.skip(i + 1));
    }
    if j < s.len() {
        assert(s.skip(j).drop_first() =~= s.skip(j + 1));
    }
}

/// The row of matches for the empty pattern: none but at the end of `s`.
fn empty_pattern_row(p: &Vec<char>, s: &Vec<char>) -> (row: Vec<bool>)
    ensures
        row.len() == s.len(),
        forall|j: int| 0 <= j < s.len() ==> row@[j] == suffix_match(p@, s@, p@.len() as int, j),
{
    let mut row: Vec<bool> = Vec::new();
    while row.len() < s.len()
        invariant
            row.len() <= s.len(),
            forall|j: int| 0 <= j < row.len() ==> row@[j] == false,
        decreases s.len() - row.len(),
    {
        row.push(false);
    }
    proof {
        assert forall|j: int| 0 <= j < s.len() implies row@[j] == suffix_match(
            p@,
            s@,
            p@.len() as int,
            j,
        ) by {
            lemma_suffix_match_step(p@, s@, p@.len() as int, j);
        }
    }
    row
}

/// Whether the whole of `s` matches the wildcard pattern `p`, in time
/// proportional to the product of their lengths.
pub fn wildcard_matches(p: &Vec<char>, s: &Vec<char>) -> (r: bool)
    ensures
        r == wildcard_match(p@, s@),
{
    let n = s.len();
    // `row[j]`, and `end` for `j == n`, say whether `p[i..]` matches `s[j..]`.
    let mut row = empty_pattern_row(p, s);
    let mut end = true;
    let mut i: usize = p.len();
    proof {
        lemma_suffix_match_step(p@, s@, i as int, n as int);
    }
    while i > 0
        invariant
            i <= p.len(),
            n == s.len(),
            row.len() == n,
            end == suffix_match(p@, s@, i as int, n as int),
            forall|j: int| 0 <= j < n ==> row@[j] == suffix_match(p@, s@, i as int, j),
        decreases i,
    {
        i = i - 1;
        let star = p[i] == '*';
        let ghost above = row@;
        let above_end = end;
        proof {
            lemma_suffix_match_step(p@, s@, i as int, n as int);
        }
        end = star && end;
        // The value of the cell to the right in the row above: `above[j + 1]`.
        let mut diagonal = above_end;
        let mut right = end;
        let mut j: usize = n;
        while j > 0
            invariant
                j <= n,
                i < p.len(),
                n == s.len(),
                row.len() == n,
                star == (p@[i as int] == '*'),
                end == suffix_match(p@, s@, i as int, n as int),
                above.len() == n,
                above_end == suffix_match(p@, s@, i + 1, n as int),
                forall|k: int| 0 <= k < n ==> #[trigger] above[k] == suffix_match(p@, s@, i + 1, k),
                forall|k: int| 0 <= k < j ==> #[trigger] row@[k] == above[k],
                forall|k: int| j <= k < n ==> #[trigger] row@[k] == suffix_match(p@, s@, i as int, k),
                diagonal == suffix_match(p@, s@, i + 1, j as int),
                right == suffix_match(p@, s@, i as int, j as int),
            decreases j,
        {
            j = j - 1;
            proof {
                lemma_suffix_match_step(p@, s@, i as int, j as int);
            }
            let up = row[j];
            let here = if star {
                up || right
            } else {
                p[i] == s[j] && diagonal
            };
            row.set(j, here);
            diagonal = up;
            right = here;
        }
    }
    assert(p@.skip(0) =~= p@);
    assert(s@.skip(0) =~= s@);
    if n == 0 {
        end
    } else {
        row[0]
    }
}

/// Whether `pattern` matches `string`, both given by their characters.
pub fn match_chars(pattern: &Vec<char>, string: &Vec<char>) -> (r: bool)
    ensures
        r == pattern_matches(pattern@, string@),
{
    if has_wildcard(pattern) {
        wildcard_matches(pattern, string)
    } else {
        is_prefix(pattern, string)
    }
}

/// Matches a wildcard pattern, in which `*` stands for any run of characters,
/// `/` included, against the whole of `string`. A pattern without `*` matches
/// when `string` starts with it.
pub fn match_pattern(pattern: &str, string: &str) -> (r: bool)
    ensures
        r == pattern_matches(pattern@, string@),
{
    let p = to_chars(pattern);
    let s = to_chars(string);
    match_chars(&p, &s)
}

} // verus!
