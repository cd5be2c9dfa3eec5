//! Searching, trimming, line splitting and case-insensitive prefixes on
//! character sequences.
use vstd::prelude::*;
use vstd::string::*;
use crate::chars::{ascii_lower, eq_ignore_ascii_case, is_whitespace, to_ascii_lower, to_chars, whitespace};

verus! {

/// The index of the first element of `s` that satisfies `pred`, or the length
/// of `s` where none does.
pub open spec fn first_index<T>(s: Seq<T>, pred: spec_fn(T) -> bool) -> int
    decreases s.len(),
{
    if s.len() == 0 {
        0
    } else if pred(s[0]) {
        0
    } else {
        1 + first_index(s.drop_first(), pred)
    }
}

/// An index that no satisfying element precedes, and that holds one unless it
/// is the length, is the first index.
pub proof fn lemma_first_index_unique<T>(s: Seq<T>, pred: spec_fn(T) -> bool, k: int)
    requires
        0 <= k <= s.len(),
        forall|i: int| 0 <= i < k ==> !pred(#[trigger] s[i]),
        k < s.len() ==> pred(s[k]),
    ensures
        first_index(s, pred) == k,
    decreases s.len(),
{
    if s.len() > 0 && k > 0 {
        let t = s.drop_first();
        assert forall|i: int| 0 <= i < k - 1 implies !pred(#[trigger] t[i]) by {}
        lemma_first_index_unique(t, pred, k - 1);
    }
}

/// The first index lies within bounds, nothing before it satisfies `pred`, and
/// the element at it does.
pub proof fn lemma_first_index_holds<T>(s: Seq<T>, pred: spec_fn(T) -> bool)
    ensures
        0 <= first_index(s, pred) <= s.len(),
        forall|i: int| 0 <= i < first_index(s, pred) ==> !pred(#[trigger] s[i]),
        first_index(s, pred) < s.len() ==> pred(s[first_index(s, pred)]),
    decreases s.len(),
{
    if s.len() > 0 && !pred(s[0]) {
        let t = s.drop_first();
        lemma_first_index_holds(t, pred);
        let k = first_index(t, pred);
        assert forall|i: int| 0 <= i < k + 1 implies !pred(#[trigger] s[i]) by {
            if i > 0 {
                assert(s[i] == t[i - 1]);
            }
        }
    }
}

/// `s` without its leading whitespace.
pub open spec fn trim_start(s: Seq<char>) -> Seq<char>
    decreases s.len(),
{
    if s.len() > 0 && whitespace(s[0]) {
        trim_start(s.drop_first())
    } else {
        s
    }
}

/// `s` without its trailing whitespace.
pub open spec fn trim_end(s: Seq<char>) -> Seq<char>
    decreases s.len(),
{
    if s.len() > 0 && whitespace(s.last()) {
        trim_end(s.drop_last())
    } else {
        s
    }
}

/// `s` without the whitespace on either side.
pub open spec fn trim(s: Seq<char>) -> Seq<char> {
    trim_end(trim_start(s))
}

pub open spec fn is_newline() -> spec_fn(char) -> bool {
    |c: char| c == '\n'
}

/// The pieces of `text` between line feeds. A line feed that ends the text
/// opens no further line.
pub open spec fn split_lines(text: Seq<char>) -> Seq<Seq<char>>
    decreases text.len(),
{
    let e = first_index(text, is_newline());
    if text.len() == 0 {
        Seq::empty()
    } else if 0 <= e < text.len() {
        seq![text.take(e)] + split_lines(text.skip(e + 1))
    } else {
        seq![text]
    }
}

/// What follows `prefix` in `s`, where `s` begins with `prefix` up to ASCII
/// case.
pub open spec fn strip_prefix_spec(s: Seq<char>, prefix: Seq<char>) -> Option<Seq<char>> {
    if prefix.len() <= s.len() && eq_ignore_ascii_case(s.take(prefix.len() as int), prefix) {
        Some(s.skip(prefix.len() as int))
    } else {
        None
    }
}

/// A prefix is recognised without regard to ASCII case, and what follows it is
/// handed on as it stands: two strings that differ only in the case of their
/// first characters are stripped alike, and the rest is that of either.
pub proof fn lemma_strip_prefix_ignores_case(
    head_a: Seq<char>,
    head_b: Seq<char>,
    rest: Seq<char>,
    prefix: Seq<char>,
)
    requires
        eq_ignore_ascii_case(head_a, head_b),
        head_a.len() == prefix.len(),
    ensures
        strip_prefix_spec(head_a + rest, prefix) == strip_prefix_spec(head_b + rest, prefix),
        strip_prefix_spec(head_a + rest, prefix) == if eq_ignore_ascii_case(head_a, prefix) {
            Some(rest)
        } else {
            None
        },
{
    let k = prefix.len() as int;
    assert((head_a + rest).take(k) =~= head_a);
    assert((head_b + rest).take(k) =~= head_b);
    assert forall|i: int| 0 <= i < k implies ascii_lower(#[trigger] head_a[i]) == ascii_lower(
        head_b[i],
    ) by {}
    if eq_ignore_ascii_case(head_a, prefix) {
        assert forall|i: int| 0 <= i < k implies ascii_lower(#[trigger] head_b[i]) == ascii_lower(
            prefix[i],
        ) by {
            assert(ascii_lower(head_a[i]) == ascii_lower(prefix[i]));
        }
    }
    if eq_ignore_ascii_case(head_b, prefix) {
        assert forall|i: int| 0 <= i < k implies ascii_lower(#[trigger] head_a[i]) == ascii_lower(
            prefix[i],
        ) by {
            assert(ascii_lower(head_b[i]) == ascii_lower(prefix[i]));
        }
    }
}

/// The bounds of `text[from..to]` once trimmed.
pub fn trim_range(text: &Vec<char>, from: usize, to: usize) -> (r: (usize, usize))
    requires
        from <= to <= text.len(),
    ensures
        from <= r.0 <= r.1 <= to,
        text@.subrange(r.0 as int, r.1 as int) == trim(text@.subrange(from as int, to as int)),
        to - r.0 == trim_start(text@.subrange(from as int, to as int)).len(),
{
    let mut a: usize = from;
    while a < to && is_whitespace(text[a])
        invariant
            from <= a <= to <= text.len(),
            trim_start(text@.subrange(a as int, to as int)) == trim_start(
                text@.subrange(from as int, to as int),
            ),
        decreases to - a,
    {
        assert(text@.subrange(a as int, to as int).drop_first() =~= text@.subrange(
            a as int + 1,
            to as int,
        ));
        a = a + 1;
    }
    let mut b: usize = to;
    while a < b && is_whitespace(text[b - 1])
        invariant
            a <= b <= to <= text.len(),
            trim_end(text@.subrange(a as int, b as int)) == trim_end(
                text@.subrange(a as int, to as int),
            ),
        decreases b - a,
    {
        assert(text@.subrange(a as int, b as int).drop_last() =~= text@.subrange(
            a as int,
            b as int - 1,
        ));
        b = b - 1;
    }
    (a, b)
}

/// The end of the line that starts at `from`: the index of the next line feed,
/// or the length of `text`.
pub fn line_end(text: &Vec<char>, from: usize) -> (e: usize)
    requires
        from <= text.len(),
    ensures
        from <= e <= text.len(),
        e - from == first_index(text@.skip(from as int), is_newline()),
{
    let mut e: usize = from;
    while e < text.len() && text[e] != '\n'
        invariant
            from <= e <= text.len(),
            forall|i: int| from <= i < e ==> text@[i] != '\n',
        decreases text.len() - e,
    {
        e = e + 1;
    }
    proof {
        let rest = text@.skip(from as int);
        assert forall|i: int| 0 <= i < e - from implies !is_newline()(#[trigger] rest[i]) by {}
        lemma_first_index_unique(rest, is_newline(), e - from);
    }
    e
}

/// Whether `text[from..to]` begins with `prefix` up to ASCII case.
pub fn has_prefix_ignore_case(text: &Vec<char>, from: usize, to: usize, prefix: &Vec<char>) -> (r:
    bool)
    requires
        from <= to <= text.len(),
    ensures
        r == (strip_prefix_spec(text@.subrange(from as int, to as int), prefix@) is Some),
        r ==> from + prefix.len() <= to,
{
    let k = prefix.len();
    if to - from < k {
        return false;
    }
    let ghost head = text@.subrange(from as int, to as int).take(k as int);
    let mut i: usize = 0;
    while i < k
        invariant
            i <= k,
            k == prefix.len(),
            from + k <= to <= text.len(),
            head == text@.subrange(from as int, to as int).take(k as int),
            forall|j: int| 0 <= j < i ==> ascii_lower(#[trigger] head[j]) == ascii_lower(prefix@[j]),
        decreases k - i,
    {
        assert(head[i as int] == text@[from + i]);
        if to_ascii_lower(text[from + i]) != to_ascii_lower(prefix[i]) {
            return false;
        }
        i = i + 1;
    }
    true
}

/// Strips `prefix` from the front of `s`, ignoring ASCII case, and returns the
/// rest of `s`; `None` where `s` does not begin with it.
pub fn strip_prefix<'a>(s: &'a str, prefix: &str) -> (r: Option<&'a str>)
    ensures
        match r {
            Some(rest) => strip_prefix_spec(s@, prefix@) == Some(rest@),
            None => strip_prefix_spec(s@, prefix@) is None,
        },
{
    let sv = to_chars(s);
    let pv = to_chars(prefix);
    assert(sv@.subrange(0, sv@.len() as int) =~= s@);
    if has_prefix_ignore_case(&sv, 0, sv.len(), &pv) {
        Some(s.substring_char(pv.len(), sv.len()))
    } else {
        None
    }
}

} // verus!
