//! Pattern lists kept longest first, and the allow/disallow rules of one
//! agent.
use vstd::prelude::*;
use vstd::multiset::Multiset;
use vstd::string::*;
use vstd::utf8::encode_utf8;
use crate::chars::to_chars;
use crate::pattern::{match_chars, pattern_matches};
use crate::text::{first_index, lemma_first_index_holds, lemma_first_index_unique};

verus! {

/// The length of a pattern: the number of bytes of its UTF-8 encoding.
pub open spec fn byte_len(p: Seq<char>) -> nat {
    encode_utf8(p).len()
}

/// The patterns shorter than `n` bytes.
pub open spec fn shorter_than(n: nat) -> spec_fn(Seq<char>) -> bool {
    |p: Seq<char>| byte_len(p) < n
}

/// The patterns that match `subject`.
pub open spec fn matching(subject: Seq<char>) -> spec_fn(Seq<char>) -> bool {
    |p: Seq<char>| pattern_matches(p, subject)
}

/// The patterns equal to `x`.
pub open spec fn equal_to(x: Seq<char>) -> spec_fn(Seq<char>) -> bool {
    |p: Seq<char>| p == x
}

/// The strings of `v` as character sequences.
pub open spec fn strings_view(v: Seq<String>) -> Seq<Seq<char>> {
    Seq::new(v.len(), |i: int| v[i]@)
}

/// No pattern of `s` is longer than one before it.
pub open spec fn sorted_by_len(s: Seq<Seq<char>>) -> bool {
    forall|i: int, j: int| 0 <= i <= j < s.len() ==> byte_len(s[i]) >= byte_len(s[j])
}

/// Where a pattern of `n` bytes enters a list kept longest first: behind
/// every pattern at least as long, so that patterns of one length stay in the
/// order in which they came.
pub open spec fn insert_position(s: Seq<Seq<char>>, n: nat) -> int {
    first_index(s, shorter_than(n))
}

/// `s` with `x` added at its place by length.
pub open spec fn insert_by_len(s: Seq<Seq<char>>, x: Seq<char>) -> Seq<Seq<char>> {
    s.insert(insert_position(s, byte_len(x)), x)
}

/// The first pattern of `s` that matches `subject`, if any.
pub open spec fn first_match(s: Seq<Seq<char>>, subject: Seq<char>) -> Option<Seq<char>> {
    let k = first_index(s, matching(subject));
    if 0 <= k < s.len() {
        Some(s[k])
    } else {
        None
    }
}

/// A list kept longest first stays so when a pattern enters at its place.
pub proof fn lemma_insert_keeps_sorted(s: Seq<Seq<char>>, x: Seq<char>)
    requires
        sorted_by_len(s),
    ensures
        sorted_by_len(insert_by_len(s, x)),
        0 <= insert_position(s, byte_len(x)) <= s.len(),
{
    let n = byte_len(x);
    lemma_first_index_holds(s, shorter_than(n));
    let t = insert_by_len(s, x);
    assert forall|i: int, j: int| 0 <= i <= j < t.len() implies byte_len(t[i]) >= byte_len(
        t[j],
    ) by {}
}

/// A pattern enters behind every pattern at least as long and before every
/// shorter one, and the others stay as they were: patterns of one length keep
/// the order in which they came.
pub proof fn lemma_insert_is_stable(s: Seq<Seq<char>>, x: Seq<char>)
    requires
        sorted_by_len(s),
    ensures
        0 <= insert_position(s, byte_len(x)) <= s.len(),
        insert_by_len(s, x)[insert_position(s, byte_len(x))] == x,
        insert_by_len(s, x).remove(insert_position(s, byte_len(x))) == s,
        forall|i: int|
            0 <= i < insert_position(s, byte_len(x)) ==> byte_len(#[trigger] s[i]) >= byte_len(x),
        forall|i: int|
            insert_position(s, byte_len(x)) <= i < s.len() ==> byte_len(#[trigger] s[i]) < byte_len(
                x,
            ),
{
    let n = byte_len(x);
    let k = insert_position(s, n);
    lemma_first_index_holds(s, shorter_than(n));
    assert forall|i: int| 0 <= i < k implies byte_len(#[trigger] s[i]) >= n by {}
    assert forall|i: int| k <= i < s.len() implies byte_len(#[trigger] s[i]) < n by {}
}

/// `base` after the patterns of `s` have entered it one by one, each at its
/// place by length.
pub open spec fn insert_all(base: Seq<Seq<char>>, s: Seq<Seq<char>>) -> Seq<Seq<char>>
    decreases s.len(),
{
    if s.len() == 0 {
        base
    } else {
        insert_all(insert_by_len(base, s[0]), s.drop_first())
    }
}

/// `s` sorted longest first, patterns of one length in the order in which
/// they stand in `s`.
pub open spec fn sort_by_len(s: Seq<Seq<char>>) -> Seq<Seq<char>> {
    insert_all(Seq::empty(), s)
}

/// A list without patterns holds nothing.
proof fn lemma_empty_holds_nothing(s: Seq<Seq<char>>)
    requires
        s.len() == 0,
    ensures
        s.to_multiset() == Multiset::<Seq<char>>::empty(),
{
    s.to_multiset_ensures();
    vstd::multiset::lemma_multiset_empty_len(s.to_multiset());
}

/// Patterns that enter a list kept longest first leave it so, and the list
/// then holds what it held and what entered, each as often as before.
pub proof fn lemma_insert_all_sorts(base: Seq<Seq<char>>, s: Seq<Seq<char>>)
    requires
        sorted_by_len(base),
    ensures
        sorted_by_len(insert_all(base, s)),
        insert_all(base, s).to_multiset() == base.to_multiset().add(s.to_multiset()),
        insert_all(base, s).len() == base.len() + s.len(),
    decreases s.len(),
{
    broadcast use vstd::multiset::group_multiset_axioms;
    broadcast use vstd::seq_lib::to_multiset_insert;

    if s.len() == 0 {
        lemma_empty_holds_nothing(s);
    } else {
        let next = insert_by_len(base, s[0]);
        lemma_insert_keeps_sorted(base, s[0]);
        lemma_insert_all_sorts(next, s.drop_first());
        assert(s.to_multiset() =~= Multiset::empty().insert(s[0]).add(
            s.drop_first().to_multiset(),
        )) by {
            s.to_multiset_ensures();
            assert(s =~= seq![s[0]] + s.drop_first());
            vstd::seq_lib::lemma_multiset_commutative(seq![s[0]], s.drop_first());
            vstd::seq_lib::to_multiset_build(Seq::empty(), s[0]);
            lemma_empty_holds_nothing(Seq::empty());
        }
    }
}

/// Sorting gives a list longest first that holds the same patterns, each as
/// often as before.
pub proof fn lemma_sort_by_len_sorts(s: Seq<Seq<char>>)
    ensures
        sorted_by_len(sort_by_len(s)),
        sort_by_len(s).to_multiset() == s.to_multiset(),
        sort_by_len(s).len() == s.len(),
{
    broadcast use vstd::multiset::group_multiset_axioms;

    lemma_insert_all_sorts(Seq::empty(), s);
    lemma_empty_holds_nothing(Seq::empty());
}

/// In a list kept longest first, the first pattern that matches is a longest
/// among those that match.
pub proof fn lemma_first_match_is_longest(s: Seq<Seq<char>>, subject: Seq<char>, j: int)
    requires
        sorted_by_len(s),
        0 <= j < s.len(),
        pattern_matches(s[j], subject),
    ensures
        first_match(s, subject) is Some,
        s.contains(first_match(s, subject)->0),
        pattern_matches(first_match(s, subject)->0, subject),
        byte_len(first_match(s, subject)->0) >= byte_len(s[j]),
{
    lemma_first_index_holds(s, matching(subject));
}

/// The allow and disallow patterns of one agent.
pub struct RuleModel {
    pub allow: Seq<Seq<char>>,
    pub disallow: Seq<Seq<char>>,
}

impl RuleModel {
    /// The rules without any pattern.
    pub open spec fn empty() -> RuleModel {
        RuleModel { allow: Seq::empty(), disallow: Seq::empty() }
    }

    /// Both lists are kept longest first.
    pub open spec fn wf(self) -> bool {
        sorted_by_len(self.allow) && sorted_by_len(self.disallow)
    }

    /// The rules with `pattern` added to the allow list, or to the disallow
    /// list where `allow` is false.
    pub open spec fn with(self, pattern: Seq<char>, allow: bool) -> RuleModel {
        if allow {
            RuleModel { allow: insert_by_len(self.allow, pattern), disallow: self.disallow }
        } else {
            RuleModel { allow: self.allow, disallow: insert_by_len(self.disallow, pattern) }
        }
    }

    /// The allow list, or the disallow list where `allow` is false.
    pub open spec fn list(self, allow: bool) -> Seq<Seq<char>> {
        if allow {
            self.allow
        } else {
            self.disallow
        }
    }

    /// Whether `path` may be fetched: by the first allow and the first
    /// disallow pattern that match, the allow winning only where it is
    /// strictly longer.
    pub open spec fn allows(self, path: Seq<char>) -> bool {
        match (first_match(self.allow, path), first_match(self.disallow, path)) {
            (_, None) => true,
            (None, Some(_)) => false,
            (Some(a), Some(d)) => byte_len(a) > byte_len(d),
        }
    }

    /// The most specific rule decides: a path is allowed exactly when no
    /// disallow pattern matches it, or some allow pattern that matches it is
    /// strictly longer than every disallow pattern that does.
    pub proof fn lemma_longest_match_decides(self, path: Seq<char>)
        requires
            self.wf(),
        ensures
            self.allows(path) <==> ((forall|j: int|
                0 <= j < self.disallow.len() ==> !pattern_matches(
                    #[trigger] self.disallow[j],
                    path,
                )) || (exists|i: int|
                0 <= i < self.allow.len() && pattern_matches(#[trigger] self.allow[i], path)
                    && forall|j: int|
                    0 <= j < self.disallow.len() && pattern_matches(
                        #[trigger] self.disallow[j],
                        path,
                    ) ==> byte_len(self.allow[i]) > byte_len(self.disallow[j]))),
    {
        let ka = first_index(self.allow, matching(path));
        let kd = first_index(self.disallow, matching(path));
        lemma_first_index_holds(self.allow, matching(path));
        lemma_first_index_holds(self.disallow, matching(path));
        if kd == self.disallow.len() {
            assert forall|j: int| 0 <= j < self.disallow.len() implies !pattern_matches(
                #[trigger] self.disallow[j],
                path,
            ) by {}
        } else {
            if ka == self.allow.len() {
                assert forall|i: int| 0 <= i < self.allow.len() implies !pattern_matches(
                    #[trigger] self.allow[i],
                    path,
                ) by {}
            } else {
                if byte_len(self.allow[ka]) > byte_len(self.disallow[kd]) {
                    assert forall|j: int|
                        0 <= j < self.disallow.len() && pattern_matches(
                            #[trigger] self.disallow[j],
                            path,
                        ) implies byte_len(self.allow[ka]) > byte_len(self.disallow[j]) by {
                        lemma_first_match_is_longest(self.disallow, path, j);
                    }
                } else {
                    assert forall|i: int|
                        0 <= i < self.allow.len() && pattern_matches(
                            #[trigger] self.allow[i],
                            path,
                        ) implies byte_len(self.allow[i]) <= byte_len(self.disallow[kd]) by {
                        lemma_first_match_is_longest(self.allow, path, i);
                    }
                }
            }
        }
    }

    /// Where the longest matching allow pattern and the longest matching
    /// disallow pattern have one length, the path is disallowed.
    pub proof fn lemma_tie_disallows(self, path: Seq<char>)
        requires
            first_match(self.allow, path) is Some,
            first_match(self.disallow, path) is Some,
            byte_len(first_match(self.allow, path)->0) == byte_len(
                first_match(self.disallow, path)->0,
            ),
        ensures
            !self.allows(path),
    {
    }
}

/// The length of `s` in bytes.
pub fn byte_length(s: &str) -> (n: usize)
    ensures
        n == byte_len(s@),
{
    s.as_bytes().len()
}

/// The index of the first string of `v` shorter than `n` bytes, or the length
/// of `v`.
pub fn find_shorter(v: &Vec<String>, n: usize) -> (k: usize)
    ensures
        k <= v.len(),
        k == insert_position(strings_view(v@), n as nat),
{
    let mut k: usize = 0;
    while k < v.len() && byte_length(v[k].as_str()) >= n
        invariant
            k <= v.len(),
            forall|i: int| 0 <= i < k ==> byte_len(#[trigger] v@[i]@) >= n,
        decreases v.len() - k,
    {
        k = k + 1;
    }
    proof {
        let s = strings_view(v@);
        assert forall|i: int| 0 <= i < k implies !shorter_than(n as nat)(#[trigger] s[i]) by {}
        lemma_first_index_unique(s, shorter_than(n as nat), k as int);
    }
    k
}

/// The index of the first string of `v` equal to `x`, or the length of `v`.
pub fn find_equal(v: &Vec<String>, x: &String) -> (k: usize)
    ensures
        k <= v.len(),
        k == first_index(strings_view(v@), equal_to(x@)),
{
    let mut k: usize = 0;
    while k < v.len() && v[k] != *x
        invariant
            k <= v.len(),
            forall|i: int| 0 <= i < k ==> #[trigger] v@[i]@ != x@,
        decreases v.len() - k,
    {
        k = k + 1;
    }
    proof {
        let s = strings_view(v@);
        assert forall|i: int| 0 <= i < k implies !equal_to(x@)(#[trigger] s[i]) by {}
        lemma_first_index_unique(s, equal_to(x@), k as int);
    }
    k
}

/// The index of the first pattern of `v` that matches `subject`, or the
/// length of `v`.
pub fn find_match(v: &Vec<String>, subject: &Vec<char>) -> (k: usize)
    ensures
        k <= v.len(),
        k == first_index(strings_view(v@), matching(subject@)),
{
    let mut k: usize = 0;
    while k < v.len()
        invariant
            k <= v.len(),
            forall|i: int| 0 <= i < k ==> !pattern_matches(#[trigger] v@[i]@, subject@),
        ensures
            k <= v.len(),
            forall|i: int| 0 <= i < k ==> !pattern_matches(#[trigger] v@[i]@, subject@),
            k < v.len() ==> pattern_matches(v@[k as int]@, subject@),
        decreases v.len() - k,
    {
        let p = to_chars(v[k].as_str());
        if match_chars(&p, subject) {
            break;
        }
        k = k + 1;
    }
    proof {
        let s = strings_view(v@);
        assert forall|i: int| 0 <= i < k implies !matching(subject@)(#[trigger] s[i]) by {}
        lemma_first_index_unique(s, matching(subject@), k as int);
    }
    k
}

/// Puts `x` into `v` behind every string at least as long.
pub fn insert_sorted(v: &mut Vec<String>, x: String)
    ensures
        strings_view(final(v)@) == insert_by_len(strings_view(old(v)@), x@),
{
    let n = byte_length(x.as_str());
    let k = find_shorter(v, n);
    v.insert(k, x);
}

/// The allow and disallow patterns of one agent, each list longest first.
#[derive(Debug, Clone)]
pub struct RobotsTxtRule {
    allow: Vec<String>,
    disallow: Vec<String>,
}

impl View for RobotsTxtRule {
    type V = RuleModel;

    closed spec fn view(&self) -> RuleModel {
        RuleModel { allow: strings_view(self.allow@), disallow: strings_view(self.disallow@) }
    }
}

impl Default for RobotsTxtRule {
    fn default() -> (r: RobotsTxtRule)
        ensures
            r@ == RuleModel::empty(),
            r@.wf(),
    {
        RobotsTxtRule::new()
    }
}

impl RobotsTxtRule {
    /// The rules without any pattern.
    pub fn new() -> (r: RobotsTxtRule)
        ensures
            r@ == RuleModel::empty(),
            r@.wf(),
    {
        let r = RobotsTxtRule { allow: Vec::new(), disallow: Vec::new() };
        assert(r@.allow =~= Seq::empty());
        assert(r@.disallow =~= Seq::empty());
        r
    }

    /// Adds `pattern` to the allow list, or to the disallow list where
    /// `allow` is false, at its place by length.
    pub fn add(&mut self, pattern: String, allow: bool)
        ensures
            final(self)@ == old(self)@.with(pattern@, allow),
            old(self)@.wf() ==> final(self)@.wf(),
    {
        proof {
            if self@.wf() {
                lemma_insert_keeps_sorted(self@.allow, pattern@);
                lemma_insert_keeps_sorted(self@.disallow, pattern@);
            }
        }
        if allow {
            insert_sorted(&mut self.allow, pattern);
        } else {
            insert_sorted(&mut self.disallow, pattern);
        }
    }

    /// The allow patterns, longest first.
    pub fn allow(&self) -> (r: &Vec<String>)
        ensures
            strings_view(r@) == self@.allow,
    {
        &self.allow
    }

    /// The disallow patterns, longest first.
    pub fn disallow(&self) -> (r: &Vec<String>)
        ensures
            strings_view(r@) == self@.disallow,
    {
        &self.disallow
    }

    /// Checks whether `path` is allowed by these rules. Of several allow or
    /// disallow patterns that match, the longest counts; a disallow wins
    /// against an allow of the same length. Where nothing matches, the path is
    /// allowed.
    pub fn is_allowed(&self, path: &str) -> (r: bool)
        ensures
            r == self@.allows(path@),
    {
        let subject = to_chars(path);
        self.allows_chars(&subject)
    }

    /// As `is_allowed`, for a path given by its characters.
    pub fn allows_chars(&self, path: &Vec<char>) -> (r: bool)
        ensures
            r == self@.allows(path@),
    {
        let d = find_match(&self.disallow, path);
        if d == self.disallow.len() {
            return true;
        }
        let a = find_match(&self.allow, path);
        if a == self.allow.len() {
            return false;
        }
        byte_length(self.allow[a].as_str()) > byte_length(self.disallow[d].as_str())
    }
}

} // verus!
