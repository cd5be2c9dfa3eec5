//! What a robots.txt file means: how its lines are read, the rule set that
//! they build, and what that rule set allows.
use vstd::prelude::*;
use crate::chars::{ascii_lower, eq_ignore_ascii_case};
use crate::pattern::pattern_matches;
use crate::rules::{
    byte_len, equal_to, insert_all, insert_by_len, insert_position, lemma_insert_keeps_sorted,
    matching, sort_by_len, sorted_by_len, RuleModel,
};
use crate::text::{
    first_index, lemma_first_index_holds, lemma_first_index_unique, split_lines,
    strip_prefix_spec, trim,
};

verus! {

/// The keyword that opens the rules of an agent.
pub open spec fn user_agent_keyword() -> Seq<char> {
    "user-agent: "@
}

/// The keyword of an allow rule.
pub open spec fn allow_keyword() -> Seq<char> {
    "allow: "@
}

/// The keyword of a disallow rule.
pub open spec fn disallow_keyword() -> Seq<char> {
    "disallow: "@
}

/// The keyword of a sitemap.
pub open spec fn sitemap_keyword() -> Seq<char> {
    "sitemap: "@
}

/// What one line of a robots.txt file says.
pub enum Directive {
    UserAgent(Seq<char>),
    Allow(Seq<char>),
    Disallow(Seq<char>),
    Sitemap(Seq<char>),
    Ignored,
}

/// Reads a line that is already trimmed. Blank lines, comments and lines
/// that begin with none of the four keywords are ignored; the keyword is read
/// without regard to ASCII case, and the value behind it is trimmed and
/// otherwise kept as it is.
pub open spec fn directive_of(t: Seq<char>) -> Directive {
    if t.len() == 0 || t[0] == '#' {
        Directive::Ignored
    } else if let Some(v) = strip_prefix_spec(t, user_agent_keyword()) {
        Directive::UserAgent(trim(v))
    } else if let Some(v) = strip_prefix_spec(t, allow_keyword()) {
        Directive::Allow(trim(v))
    } else if let Some(v) = strip_prefix_spec(t, disallow_keyword()) {
        Directive::Disallow(trim(v))
    } else if let Some(v) = strip_prefix_spec(t, sitemap_keyword()) {
        Directive::Sitemap(trim(v))
    } else {
        Directive::Ignored
    }
}

/// Reads one line: what it says once the whitespace around it is gone.
pub open spec fn classify(line: Seq<char>) -> Directive {
    directive_of(trim(line))
}

/// A keyword is recognised in any mix of capitals and small letters, and
/// the value behind it is not folded: whatever the case of `head`, a trimmed
/// line made of `head` and `value` is read as the directive of the keyword
/// that `head` spells, with `value`, trimmed, as it stands.
pub proof fn lemma_keyword_in_any_case(head: Seq<char>, value: Seq<char>)
    ensures
        eq_ignore_ascii_case(head, user_agent_keyword()) ==> directive_of(head + value)
            == Directive::UserAgent(trim(value)),
        eq_ignore_ascii_case(head, allow_keyword()) ==> directive_of(head + value)
            == Directive::Allow(trim(value)),
        eq_ignore_ascii_case(head, disallow_keyword()) ==> directive_of(head + value)
            == Directive::Disallow(trim(value)),
        eq_ignore_ascii_case(head, sitemap_keyword()) ==> directive_of(head + value)
            == Directive::Sitemap(trim(value)),
{
    reveal_strlit("user-agent: ");
    reveal_strlit("allow: ");
    reveal_strlit("disallow: ");
    reveal_strlit("sitemap: ");
    let t = head + value;
    let k = head.len() as int;
    assert(t.take(k) =~= head);
    assert(t.skip(k) =~= value);
    if k > 0 {
        assert(t[0] == head[0]);
        assert(ascii_lower(head[0]) == ascii_lower(t[0]));
        if t.len() >= 12 {
            assert(t.take(12)[0] == t[0]);
        }
        if t.len() >= 7 {
            assert(t.take(7)[0] == t[0]);
        }
        if t.len() >= 10 {
            assert(t.take(10)[0] == t[0]);
        }
        if t.len() >= 9 {
            assert(t.take(9)[0] == t[0]);
        }
    }
}

/// A parsed robots.txt file: the agent patterns, longest first, the rules of
/// each at the same index, and the sitemaps in the order of the text.
pub struct RobotsModel {
    pub agents: Seq<Seq<char>>,
    pub rules: Seq<RuleModel>,
    pub sitemaps: Seq<Seq<char>>,
}

impl RobotsModel {
    /// The rule set of an empty file.
    pub open spec fn empty() -> RobotsModel {
        RobotsModel { agents: Seq::empty(), rules: Seq::empty(), sitemaps: Seq::empty() }
    }

    /// Each agent has its rules and occurs once, and agents and patterns are
    /// kept longest first.
    pub open spec fn wf(self) -> bool {
        &&& self.agents.len() == self.rules.len()
        &&& self.agents.no_duplicates()
        &&& sorted_by_len(self.agents)
        &&& forall|i: int| 0 <= i < self.rules.len() ==> (#[trigger] self.rules[i]).wf()
    }

    /// The index of the agent pattern `agent`, or the number of agents where
    /// it has no rules yet.
    pub open spec fn agent_index(self, agent: Seq<char>) -> int {
        first_index(self.agents, equal_to(agent))
    }

    /// The rule set with `pattern` added to the rules of `agent`, which enters
    /// the agents at its place by length where it is new.
    pub open spec fn with_rule(self, agent: Seq<char>, pattern: Seq<char>, allow: bool)
        -> RobotsModel {
        let i = self.agent_index(agent);
        if 0 <= i < self.agents.len() {
            RobotsModel {
                agents: self.agents,
                rules: self.rules.update(i, self.rules[i].with(pattern, allow)),
                sitemaps: self.sitemaps,
            }
        } else {
            let k = insert_position(self.agents, byte_len(agent));
            RobotsModel {
                agents: self.agents.insert(k, agent),
                rules: self.rules.insert(k, RuleModel::empty().with(pattern, allow)),
                sitemaps: self.sitemaps,
            }
        }
    }

    /// The rule set with one more sitemap.
    pub open spec fn with_sitemap(self, url: Seq<char>) -> RobotsModel {
        RobotsModel { agents: self.agents, rules: self.rules, sitemaps: self.sitemaps.push(url) }
    }

    /// The index of the first, and so longest, agent pattern that matches
    /// `user_agent`, or the number of agents where none does.
    pub open spec fn matching_agent(self, user_agent: Seq<char>) -> int {
        first_index(self.agents, matching(user_agent))
    }

    /// Whether `user_agent` may fetch `path`: as the rules of the agent
    /// pattern that governs it say, and in any case where none governs it.
    pub open spec fn allows(self, user_agent: Seq<char>, path: Seq<char>) -> bool {
        let i = self.matching_agent(user_agent);
        0 <= i < self.rules.len() ==> self.rules[i].allows(path)
    }

    /// The rule set as a mapping from agent pattern to rules.
    pub open spec fn as_map(self) -> Map<Seq<char>, RuleModel> {
        Map::new(
            |agent: Seq<char>| self.agents.contains(agent),
            |agent: Seq<char>| self.rules[self.agent_index(agent)],
        )
    }

    /// The rules recorded for `agent`, and the empty rules where it has none.
    pub open spec fn rules_or_empty(self, agent: Seq<char>) -> RuleModel {
        if self.as_map().contains_key(agent) {
            self.as_map()[agent]
        } else {
            RuleModel::empty()
        }
    }

    /// The index of an agent is where it stands, and the number of agents
    /// where it stands nowhere.
    pub proof fn lemma_agent_index(self, agent: Seq<char>)
        ensures
            0 <= self.agent_index(agent) <= self.agents.len(),
            self.agents.contains(agent) <==> self.agent_index(agent) < self.agents.len(),
            self.agents.contains(agent) ==> self.agents[self.agent_index(agent)] == agent,
            forall|j: int| 0 <= j < self.agent_index(agent) ==> self.agents[j] != agent,
    {
        lemma_first_index_holds(self.agents, equal_to(agent));
        let i = self.agent_index(agent);
        if self.agents.contains(agent) {
            let j = choose|j: int| 0 <= j < self.agents.len() && self.agents[j] == agent;
            if i > j {
                assert(!equal_to(agent)(self.agents[j]));
            }
            assert(equal_to(agent)(self.agents[i]));
        } else if i < self.agents.len() {
            assert(equal_to(agent)(self.agents[i]));
        }
        assert forall|j: int| 0 <= j < i implies self.agents[j] != agent by {
            assert(!equal_to(agent)(self.agents[j]));
        }
    }

    /// Seen as a mapping, adding a rule changes the entry of its agent and no
    /// other: the agent's rules, or the empty rules where it had none, gain
    /// the pattern.
    pub proof fn lemma_with_rule_as_map(self, agent: Seq<char>, pattern: Seq<char>, allow: bool)
        requires
            self.wf(),
        ensures
            self.with_rule(agent, pattern, allow).as_map() == self.as_map().insert(
                agent,
                (if self.as_map().contains_key(agent) {
                    self.as_map()[agent]
                } else {
                    RuleModel::empty()
                }).with(pattern, allow),
            ),
    {
        let next = self.with_rule(agent, pattern, allow);
        let i = self.agent_index(agent);
        let k = insert_position(self.agents, byte_len(agent));
        self.lemma_agent_index(agent);
        self.lemma_with_rule_wf(agent, pattern, allow);
        let old_rules = if self.as_map().contains_key(agent) {
            self.as_map()[agent]
        } else {
            RuleModel::empty()
        };
        let expected = self.as_map().insert(agent, old_rules.with(pattern, allow));
        assert forall|b: Seq<char>| next.as_map().contains_key(b) <==> expected.contains_key(
            b,
        ) by {
            if i < self.agents.len() {
            } else {
                if next.agents.contains(b) {
                    let j = choose|j: int| 0 <= j < next.agents.len() && next.agents[j] == b;
                    if j < k {
                        assert(self.agents[j] == b);
                    } else if j > k {
                        assert(self.agents[j - 1] == b);
                    }
                }
                if b == agent {
                    assert(next.agents[k] == b);
                }
                if self.agents.contains(b) {
                    let j = choose|j: int| 0 <= j < self.agents.len() && self.agents[j] == b;
                    if j < k {
                        assert(next.agents[j] == b);
                    } else {
                        assert(next.agents[j + 1] == b);
                    }
                }
            }
        }
        assert forall|b: Seq<char>| next.as_map().contains_key(b) implies next.as_map()[b]
            == expected[b] by {
            self.lemma_agent_index(b);
            next.lemma_agent_index(b);
            let j = self.agent_index(b);
            if i < self.agents.len() {
            } else if b == agent {
                assert forall|t: int| 0 <= t < k implies !equal_to(b)(#[trigger] next.agents[t]) by {
                    assert(next.agents[t] == self.agents[t]);
                }
                assert(equal_to(b)(next.agents[k]));
                lemma_first_index_unique(next.agents, equal_to(b), k);
            } else {
                let place = if j < k {
                    j
                } else {
                    j + 1
                };
                assert forall|t: int| 0 <= t < place implies !equal_to(b)(
                    #[trigger] next.agents[t],
                ) by {
                    if t < k {
                        assert(next.agents[t] == self.agents[t]);
                    } else if t > k {
                        assert(next.agents[t] == self.agents[t - 1]);
                    }
                }
                assert(next.agents[place] == self.agents[j]);
                assert(equal_to(b)(next.agents[place]));
                lemma_first_index_unique(next.agents, equal_to(b), place);
            }
        }
        assert(next.as_map() =~= expected);
    }

    /// A user agent that no agent pattern matches may fetch every path,
    /// whatever the rules of the other agents say.
    pub proof fn lemma_unmatched_agent_allowed(self, user_agent: Seq<char>, path: Seq<char>)
        requires
            self.agents.len() == self.rules.len(),
            forall|i: int|
                0 <= i < self.agents.len() ==> !pattern_matches(#[trigger] self.agents[i], user_agent),
        ensures
            self.allows(user_agent, path),
    {
        assert forall|i: int| 0 <= i < self.agents.len() implies !matching(user_agent)(
            #[trigger] self.agents[i],
        ) by {
            assert(!pattern_matches(self.agents[i], user_agent));
        }
        lemma_first_index_unique(self.agents, matching(user_agent), self.agents.len() as int);
    }

    /// The agent pattern that governs a user agent matches it, and is a
    /// longest among those that do.
    pub proof fn lemma_governing_agent_is_longest(self, user_agent: Seq<char>, j: int)
        requires
            self.wf(),
            0 <= j < self.agents.len(),
            pattern_matches(self.agents[j], user_agent),
        ensures
            0 <= self.matching_agent(user_agent) < self.agents.len(),
            pattern_matches(self.agents[self.matching_agent(user_agent)], user_agent),
            byte_len(self.agents[self.matching_agent(user_agent)]) >= byte_len(self.agents[j]),
    {
        lemma_first_index_holds(self.agents, matching(user_agent));
        let k = self.matching_agent(user_agent);
        if k > j {
            assert(!matching(user_agent)(self.agents[j]));
        }
    }

    /// Adding a rule keeps a rule set well formed.
    pub proof fn lemma_with_rule_wf(self, agent: Seq<char>, pattern: Seq<char>, allow: bool)
        requires
            self.wf(),
        ensures
            self.with_rule(agent, pattern, allow).wf(),
            0 <= self.agent_index(agent) <= self.agents.len(),
            0 <= insert_position(self.agents, byte_len(agent)) <= self.agents.len(),
    {
        let i = self.agent_index(agent);
        let next = self.with_rule(agent, pattern, allow);
        lemma_first_index_holds(self.agents, equal_to(agent));
        lemma_insert_keeps_sorted(self.agents, agent);
        let fresh = RuleModel::empty().with(pattern, allow);
        lemma_insert_keeps_sorted(Seq::empty(), pattern);
        assert(fresh.wf());
        if i < self.agents.len() {
            assert(self.rules[i].wf());
            lemma_insert_keeps_sorted(self.rules[i].allow, pattern);
            lemma_insert_keeps_sorted(self.rules[i].disallow, pattern);
            assert forall|j: int| 0 <= j < next.rules.len() implies (#[trigger] next.rules[j]).wf() by {
                if j != i {
                    assert(next.rules[j] == self.rules[j]);
                }
            }
        } else {
            let k = insert_position(self.agents, byte_len(agent));
            assert forall|j: int| 0 <= j < next.rules.len() implies (#[trigger] next.rules[j]).wf() by {
                if j < k {
                    assert(next.rules[j] == self.rules[j]);
                } else if j > k {
                    assert(next.rules[j] == self.rules[j - 1]);
                }
            }
            assert forall|a: int, b: int|
                0 <= a < next.agents.len() && 0 <= b < next.agents.len() && a != b implies next.agents[a]
                != next.agents[b] by {
                let oa = if a < k { a } else { a - 1 };
                let ob = if b < k { b } else { b - 1 };
                if a == k {
                    assert(next.agents[b] == self.agents[ob]);
                    assert(!equal_to(agent)(self.agents[ob]));
                } else if b == k {
                    assert(next.agents[a] == self.agents[oa]);
                    assert(!equal_to(agent)(self.agents[oa]));
                } else {
                    assert(next.agents[a] == self.agents[oa]);
                    assert(next.agents[b] == self.agents[ob]);
                }
            }
        }
    }
}

/// Where the reading of a file stands: the agent that the next rules belong
/// to, if one was named, and what has been gathered.
pub struct ParseState {
    pub current: Option<Seq<char>>,
    pub robots: RobotsModel,
}

impl ParseState {
    /// The state before the first line.
    pub open spec fn initial() -> ParseState {
        ParseState { current: None, robots: RobotsModel::empty() }
    }

    /// The state with `pattern` added to the rules of the current agent. A
    /// rule before any agent is named, and one with an empty pattern, is dropped.
    pub open spec fn with_rule(self, pattern: Seq<char>, allow: bool) -> ParseState {
        match self.current {
            Some(agent) if pattern.len() > 0 => ParseState {
                current: self.current,
                robots: self.robots.with_rule(agent, pattern, allow),
            },
            _ => self,
        }
    }

    /// The state after one more line.
    pub open spec fn step(self, d: Directive) -> ParseState {
        match d {
            Directive::UserAgent(agent) => ParseState { current: Some(agent), robots: self.robots },
            Directive::Allow(pattern) => self.with_rule(pattern, true),
            Directive::Disallow(pattern) => self.with_rule(pattern, false),
            Directive::Sitemap(url) => if url.len() > 0 {
                ParseState { current: self.current, robots: self.robots.with_sitemap(url) }
            } else {
                self
            },
            Directive::Ignored => self,
        }
    }

    /// The state after `lines`, read in order.
    pub open spec fn run(self, lines: Seq<Seq<char>>) -> ParseState
        decreases lines.len(),
    {
        if lines.len() == 0 {
            self
        } else {
            self.step(classify(lines[0])).run(lines.drop_first())
        }
    }

    /// A step keeps the rule set well formed.
    pub proof fn lemma_step_wf(self, d: Directive)
        requires
            self.robots.wf(),
        ensures
            self.step(d).robots.wf(),
    {
        match d {
            Directive::Allow(pattern) => {
                if let Some(agent) = self.current {
                    self.robots.lemma_with_rule_wf(agent, pattern, true);
                }
            },
            Directive::Disallow(pattern) => {
                if let Some(agent) = self.current {
                    self.robots.lemma_with_rule_wf(agent, pattern, false);
                }
            },
            _ => {},
        }
    }
}

/// The rule set that `text` describes.
pub open spec fn parse_model(text: Seq<char>) -> RobotsModel {
    ParseState::initial().run(split_lines(text)).robots
}

/// The sitemaps that `lines` name, in order.
pub open spec fn sitemaps_of(lines: Seq<Seq<char>>) -> Seq<Seq<char>>
    decreases lines.len(),
{
    if lines.len() == 0 {
        Seq::empty()
    } else {
        let rest = sitemaps_of(lines.drop_first());
        match classify(lines[0]) {
            Directive::Sitemap(url) if url.len() > 0 => seq![url] + rest,
            _ => rest,
        }
    }
}

impl ParseState {
    /// Reading lines keeps the rule set well formed.
    pub proof fn lemma_run_wf(self, lines: Seq<Seq<char>>)
        requires
            self.robots.wf(),
        ensures
            self.run(lines).robots.wf(),
        decreases lines.len(),
    {
        if lines.len() > 0 {
            self.lemma_step_wf(classify(lines[0]));
            self.step(classify(lines[0])).lemma_run_wf(lines.drop_first());
        }
    }

    /// Reading lines adds their sitemaps, in order, to those gathered before.
    pub proof fn lemma_run_sitemaps(self, lines: Seq<Seq<char>>)
        ensures
            self.run(lines).robots.sitemaps == self.robots.sitemaps + sitemaps_of(lines),
        decreases lines.len(),
    {
        if lines.len() == 0 {
            assert(self.robots.sitemaps + sitemaps_of(lines) =~= self.robots.sitemaps);
        } else {
            let next = self.step(classify(lines[0]));
            next.lemma_run_sitemaps(lines.drop_first());
            assert(next.robots.sitemaps + sitemaps_of(lines.drop_first())
                =~= self.robots.sitemaps + sitemaps_of(lines));
        }
    }

    /// While no line names an agent, no rule is recorded.
    pub proof fn lemma_run_without_agent(self, lines: Seq<Seq<char>>)
        requires
            self.current is None,
            self.robots.agents.len() == 0,
            self.robots.rules.len() == 0,
            forall|i: int| 0 <= i < lines.len() ==> !(classify(#[trigger] lines[i]) is UserAgent),
        ensures
            self.run(lines).robots.agents.len() == 0,
            self.run(lines).robots.rules.len() == 0,
        decreases lines.len(),
    {
        if lines.len() > 0 {
            let rest = lines.drop_first();
            assert(!(classify(lines[0]) is UserAgent));
            assert forall|i: int| 0 <= i < rest.len() implies !(classify(#[trigger] rest[i])
                is UserAgent) by {
                assert(rest[i] == lines[i + 1]);
            }
            self.step(classify(lines[0])).lemma_run_without_agent(rest);
        }
    }
}

/// The agent that rules belong to after a line that says `d`, `current`
/// being the agent before it.
pub open spec fn agent_after(current: Option<Seq<char>>, d: Directive) -> Option<Seq<char>> {
    match d {
        Directive::UserAgent(agent) => Some(agent),
        _ => current,
    }
}

/// What a line that says `d` adds to the allow list of `agent`, or to its
/// disallow list where `allow` is false, `current` being the agent before
/// that line: the pattern, or nothing.
pub open spec fn added(d: Directive, current: Option<Seq<char>>, agent: Seq<char>, allow: bool)
    -> Seq<Seq<char>> {
    match d {
        Directive::Allow(pattern) if allow && current == Some(agent) && pattern.len() > 0 => seq![
            pattern,
        ],
        Directive::Disallow(pattern) if !allow && current == Some(agent) && pattern.len()
            > 0 => seq![pattern],
        _ => Seq::empty(),
    }
}

/// The patterns that `lines` add to the allow list of `agent`, or to its
/// disallow list where `allow` is false, in the order of the lines.
pub open spec fn collected(
    current: Option<Seq<char>>,
    lines: Seq<Seq<char>>,
    agent: Seq<char>,
    allow: bool,
) -> Seq<Seq<char>>
    decreases lines.len(),
{
    if lines.len() == 0 {
        Seq::empty()
    } else {
        let d = classify(lines[0]);
        added(d, current, agent, allow) + collected(
            agent_after(current, d),
            lines.drop_first(),
            agent,
            allow,
        )
    }
}

impl ParseState {
    /// What one line does to the rules of `agent`: its lists gain what the
    /// line adds to them, and it is recorded from the first pattern on.
    pub proof fn lemma_step_rules(self, d: Directive, agent: Seq<char>, allow: bool)
        requires
            self.robots.wf(),
        ensures
            self.step(d).current == agent_after(self.current, d),
            self.step(d).robots.rules_or_empty(agent).list(allow) == insert_all(
                self.robots.rules_or_empty(agent).list(allow),
                added(d, self.current, agent, allow),
            ),
            self.step(d).robots.as_map().contains_key(agent) <==> self.robots.as_map().contains_key(
                agent,
            ) || added(d, self.current, agent, true).len() > 0 || added(
                d,
                self.current,
                agent,
                false,
            ).len() > 0,
    {
        let before = self.robots.rules_or_empty(agent).list(allow);
        let gain = added(d, self.current, agent, allow);
        if gain.len() > 0 {
            assert(insert_all(insert_by_len(before, gain[0]), gain.drop_first()) == insert_by_len(
                before,
                gain[0],
            ));
        }
        match (d, self.current) {
            (Directive::Allow(pattern), Some(current)) => {
                if pattern.len() > 0 {
                    self.robots.lemma_with_rule_as_map(current, pattern, true);
                }
            },
            (Directive::Disallow(pattern), Some(current)) => {
                if pattern.len() > 0 {
                    self.robots.lemma_with_rule_as_map(current, pattern, false);
                }
            },
            _ => {},
        }
    }

    /// What lines do to the rules of `agent`: its lists gain the patterns
    /// that the lines add to them, in the order of the lines, and it is
    /// recorded exactly if it was before or gains a pattern.
    pub proof fn lemma_run_rules(self, lines: Seq<Seq<char>>, agent: Seq<char>, allow: bool)
        requires
            self.robots.wf(),
        ensures
            self.run(lines).robots.rules_or_empty(agent).list(allow) == insert_all(
                self.robots.rules_or_empty(agent).list(allow),
                collected(self.current, lines, agent, allow),
            ),
            self.run(lines).robots.as_map().contains_key(agent) <==> self.robots.as_map().contains_key(
                agent,
            ) || collected(self.current, lines, agent, true).len() > 0 || collected(
                self.current,
                lines,
                agent,
                false,
            ).len() > 0,
        decreases lines.len(),
    {
        if lines.len() > 0 {
            let d = classify(lines[0]);
            let next = self.step(d);
            self.lemma_step_wf(d);
            self.lemma_step_rules(d, agent, allow);
            next.lemma_run_rules(lines.drop_first(), agent, allow);
            let before = self.robots.rules_or_empty(agent).list(allow);
            let gain = added(d, self.current, agent, allow);
            let rest = collected(next.current, lines.drop_first(), agent, allow);
            if gain.len() > 0 {
                assert((gain + rest).drop_first() =~= rest);
                assert(insert_all(insert_by_len(before, gain[0]), gain.drop_first())
                    == insert_by_len(before, gain[0]));
            }
        }
    }
}

/// The rules of an agent are what the text gives it, sorted: each of its two
/// lists holds the patterns that the lines add to it, longest first and
/// patterns of one length in the order of the text. An agent is recorded
/// exactly if some line adds a pattern to one of its lists.
pub proof fn lemma_rules_are_sorted_collections(text: Seq<char>, agent: Seq<char>, allow: bool)
    ensures
        parse_model(text).rules_or_empty(agent).list(allow) == sort_by_len(
            collected(None, split_lines(text), agent, allow),
        ),
        parse_model(text).agents.contains(agent) <==> collected(
            None,
            split_lines(text),
            agent,
            true,
        ).len() > 0 || collected(None, split_lines(text), agent, false).len() > 0,
{
    ParseState::initial().lemma_run_rules(split_lines(text), agent, allow);
}

/// Every text gives a well-formed rule set.
pub proof fn lemma_parse_model_wf(text: Seq<char>)
    ensures
        parse_model(text).wf(),
{
    ParseState::initial().lemma_run_wf(split_lines(text));
}

/// The sitemaps of a text are those that its lines name, in order, whatever
/// agents and rules stand around them.
pub proof fn lemma_sitemaps_always_collected(text: Seq<char>)
    ensures
        parse_model(text).sitemaps == sitemaps_of(split_lines(text)),
{
    ParseState::initial().lemma_run_sitemaps(split_lines(text));
    assert(Seq::<Seq<char>>::empty() + sitemaps_of(split_lines(text)) =~= sitemaps_of(
        split_lines(text),
    ));
}

/// A text in which no line names an agent gives no agents and no rules: its
/// allow and disallow lines are dropped. Its sitemaps are collected all the
/// same.
pub proof fn lemma_no_user_agent_no_rules(text: Seq<char>)
    requires
        forall|i: int|
            0 <= i < split_lines(text).len() ==> !(classify(#[trigger] split_lines(text)[i])
                is UserAgent),
    ensures
        parse_model(text).agents.len() == 0,
        parse_model(text).rules.len() == 0,
        parse_model(text).sitemaps == sitemaps_of(split_lines(text)),
{
    ParseState::initial().lemma_run_without_agent(split_lines(text));
    lemma_sitemaps_always_collected(text);
}

} // verus!
