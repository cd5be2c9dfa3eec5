//! The rule set of a robots.txt file: parsing the text, and answering whether
//! a user agent may fetch a path.
use vstd::prelude::*;
use vstd::string::*;
use crate::chars::{string_of, to_chars};
use crate::model::{
    allow_keyword, classify, disallow_keyword, parse_model, sitemap_keyword, user_agent_keyword,
    Directive, ParseState, RobotsModel,
};
use crate::rules::{
    byte_length, find_equal, find_match, find_shorter, strings_view, RobotsTxtRule, RuleModel,
};
use crate::text::{
    has_prefix_ignore_case, line_end, split_lines, strip_prefix_spec, trim, trim_range,
};

verus! {

/// The four keywords by their characters.
struct Keywords {
    user_agent: Vec<char>,
    allow: Vec<char>,
    disallow: Vec<char>,
    sitemap: Vec<char>,
}

impl Keywords {
    spec fn wf(&self) -> bool {
        &&& self.user_agent@ == user_agent_keyword()
        &&& self.allow@ == allow_keyword()
        &&& self.disallow@ == disallow_keyword()
        &&& self.sitemap@ == sitemap_keyword()
    }

    fn new() -> (k: Keywords)
        ensures
            k.wf(),
    {
        Keywords {
            user_agent: to_chars("user-agent: "),
            allow: to_chars("allow: "),
            disallow: to_chars("disallow: "),
            sitemap: to_chars("sitemap: "),
        }
    }
}

/// A line as it was read: its keyword, and the bounds of its trimmed value in
/// the text.
enum Line {
    UserAgent(usize, usize),
    Allow(usize, usize),
    Disallow(usize, usize),
    Sitemap(usize, usize),
    Ignored,
}

impl Line {
    /// What the line says, its value taken from `text`.
    spec fn directive(self, text: Seq<char>) -> Directive {
        match self {
            Line::UserAgent(a, b) => Directive::UserAgent(text.subrange(a as int, b as int)),
            Line::Allow(a, b) => Directive::Allow(text.subrange(a as int, b as int)),
            Line::Disallow(a, b) => Directive::Disallow(text.subrange(a as int, b as int)),
            Line::Sitemap(a, b) => Directive::Sitemap(text.subrange(a as int, b as int)),
            Line::Ignored => Directive::Ignored,
        }
    }

    /// The bounds of the value lie within a text of `n` characters.
    spec fn within(self, n: int) -> bool {
        match self {
            Line::UserAgent(a, b) | Line::Allow(a, b) | Line::Disallow(a, b) | Line::Sitemap(
                a,
                b,
            ) => a <= b <= n,
            Line::Ignored => true,
        }
    }
}

/// The bounds of the trimmed value behind `keyword` in `text[from..to]`, where
/// that piece begins with the keyword.
fn value_after(text: &Vec<char>, from: usize, to: usize, keyword: &Vec<char>) -> (r: Option<
    (usize, usize),
>)
    requires
        from <= to <= text.len(),
    ensures
        match (strip_prefix_spec(text@.subrange(from as int, to as int), keyword@), r) {
            (Some(v), Some((a, b))) => a <= b <= to && text@.subrange(a as int, b as int) == trim(
                v,
            ),
            (None, None) => true,
            _ => false,
        },
{
    if has_prefix_ignore_case(text, from, to, keyword) {
        assert(text@.subrange(from as int, to as int).skip(keyword@.len() as int) =~= text@.subrange(
            from + keyword@.len(),
            to as int,
        ));
        Some(trim_range(text, from + keyword.len(), to))
    } else {
        None
    }
}

/// Reads the line `text[from..to]`.
fn read_line(text: &Vec<char>, from: usize, to: usize, keywords: &Keywords) -> (line: Line)
    requires
        from <= to <= text.len(),
        keywords.wf(),
    ensures
        line.directive(text@) == classify(text@.subrange(from as int, to as int)),
        line.within(text.len() as int),
{
    let (a, b) = trim_range(text, from, to);
    if a == b || text[a] == '#' {
        return Line::Ignored;
    }
    if let Some((x, y)) = value_after(text, a, b, &keywords.user_agent) {
        Line::UserAgent(x, y)
    } else if let Some((x, y)) = value_after(text, a, b, &keywords.allow) {
        Line::Allow(x, y)
    } else if let Some((x, y)) = value_after(text, a, b, &keywords.disallow) {
        Line::Disallow(x, y)
    } else if let Some((x, y)) = value_after(text, a, b, &keywords.sitemap) {
        Line::Sitemap(x, y)
    } else {
        Line::Ignored
    }
}

/// Represents a robots.txt file for a website: allow and disallow rules,
/// wildcards included, and sitemaps.
#[derive(Debug, Clone)]
pub struct RobotsTxt {
    /// All agent patterns, longest first.
    agents_ordered: Vec<String>,
    /// The rules of each agent pattern, at its index.
    rules: Vec<RobotsTxtRule>,
    /// The sitemaps that the file names, in its order.
    sitemaps: Vec<String>,
}

impl View for RobotsTxt {
    type V = RobotsModel;

    closed spec fn view(&self) -> RobotsModel {
        RobotsModel {
            agents: strings_view(self.agents_ordered@),
            rules: Seq::new(self.rules@.len(), |i: int| self.rules@[i]@),
            sitemaps: strings_view(self.sitemaps@),
        }
    }
}

/// The state of a reading with current agent `current` and rule set `robots`.
spec fn state_of(current: Option<String>, robots: RobotsTxt) -> ParseState {
    ParseState {
        current: match current {
            Some(agent) => Some(agent@),
            None => None,
        },
        robots: robots@,
    }
}

impl RobotsTxt {
    /// Each agent has its rules and occurs once, and agents and patterns are
    /// kept longest first.
    pub open spec fn wf(&self) -> bool {
        self@.wf()
    }

    fn empty() -> (r: RobotsTxt)
        ensures
            r@ == RobotsModel::empty(),
            r.wf(),
    {
        let r = RobotsTxt { agents_ordered: Vec::new(), rules: Vec::new(), sitemaps: Vec::new() };
        assert(r@.agents =~= Seq::empty());
        assert(r@.rules =~= Seq::empty());
        assert(r@.sitemaps =~= Seq::empty());
        r
    }

    fn add_rule(&mut self, agent: &String, pattern: String, allow: bool)
        requires
            old(self).wf(),
        ensures
            final(self)@ == old(self)@.with_rule(agent@, pattern@, allow),
            final(self).wf(),
    {
        proof {
            self@.lemma_with_rule_wf(agent@, pattern@, allow);
        }
        let i = find_equal(&self.agents_ordered, agent);
        if i < self.agents_ordered.len() {
            self.rules[i].add(pattern, allow);
            assert(self@.rules =~= old(self)@.rules.update(
                i as int,
                old(self)@.rules[i as int].with(pattern@, allow),
            ));
        } else {
            let k = find_shorter(&self.agents_ordered, byte_length(agent.as_str()));
            let mut rule = RobotsTxtRule::new();
            rule.add(pattern, allow);
            self.agents_ordered.insert(k, agent.clone());
            self.rules.insert(k, rule);
            assert(self@.agents =~= old(self)@.agents.insert(k as int, agent@));
            assert(self@.rules =~= old(self)@.rules.insert(
                k as int,
                RuleModel::empty().with(pattern@, allow),
            ));
        }
    }

    fn add_sitemap(&mut self, url: String)
        requires
            old(self).wf(),
        ensures
            final(self)@ == old(self)@.with_sitemap(url@),
            final(self).wf(),
    {
        self.sitemaps.push(url);
        assert(self@.sitemaps =~= old(self)@.sitemaps.push(url@));
    }

    /// Parses a raw robots.txt file. This cannot fail: lines that are not
    /// understood are ignored. Keywords are read without regard to case.
    pub fn parse(file: &str) -> (r: RobotsTxt)
        ensures
            r@ == parse_model(file@),
            r.wf(),
    {
        let text = to_chars(file);
        let keywords = Keywords::new();
        let n = text.len();
        let mut current: Option<String> = None;
        let mut robots = RobotsTxt::empty();
        let mut pos: usize = 0;
        assert(text@.skip(0) =~= text@);
        while pos < n
            invariant
                pos <= n,
                n == text.len(),
                text@ == file@,
                keywords.wf(),
                robots.wf(),
                state_of(current, robots).run(split_lines(text@.skip(pos as int)))
                    == ParseState::initial().run(split_lines(text@)),
            decreases n - pos,
        {
            let end = line_end(&text, pos);
            let line = read_line(&text, pos, end, &keywords);
            let next: usize = if end < n {
                end + 1
            } else {
                end
            };
            let ghost before = state_of(current, robots);
            proof {
                let rest = text@.skip(pos as int);
                let here = text@.subrange(pos as int, end as int);
                let after = text@.skip(next as int);
                if end < n {
                    assert(rest.take(end - pos) =~= here);
                    assert(rest.skip(end - pos + 1) =~= after);
                }
                assert(split_lines(rest).drop_first() =~= split_lines(after));
                before.lemma_step_wf(classify(here));
            }
            match line {
                Line::UserAgent(a, b) => {
                    current = Some(string_of(&text, a, b));
                },
                Line::Allow(a, b) => {
                    if a < b {
                        if let Some(agent) = &current {
                            robots.add_rule(agent, string_of(&text, a, b), true);
                        }
                    }
                },
                Line::Disallow(a, b) => {
                    if a < b {
                        if let Some(agent) = &current {
                            robots.add_rule(agent, string_of(&text, a, b), false);
                        }
                    }
                },
                Line::Sitemap(a, b) => {
                    if a < b {
                        robots.add_sitemap(string_of(&text, a, b));
                    }
                },
                Line::Ignored => {},
            }
            pos = next;
        }
        robots
    }

    /// The agent pattern that governs `user_agent`: the first, and so the
    /// longest, that matches it.
    pub fn find_matching_agent(&self, user_agent: &str) -> (r: Option<&str>)
        ensures
            match r {
                Some(agent) => 0 <= self@.matching_agent(user_agent@) < self@.agents.len()
                    && agent@ == self@.agents[self@.matching_agent(user_agent@)],
                None => self@.matching_agent(user_agent@) == self@.agents.len(),
            },
    {
        let subject = to_chars(user_agent);
        let i = find_match(&self.agents_ordered, &subject);
        if i < self.agents_ordered.len() {
            Some(self.agents_ordered[i].as_str())
        } else {
            None
        }
    }

    /// The rules that govern `user_agent`, if any agent pattern matches it.
    pub fn get_agent_rules(&self, user_agent: &str) -> (r: Option<&RobotsTxtRule>)
        ensures
            match r {
                Some(rule) => 0 <= self@.matching_agent(user_agent@) < self@.rules.len()
                    && rule@ == self@.rules[self@.matching_agent(user_agent@)],
                None => self@.matching_agent(user_agent@) >= self@.rules.len(),
            },
    {
        let subject = to_chars(user_agent);
        let i = find_match(&self.agents_ordered, &subject);
        if i < self.rules.len() {
            Some(&self.rules[i])
        } else {
            None
        }
    }

    /// Whether `user_agent` may fetch `path`. The longest agent pattern that
    /// matches `user_agent` governs it; where none matches, everything is
    /// allowed.
    pub fn is_allowed(&self, user_agent: &str, path: &str) -> (r: bool)
        ensures
            r == self@.allows(user_agent@, path@),
    {
        match self.get_agent_rules(user_agent) {
            Some(rules) => rules.is_allowed(path),
            None => true,
        }
    }

    /// The rules recorded under the agent pattern `agent` itself.
    pub fn rules_of(&self, agent: &str) -> (r: Option<&RobotsTxtRule>)
        ensures
            match r {
                Some(rule) => 0 <= self@.agent_index(agent@) < self@.rules.len() && rule@
                    == self@.rules[self@.agent_index(agent@)],
                None => self@.agent_index(agent@) >= self@.rules.len(),
            },
    {
        let key = String::from_str(agent);
        let i = find_equal(&self.agents_ordered, &key);
        if i < self.rules.len() {
            Some(&self.rules[i])
        } else {
            None
        }
    }

    /// All agent patterns, longest first.
    pub fn agents_ordered(&self) -> (r: &Vec<String>)
        ensures
            strings_view(r@) == self@.agents,
    {
        &self.agents_ordered
    }

    /// The sitemaps that the file names, in its order, duplicates included.
    pub fn sitemaps(&self) -> (r: &Vec<String>)
        ensures
            strings_view(r@) == self@.sitemaps,
    {
        &self.sitemaps
    }
}

} // verus!
