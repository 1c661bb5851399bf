use crate::domain::Domain;
use crate::matchers::{Any, Matcher, QType, Question};
use vstd::prelude::*;

verus! {

/// What a branch of a rule does before moving to its next tag.
pub enum Action {
    /// No effect.
    Skip,
    /// Send the query to the named upstream and keep its answer.
    Query(String),
}

/// A rule as the table's validation sees it: its tag, its two next tags and
/// the upstreams its actions may use.
pub struct RuleView {
    pub tag: Seq<char>,
    pub on_next: Seq<char>,
    pub no_next: Seq<char>,
    pub upstreams: Set<Seq<char>>,
}

impl Action {
    /// The upstream names this action may use.
    pub open spec fn upstreams(&self) -> Set<Seq<char>> {
        match self {
            Action::Skip => Set::empty(),
            Action::Query(u) => set![u@],
        }
    }

    pub fn query(upstream: String) -> (r: Action)
        ensures
            r == Action::Query(upstream),
    {
        Action::Query(upstream)
    }

    pub fn skip() -> (r: Action)
        ensures
            r == Action::Skip,
    {
        Action::Skip
    }

    /// The upstream names this action may use, as a list.
    pub fn used_upstreams(&self) -> (r: Vec<String>)
        ensures
            r@.len() <= 1,
            forall|i: int| 0 <= i < r@.len() ==> self.upstreams().contains(#[trigger] r@[i]@),
            forall|u: Seq<char>| #[trigger] self.upstreams().contains(u) ==> exists|i: int|
                0 <= i < r@.len() && r@[i]@ == u,
    {
        match self {
            Action::Skip => Vec::new(),
            Action::Query(u) => {
                let mut v: Vec<String> = Vec::new();
                v.push(u.clone());
                assert(v@[0]@ == u@);
                v
            },
        }
    }
}

} // verus!

verus! {

/// The matcher a rule consults.
pub enum RuleMatcher {
    Any(Any),
    Domain(Domain),
    QType(QType),
}

impl RuleMatcher {
    pub open spec fn accepts(&self, queries: Seq<Question>) -> bool {
        match self {
            RuleMatcher::Any(m) => m.accepts(queries),
            RuleMatcher::Domain(m) => m.accepts(queries),
            RuleMatcher::QType(m) => m.accepts(queries),
        }
    }

    pub fn matches(&self, queries: &[Question]) -> (r: bool)
        requires
            queries@.len() > 0,
        ensures
            r == self.accepts(queries@),
    {
        match self {
            RuleMatcher::Any(m) => m.matches(queries),
            RuleMatcher::Domain(m) => m.matches(queries),
            RuleMatcher::QType(m) => m.matches(queries),
        }
    }
}

/// One node of the routing graph: a tag, a matcher, and for each outcome
/// of the matcher an action and the tag to go on with.
pub struct Rule {
    pub tag: String,
    pub matcher: RuleMatcher,
    pub on_match: (Action, String),
    pub no_match: (Action, String),
}

impl Rule {
    pub open spec fn view(&self) -> RuleView {
        RuleView {
            tag: self.tag@,
            on_next: self.on_match.1@,
            no_next: self.no_match.1@,
            upstreams: self.on_match.0.upstreams().union(self.no_match.0.upstreams()),
        }
    }

    pub fn new(
        tag: String,
        matcher: RuleMatcher,
        on_match: (Action, String),
        no_match: (Action, String),
    ) -> (r: Rule)
        ensures
            r.tag == tag,
            r.matcher == matcher,
            r.on_match == on_match,
            r.no_match == no_match,
    {
        Rule { tag, matcher, on_match, no_match }
    }

    pub fn tag(&self) -> (r: &String)
        ensures
            r == &self.tag,
    {
        &self.tag
    }

    pub fn on_match_next(&self) -> (r: &String)
        ensures
            r == &self.on_match.1,
    {
        &self.on_match.1
    }

    pub fn no_match_next(&self) -> (r: &String)
        ensures
            r == &self.no_match.1,
    {
        &self.no_match.1
    }

    /// One step of routing: consult the matcher, then hand back the action
    /// to perform and the tag to go on with.
    pub fn route(&self, queries: &[Question]) -> (r: (&Action, &String))
        requires
            queries@.len() > 0,
        ensures
            self.matcher.accepts(queries@) ==> r == (&self.on_match.0, &self.on_match.1),
            !self.matcher.accepts(queries@) ==> r == (&self.no_match.0, &self.no_match.1),
    {
        if self.matcher.matches(queries) {
            (&self.on_match.0, &self.on_match.1)
        } else {
            (&self.no_match.0, &self.no_match.1)
        }
    }
}

} // verus!
