use crate::collections::{
    index_entries, index_get, index_insert, new_index, new_set, set_contains, set_insert, set_members,
};
use crate::laws::{lemma_validated_is_closed, reachable};
use crate::matchers::{MatchError, Question};
use crate::rule::{Action, Rule, RuleView};
use vstd::prelude::*;

verus! {

/// The reason an upstream could not answer.
pub enum ActionError {
    /// No upstream of that name is configured.
    UpstreamNotFound(String),
    /// The upstream failed to answer; the message says why.
    Upstream(String),
}

/// Errors of the routing table.
pub enum TableError {
    /// Errors related to matchers.
    MatchError(MatchError),
    /// Errors related to actions.
    ActionError(ActionError),
    /// A depth-first walk from `start` reached this tag a second time.
    RuleRecursion(String),
    /// A rule with this tag is named but not defined.
    UndefinedTag(String),
    /// Several rules carry this tag.
    MultipleDef(String),
}

/// The outcome of validating a rule set, or a part of it.
pub enum Walk {
    /// The walk finished, with the tags visited and the upstreams used.
    Done(Set<Seq<char>>, Set<Seq<char>>),
    Recursion(Seq<char>),
    Undefined(Seq<char>),
    MultipleDef(Seq<char>),
    /// The walk was cut short; never the case with enough fuel.
    Exhausted,
}

pub open spec fn start_tag() -> Seq<char> {
    "start"@
}

pub open spec fn end_tag() -> Seq<char> {
    "end"@
}

/// The depth-first validation from `tag`, with `visited` the tags seen so
/// far (shared across branches, never cleared) and `used` the upstreams
/// gathered so far.
pub open spec fn walk(
    m: Map<Seq<char>, RuleView>,
    visited: Set<Seq<char>>,
    used: Set<Seq<char>>,
    tag: Seq<char>,
    fuel: nat,
) -> Walk
    decreases fuel,
{
    if fuel == 0 {
        Walk::Exhausted
    } else if !m.contains_key(tag) {
        Walk::Undefined(tag)
    } else if visited.contains(tag) {
        Walk::Recursion(tag)
    } else {
        let r = m[tag];
        let v0 = visited.insert(tag);
        let first = if r.on_next == end_tag() {
            Walk::Done(v0, used)
        } else {
            walk(m, v0, used, r.on_next, (fuel - 1) as nat)
        };
        match first {
            Walk::Done(v1, u1) => {
                let second = if r.no_next == end_tag() {
                    Walk::Done(v1, u1)
                } else {
                    walk(m, v1, u1, r.no_next, (fuel - 1) as nat)
                };
                match second {
                    Walk::Done(v2, u2) => Walk::Done(v2, u2.union(r.upstreams)),
                    other => other,
                }
            },
            other => other,
        }
    }
}

/// The validation of a rule map from `start`, with fuel enough for every tag.
pub open spec fn validate(m: Map<Seq<char>, RuleView>) -> Walk {
    walk(m, Set::empty(), Set::empty(), start_tag(), m.dom().len() + 1)
}

/// Rule `i` repeats the tag of an earlier rule.
pub open spec fn dup_at(rs: Seq<RuleView>, i: int) -> bool {
    exists|j: int| 0 <= j < i && rs[j].tag == #[trigger] rs[i].tag
}

/// Rule `i` is the first rule that repeats an earlier tag.
pub open spec fn first_dup(rs: Seq<RuleView>, i: int) -> bool {
    0 <= i < rs.len() && dup_at(rs, i) && forall|k: int| 0 <= k < i ==> !dup_at(rs, k)
}

/// The rules keyed by their tags.
pub open spec fn tag_map(rs: Seq<RuleView>) -> Map<Seq<char>, RuleView> {
    Map::new(
        |t: Seq<char>| exists|i: int| 0 <= i < rs.len() && rs[i].tag == t,
        |t: Seq<char>| rs[choose|i: int| 0 <= i < rs.len() && rs[i].tag == t],
    )
}

/// What building a table from these rules yields.
pub open spec fn build(rs: Seq<RuleView>) -> Walk {
    if exists|i: int| first_dup(rs, i) {
        Walk::MultipleDef(rs[choose|i: int| first_dup(rs, i)].tag)
    } else {
        validate(tag_map(rs))
    }
}

pub open spec fn error_walk(e: TableError) -> Walk {
    match e {
        TableError::RuleRecursion(t) => Walk::Recursion(t@),
        TableError::UndefinedTag(t) => Walk::Undefined(t@),
        TableError::MultipleDef(t) => Walk::MultipleDef(t@),
        _ => Walk::Exhausted,
    }
}

pub open spec fn views(rs: Seq<Rule>) -> Seq<RuleView> {
    rs.map_values(|r: Rule| r@)
}

/// `idx` maps each tag of `rs` to the position of its rule, and nothing else.
pub open spec fn index_of(rs: Seq<Rule>, idx: Map<Seq<char>, usize>) -> bool {
    &&& idx.dom().finite()
    &&& forall|t: Seq<char>| #[trigger]
        idx.contains_key(t) ==> idx[t] < rs.len() && rs[idx[t] as int].tag@ == t
    &&& forall|i: int|
        0 <= i < rs.len() ==> #[trigger] idx.contains_key(rs[i].tag@) && idx[rs[i].tag@] == i
}

pub open spec fn indexed_map(rs: Seq<Rule>, idx: Map<Seq<char>, usize>) -> Map<Seq<char>, RuleView> {
    Map::new(|t: Seq<char>| idx.contains_key(t), |t: Seq<char>| rs[idx[t] as int]@)
}

/// A routing table: rules keyed by tag, validated once at construction.
pub struct Table {
    rules: Vec<Rule>,
    index: hashbrown::HashMap<String, usize>,
    used: hashbrown::HashSet<String>,
}

fn end_label() -> (r: String)
    ensures
        r@ == end_tag(),
{
    "end".to_owned()
}

fn start_label() -> (r: String)
    ensures
        r@ == start_tag(),
{
    "start".to_owned()
}

fn add_upstreams(a: &Action, used: &mut hashbrown::HashSet<String>)
    ensures
        set_members(*final(used)) == set_members(*old(used)).union(a.upstreams()),
{
    match a {
        Action::Skip => {
            assert(set_members(*old(used)).union(a.upstreams()) =~= set_members(*old(used)));
        },
        Action::Query(u) => {
            set_insert(used, u.clone());
            assert(set_members(*final(used)) =~= set_members(*old(used)).union(a.upstreams()));
        },
    }
}

proof fn lemma_walk_fuel(
    m: Map<Seq<char>, RuleView>,
    v: Set<Seq<char>>,
    u: Set<Seq<char>>,
    t: Seq<char>,
    f1: nat,
    f2: nat,
)
    requires
        f1 <= f2,
        !(walk(m, v, u, t, f1) is Exhausted),
    ensures
        walk(m, v, u, t, f2) == walk(m, v, u, t, f1),
    decreases f1,
{
    if f1 > 0 && m.contains_key(t) && !v.contains(t) {
        let r = m[t];
        let v0 = v.insert(t);
        if r.on_next != end_tag() {
            lemma_walk_fuel(m, v0, u, r.on_next, (f1 - 1) as nat, (f2 - 1) as nat);
        }
        let first = if r.on_next == end_tag() {
            Walk::Done(v0, u)
        } else {
            walk(m, v0, u, r.on_next, (f1 - 1) as nat)
        };
        if let Walk::Done(v1, u1) = first {
            if r.no_next != end_tag() {
                lemma_walk_fuel(m, v1, u1, r.no_next, (f1 - 1) as nat, (f2 - 1) as nat);
            }
        }
    }
}

impl Table {
    /// The rules keyed by tag.
    pub closed spec fn rule_map(&self) -> Map<Seq<char>, RuleView> {
        indexed_map(self.rules@, index_entries(self.index))
    }

    /// The upstreams used by the rules reachable from `start`.
    pub closed spec fn used_view(&self) -> Set<Seq<char>> {
        set_members(self.used)
    }

    pub closed spec fn wf(&self) -> bool {
        &&& index_of(self.rules@, index_entries(self.index))
        &&& validate(self.rule_map()) is Done
    }

    /// The rule stored under tag `t`.
    pub closed spec fn rule_at(&self, t: Seq<char>) -> Rule {
        self.rules@[index_entries(self.index)[t] as int]
    }

    /// Create a routing table from a bunch of `Rule`s.
    pub fn new(rules: Vec<Rule>) -> (r: Result<Table, TableError>)
        ensures
            match r {
                Ok(t) => {
                    &&& t.wf()
                    &&& t.rule_map() == tag_map(views(rules@))
                    &&& build(views(rules@)) == Walk::Done(
                        build(views(rules@))->Done_0,
                        t.used_view(),
                    )
                },
                Err(e) => {
                    &&& build(views(rules@)) == error_walk(e)
                    &&& !(error_walk(e) is Exhausted)
                },
            },
    {
        let ghost vs = views(rules@);
        let mut index = new_index();
        let mut i: usize = 0;
        while i < rules.len()
            invariant
                0 <= i <= rules@.len(),
                vs == views(rules@),
                index_entries(index).dom().finite(),
                forall|t: Seq<char>| #[trigger]
                    index_entries(index).contains_key(t) ==> index_entries(index)[t] < i && rules@[index_entries(index)[t] as int].tag@ == t,
                forall|j: int|
                    0 <= j < i ==> #[trigger] index_entries(index).contains_key(rules@[j].tag@) && index_entries(index)[rules@[j].tag@]
                        == j,
                forall|k: int| 0 <= k < i ==> !dup_at(vs, k),
            decreases rules@.len() - i,
        {
            let t = rules[i].tag.clone();
            match index_get(&index, &t) {
                Some(k) => {
                    proof {
                        assert(vs[k as int].tag == vs[i as int].tag);
                        assert(dup_at(vs, i as int));
                        assert(first_dup(vs, i as int));
                        let c = choose|c: int| first_dup(vs, c);
                        assert(c == i) by {
                            if c < i {
                                assert(!dup_at(vs, c));
                            }
                            if c > i {
                                assert(!dup_at(vs, i as int));
                            }
                        }
                    }
                    return Err(TableError::MultipleDef(t));
                },
                None => {
                    proof {
                        assert(!dup_at(vs, i as int)) by {
                            if dup_at(vs, i as int) {
                                let j = choose|j: int| 0 <= j < i && vs[j].tag == #[trigger] vs[i as int].tag;
                                assert(index_entries(index).contains_key(rules@[j].tag@));
                            }
                        }
                    }
                    index_insert(&mut index, t, i);
                },
            }
            i = i + 1;
        }
        proof {
            assert(!exists|c: int| first_dup(vs, c));
            assert(index_of(rules@, index_entries(index)));
            let tm = tag_map(vs);
            let im = indexed_map(rules@, index_entries(index));
            assert forall|t: Seq<char>| im.contains_key(t) implies tm.contains_key(t) by {
                let k = index_entries(index)[t] as int;
                assert(vs[k].tag == t);
            }
            assert forall|t: Seq<char>| tm.contains_key(t) implies im.contains_key(t) && tm[t]
                == im[t] by {
                let c = choose|c: int| 0 <= c < vs.len() && vs[c].tag == t;
                assert(rules@[c].tag@ == t);
                assert(index_entries(index).contains_key(rules@[c].tag@));
            }
            assert(tm =~= im);
            assert(im.dom() =~= index_entries(index).dom());
        }
        assert(!exists|c: int| first_dup(vs, c));
        assert(build(vs) == validate(indexed_map(rules@, index_entries(index))));
        let mut visited = new_set();
        let mut used = new_set();
        let start = start_label();
        assert(set_members(visited).len() == 0);
        match Self::traverse(&rules, &index, &mut visited, &mut used, &start) {
            Ok(()) => {
                assert(build(vs) == walk(
                    indexed_map(rules@, index_entries(index)),
                    Set::empty(),
                    Set::empty(),
                    start_tag(),
                    (index_entries(index).dom().len() + 1) as nat,
                ));
                Ok(Table { rules, index, used })
            },
            Err(e) => Err(e),
        }
    }

    /// The upstreams used by the rules reachable from `start`.
    pub fn used(&self) -> (r: &hashbrown::HashSet<String>)
        ensures
            set_members(*r) == self.used_view(),
    {
        &self.used
    }

    /// One step of routing from the rule tagged `tag`: the action to perform
    /// and the tag to go on with, or `None` where no rule has that tag.
    pub fn step(&self, tag: &String, queries: &[Question]) -> (r: Option<(&Action, &String)>)
        requires
            self.wf(),
            queries@.len() > 0,
        ensures
            r is None <==> !self.rule_map().contains_key(tag@),
            r is Some ==> {
                let rule = self.rule_at(tag@);
                r->Some_0 == (if rule.matcher.accepts(queries@) {
                    (&rule.on_match.0, &rule.on_match.1)
                } else {
                    (&rule.no_match.0, &rule.no_match.1)
                })
            },
            reachable(self.rule_map(), tag@) ==> r is Some && (r->Some_0.1@ == end_tag()
                || reachable(self.rule_map(), r->Some_0.1@)),
    {
        proof {
            lemma_validated_is_closed(self.rule_map());
        }
        match index_get(&self.index, tag) {
            None => None,
            Some(k) => Some(self.rules[k].route(queries)),
        }
    }

    fn traverse(
        rules: &Vec<Rule>,
        index: &hashbrown::HashMap<String, usize>,
        l: &mut hashbrown::HashSet<String>,
        used: &mut hashbrown::HashSet<String>,
        tag: &String,
    ) -> (r: Result<(), TableError>)
        requires
            index_of(rules@, index_entries(*index)),
            set_members(*old(l)).subset_of(index_entries(*index).dom()),
        ensures
            set_members(*final(l)).subset_of(index_entries(*index).dom()),
            set_members(*old(l)).subset_of(set_members(*final(l))),
            r is Ok ==> set_members(*final(l)).len() > set_members(*old(l)).len(),
            r is Err ==> (r->Err_0 is RuleRecursion || r->Err_0 is UndefinedTag),
            set_members(*old(used)).subset_of(set_members(*final(used))),
            !index_entries(*index).contains_key(tag@) || set_members(*old(l)).contains(tag@) ==> {
                &&& set_members(*final(l)) == set_members(*old(l))
                &&& set_members(*final(used)) == set_members(*old(used))
            },
            walk(
                indexed_map(rules@, index_entries(*index)),
                set_members(*old(l)),
                set_members(*old(used)),
                tag@,
                (index_entries(*index).dom().len() - set_members(*old(l)).len() + 1) as nat,
            ) == (match r {
                Ok(_) => Walk::Done(set_members(*final(l)), set_members(*final(used))),
                Err(e) => error_walk(e),
            }),
        decreases index_entries(*index).dom().len() - set_members(*old(l)).len(),
    {
        let ghost m = indexed_map(rules@, index_entries(*index));
        let ghost d = index_entries(*index).dom().len();
        let ghost l0 = set_members(*l);
        proof {
            vstd::set_lib::lemma_len_subset(l0, index_entries(*index).dom());
        }
        match index_get(index, tag) {
            None => Err(TableError::UndefinedTag(tag.clone())),
            Some(k) => {
                if set_contains(l, tag) {
                    return Err(TableError::RuleRecursion(tag.clone()));
                }
                set_insert(l, tag.clone());
                let rule = &rules[k];
                let ghost rv = m[tag@];
                assert(rv == rule@);
                let ghost l1 = set_members(*l);
                proof {
                    vstd::set_lib::lemma_len_subset(l1, index_entries(*index).dom());
                }
                let end = end_label();
                if !(rule.on_match.1 == end) {
                    match Self::traverse(rules, index, l, used, &rule.on_match.1) {
                        Ok(()) => {},
                        Err(e) => {
                            return Err(e);
                        },
                    }
                }
                let ghost l2 = set_members(*l);
                let ghost u2 = set_members(*used);
                proof {
                    vstd::set_lib::lemma_len_subset(l2, index_entries(*index).dom());
                }
                if !(rule.no_match.1 == end) {
                    let ghost fuel2 = (d - l2.len() + 1) as nat;
                    match Self::traverse(rules, index, l, used, &rule.no_match.1) {
                        Ok(()) => {
                            proof {
                                lemma_walk_fuel(m, l2, u2, rv.no_next, fuel2, (d - l0.len()) as nat);
                            }
                        },
                        Err(e) => {
                            proof {
                                lemma_walk_fuel(m, l2, u2, rv.no_next, fuel2, (d - l0.len()) as nat);
                            }
                            return Err(e);
                        },
                    }
                }
                let ghost u3 = set_members(*used);
                add_upstreams(&rule.on_match.0, used);
                add_upstreams(&rule.no_match.0, used);
                assert(set_members(*used) =~= u3.union(rv.upstreams));
                Ok(())
            },
        }
    }
}

} // verus!
