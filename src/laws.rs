use crate::rule::RuleView;
use crate::table::{build, dup_at, end_tag, first_dup, start_tag, tag_map, validate, walk, Walk};
use vstd::prelude::*;

verus! {

/// `p` is a path of the rule graph from `start`: each tag but the last is
/// defined, and the next one is one of its two next tags, other than `end`.
pub open spec fn is_path(m: Map<Seq<char>, RuleView>, p: Seq<Seq<char>>) -> bool {
    is_path_from(m, start_tag(), p)
}

/// `p` is a path of the rule graph from `a`.
pub open spec fn is_path_from(m: Map<Seq<char>, RuleView>, a: Seq<char>, p: Seq<Seq<char>>) -> bool {
    &&& p.len() > 0
    &&& p[0] == a
    &&& forall|k: int| 0 <= k < p.len() - 1 ==> #[trigger] edge(m, p[k], p[k + 1])
}

/// Some path from `a` ends at `y`.
pub open spec fn leads_to(m: Map<Seq<char>, RuleView>, a: Seq<char>, y: Seq<char>) -> bool {
    exists|p: Seq<Seq<char>>| is_path_from(m, a, p) && p.last() == y
}

/// `a` is defined and names `b`, other than `end`, as a next tag.
pub open spec fn edge(m: Map<Seq<char>, RuleView>, a: Seq<char>, b: Seq<char>) -> bool {
    m.contains_key(a) && (b == m[a].on_next || b == m[a].no_next) && b != end_tag()
}

/// Some path from `start` ends at `t`.
pub open spec fn reachable(m: Map<Seq<char>, RuleView>, t: Seq<char>) -> bool {
    exists|p: Seq<Seq<char>>| is_path(m, p) && p.last() == t
}

/// A defined, reachable rule names `t` as one of its next tags.
pub open spec fn named_by_reachable(m: Map<Seq<char>, RuleView>, t: Seq<char>) -> bool {
    &&& t != end_tag()
    &&& exists|y: Seq<char>|
        #![trigger m[y]]
        reachable(m, y) && m.contains_key(y) && (m[y].on_next == t || m[y].no_next == t)
}

/// The upstreams declared by the rules whose tags are in `s`.
pub open spec fn upstreams_of(m: Map<Seq<char>, RuleView>, s: Set<Seq<char>>) -> Set<Seq<char>> {
    Set::new(|u: Seq<char>| exists|t: Seq<char>| s.contains(t) && #[trigger] m[t].upstreams.contains(u))
}

/// The tags reachable from `start`.
pub open spec fn reachable_tags(m: Map<Seq<char>, RuleView>) -> Set<Seq<char>> {
    Set::new(|t: Seq<char>| reachable(m, t))
}

/// `start` is reachable from itself.
pub proof fn lemma_start_reachable(m: Map<Seq<char>, RuleView>)
    ensures
        reachable(m, start_tag()),
{
    let p = seq![start_tag()];
    assert(is_path(m, p));
    assert(p.last() == start_tag());
}

proof fn lemma_edge_reachable(m: Map<Seq<char>, RuleView>, y: Seq<char>, t: Seq<char>)
    requires
        reachable(m, y),
        m.contains_key(y),
        t != end_tag(),
        m[y].on_next == t || m[y].no_next == t,
    ensures
        reachable(m, t),
{
    let p = choose|p: Seq<Seq<char>>| is_path(m, p) && p.last() == y;
    let q = p.push(t);
    assert forall|k: int| 0 <= k < q.len() - 1 implies #[trigger] edge(m, q[k], q[k + 1]) by {
        if k < p.len() - 1 {
            assert(q[k] == p[k] && q[k + 1] == p[k + 1]);
            assert(edge(m, p[k], p[k + 1]));
        } else {
            assert(q[k] == y && q[k + 1] == t);
        }
    }
    assert(q[0] == p[0]);
    assert(is_path(m, q));
    assert(q.last() == t);
}

proof fn lemma_named_reachable(m: Map<Seq<char>, RuleView>, t: Seq<char>)
    requires
        named_by_reachable(m, t),
    ensures
        reachable(m, t),
{
    let y = choose|y: Seq<char>|
        #![trigger m[y]]
        reachable(m, y) && m.contains_key(y) && (m[y].on_next == t || m[y].no_next == t);
    lemma_edge_reachable(m, y, t);
}

/// What a finished walk from `t` adds: the new tags are defined and
/// reachable, their next tags are visited too, and the upstreams gathered
/// are those of the new tags.
pub open spec fn done_facts(
    m: Map<Seq<char>, RuleView>,
    v: Set<Seq<char>>,
    u: Set<Seq<char>>,
    t: Seq<char>,
    v2: Set<Seq<char>>,
    u2: Set<Seq<char>>,
) -> bool {
    &&& v.subset_of(v2)
    &&& v2.contains(t)
    &&& forall|x: Seq<char>|
        #![trigger v2.contains(x)]
        v2.contains(x) && !v.contains(x) ==> {
            &&& m.contains_key(x)
            &&& reachable(m, x)
            &&& (m[x].on_next == end_tag() || v2.contains(m[x].on_next))
            &&& (m[x].no_next == end_tag() || v2.contains(m[x].no_next))
        }
    &&& u2 == u.union(upstreams_of(m, v2.difference(v)))
    &&& !v.contains(t)
    &&& forall|x: Seq<char>, z: Seq<char>|
        v2.contains(x) && !v.contains(x) && #[trigger] edge(m, x, z) ==> !v.contains(z) && z != t
    &&& forall|x: Seq<char>, y: Seq<char>|
        v2.contains(x) && !v.contains(x) && #[trigger] leads_to(m, x, y) ==> !edge(m, y, x)
}

proof fn lemma_path_closed(m: Map<Seq<char>, RuleView>, s: Set<Seq<char>>, p: Seq<Seq<char>>)
    requires
        p.len() > 0,
        s.contains(p[0]),
        forall|k: int| 0 <= k < p.len() - 1 ==> #[trigger] edge(m, p[k], p[k + 1]),
        forall|w: Seq<char>, z: Seq<char>| s.contains(w) && #[trigger] edge(m, w, z) ==> s.contains(z),
    ensures
        s.contains(p.last()),
    decreases p.len(),
{
    if p.len() > 1 {
        let q = p.drop_last();
        assert forall|k: int| 0 <= k < q.len() - 1 implies #[trigger] edge(m, q[k], q[k + 1]) by {
            assert(q[k] == p[k] && q[k + 1] == p[k + 1]);
            assert(edge(m, p[k], p[k + 1]));
        }
        lemma_path_closed(m, s, q);
        let k = p.len() - 2;
        assert(edge(m, p[k], p[k + 1]));
        assert(p[k] == q.last());
    }
}

proof fn lemma_walk(
    m: Map<Seq<char>, RuleView>,
    v: Set<Seq<char>>,
    u: Set<Seq<char>>,
    t: Seq<char>,
    f: nat,
)
    requires
        named_by_reachable(m, t) || (t == start_tag() && !v.contains(t)),
    ensures
        match walk(m, v, u, t, f) {
            Walk::Done(v2, u2) => done_facts(m, v, u, t, v2, u2),
            Walk::Recursion(x) => m.contains_key(x) && named_by_reachable(m, x),
            Walk::Undefined(x) => !m.contains_key(x) && (x == start_tag() || named_by_reachable(m, x)),
            _ => true,
        },
    decreases f,
{
    if f == 0 || !m.contains_key(t) || v.contains(t) {
        return;
    }
    if t == start_tag() {
        lemma_start_reachable(m);
    } else {
        lemma_named_reachable(m, t);
    }
    if named_by_reachable(m, t) {
        lemma_named_reachable(m, t);
    }
    let r = m[t];
    let v0 = v.insert(t);
    let first = if r.on_next == end_tag() {
        Walk::Done(v0, u)
    } else {
        walk(m, v0, u, r.on_next, (f - 1) as nat)
    };
    if r.on_next != end_tag() {
        assert(m[t].on_next == r.on_next);
        assert(named_by_reachable(m, r.on_next));
        lemma_walk(m, v0, u, r.on_next, (f - 1) as nat);
    }
    if let Walk::Done(v1, u1) = first {
        assert(done_facts(m, v0, u, r.on_next, v1, u1) || (r.on_next == end_tag() && v1 == v0 && u1 == u));
        let second = if r.no_next == end_tag() {
            Walk::Done(v1, u1)
        } else {
            walk(m, v1, u1, r.no_next, (f - 1) as nat)
        };
        if r.no_next != end_tag() {
            assert(m[t].no_next == r.no_next);
            assert(named_by_reachable(m, r.no_next));
            lemma_walk(m, v1, u1, r.no_next, (f - 1) as nat);
        }
        if let Walk::Done(v2, u2) = second {
            assert(walk(m, v, u, t, f) == Walk::Done(v2, u2.union(r.upstreams)));
            assert(v0.subset_of(v1));
            assert(v1.subset_of(v2));
            assert forall|x: Seq<char>| #![trigger v2.contains(x)] v2.contains(x) && !v.contains(x) implies {
                &&& m.contains_key(x)
                &&& reachable(m, x)
                &&& (m[x].on_next == end_tag() || v2.contains(m[x].on_next))
                &&& (m[x].no_next == end_tag() || v2.contains(m[x].no_next))
            } by {
                if x == t {
                } else if v1.contains(x) {
                    assert(!v0.contains(x));
                }
            }
            let lhs = u2.union(r.upstreams);
            let rhs = u.union(upstreams_of(m, v2.difference(v)));
            assert forall|z: Seq<char>| lhs.contains(z) implies rhs.contains(z) by {
                if r.upstreams.contains(z) {
                    assert(v2.difference(v).contains(t));
                } else if u1.contains(z) {
                    if !u.contains(z) {
                        let x = choose|x: Seq<char>| v1.difference(v0).contains(x) && #[trigger] m[x].upstreams.contains(z);
                        assert(v2.difference(v).contains(x));
                    }
                } else {
                    let x = choose|x: Seq<char>| v2.difference(v1).contains(x) && #[trigger] m[x].upstreams.contains(z);
                    assert(v2.difference(v).contains(x));
                }
            }
            assert forall|z: Seq<char>| rhs.contains(z) implies lhs.contains(z) by {
                if !u.contains(z) {
                    let x = choose|x: Seq<char>| v2.difference(v).contains(x) && #[trigger] m[x].upstreams.contains(z);
                    if x == t {
                    } else if v1.contains(x) {
                        assert(v1.difference(v0).contains(x));
                        assert(upstreams_of(m, v1.difference(v0)).contains(z));
                    } else {
                        assert(v2.difference(v1).contains(x));
                        assert(upstreams_of(m, v2.difference(v1)).contains(z));
                    }
                }
            }
            assert(lhs =~= rhs);
            assert forall|x: Seq<char>, z: Seq<char>|
                v2.contains(x) && !v.contains(x) && #[trigger] edge(m, x, z) implies !v.contains(z)
                && z != t by {
                if x == t {
                    if z == r.on_next {
                        assert(!v0.contains(z));
                    } else {
                        assert(!v1.contains(z));
                    }
                } else if v1.contains(x) {
                    assert(!v0.contains(x));
                }
            }
            let sub = v2.difference(v);
            assert forall|w: Seq<char>, z: Seq<char>| sub.contains(w) && #[trigger] edge(m, w, z) implies sub.contains(z) by {
                assert(v2.contains(w) && !v.contains(w));
                assert(m[w].on_next == end_tag() || v2.contains(m[w].on_next));
            }
            assert forall|x: Seq<char>, y: Seq<char>|
                v2.contains(x) && !v.contains(x) && #[trigger] leads_to(m, x, y) implies !edge(m, y, x) by {
                if x == t {
                    let p = choose|p: Seq<Seq<char>>| is_path_from(m, x, p) && p.last() == y;
                    lemma_path_closed(m, sub, p);
                    assert(sub.contains(y));
                } else if v1.contains(x) {
                    assert(!v0.contains(x));
                }
            }
        }
    }
}

proof fn lemma_path_in(m: Map<Seq<char>, RuleView>, vs: Set<Seq<char>>, p: Seq<Seq<char>>)
    requires
        is_path(m, p),
        vs.contains(start_tag()),
        forall|x: Seq<char>|
            #![trigger vs.contains(x)]
            vs.contains(x) ==> m.contains_key(x) && (m[x].on_next == end_tag() || vs.contains(
                m[x].on_next,
            )) && (m[x].no_next == end_tag() || vs.contains(m[x].no_next)),
    ensures
        vs.contains(p.last()),
    decreases p.len(),
{
    if p.len() > 1 {
        let q = p.drop_last();
        assert forall|k: int| 0 <= k < q.len() - 1 implies #[trigger] edge(m, q[k], q[k + 1]) by {
            assert(q[k] == p[k] && q[k + 1] == p[k + 1]);
            assert(edge(m, p[k], p[k + 1]));
        }
        lemma_path_in(m, vs, q);
        let k = p.len() - 2;
        assert(edge(m, p[k], p[k + 1]));
        assert(p[k] == q.last());
    }
}

proof fn lemma_first_dup_exists(rs: Seq<RuleView>, j: int)
    requires
        0 <= j < rs.len(),
        dup_at(rs, j),
    ensures
        exists|k: int| first_dup(rs, k),
    decreases j,
{
    if exists|k: int| 0 <= k < j && dup_at(rs, k) {
        let k = choose|k: int| 0 <= k < j && dup_at(rs, k);
        lemma_first_dup_exists(rs, k);
    } else {
        assert(first_dup(rs, j));
    }
}

/// When a rule set has no repeated tag, validation is the walk from `start`.
proof fn lemma_build_is_validate(rs: Seq<RuleView>)
    requires
        !exists|c: int| first_dup(rs, c),
    ensures
        build(rs) == walk(
            tag_map(rs),
            Set::empty(),
            Set::empty(),
            start_tag(),
            tag_map(rs).dom().len() + 1,
        ),
        tag_map(rs).dom().finite(),
{
    let tags = rs.map_values(|r: RuleView| r.tag);
    assert(tag_map(rs).dom() =~= tags.to_set()) by {
        assert forall|t: Seq<char>| tag_map(rs).dom().contains(t) implies tags.to_set().contains(t) by {
            let i = choose|i: int| 0 <= i < rs.len() && rs[i].tag == t;
            assert(tags[i] == t);
        }
        assert forall|t: Seq<char>| tags.to_set().contains(t) implies tag_map(rs).dom().contains(t) by {
            let i = choose|i: int| 0 <= i < tags.len() && tags[i] == t;
            assert(rs[i].tag == t);
        }
    }
    vstd::seq_lib::seq_to_set_is_finite(tags);
}

/// Building succeeds only with every rule reachable from `start` defined,
/// and then the tags it visits are exactly those reachable from `start`,
/// and the upstreams it reports are exactly those declared by these rules.
pub proof fn law_built_table_uses_reachable_upstreams(rs: Seq<RuleView>)
    requires
        build(rs) is Done,
    ensures
        build(rs)->Done_0 == reachable_tags(tag_map(rs)),
        build(rs)->Done_1 == upstreams_of(tag_map(rs), reachable_tags(tag_map(rs))),
        forall|t: Seq<char>| #[trigger] reachable(tag_map(rs), t) ==> tag_map(rs).contains_key(t),
{
    let m = tag_map(rs);
    lemma_build_is_validate(rs);
    let f = (m.dom().len() + 1) as nat;
    lemma_walk(m, Set::empty(), Set::empty(), start_tag(), f);
    let vs = build(rs)->Done_0;
    assert(done_facts(m, Set::empty(), Set::empty(), start_tag(), vs, build(rs)->Done_1));
    assert forall|t: Seq<char>| reachable(m, t) implies vs.contains(t) by {
        let p = choose|p: Seq<Seq<char>>| is_path(m, p) && p.last() == t;
        lemma_path_in(m, vs, p);
    }
    assert(vs =~= reachable_tags(m));
    assert(vs.difference(Set::empty()) =~= vs);
    assert(build(rs)->Done_1 =~= upstreams_of(m, reachable_tags(m)));
}

/// A rule set in which two rules share a tag fails with a repeated tag.
pub proof fn law_repeated_tag_is_rejected(rs: Seq<RuleView>, i: int, j: int)
    requires
        0 <= i < j < rs.len(),
        rs[i].tag == rs[j].tag,
    ensures
        build(rs) is MultipleDef,
        exists|a: int, b: int|
            0 <= a < b < rs.len() && rs[a].tag == rs[b].tag && rs[b].tag == build(
                rs,
            )->MultipleDef_0,
{
    assert(dup_at(rs, j));
    lemma_first_dup_exists(rs, j);
    let c = choose|c: int| first_dup(rs, c);
    let a = choose|a: int| 0 <= a < c && rs[a].tag == #[trigger] rs[c].tag;
    assert(0 <= a < c < rs.len() && rs[a].tag == rs[c].tag);
}

/// A rule set fails with a recursion only at a defined tag that a rule
/// reachable from `start` names as a next tag, so that the walk comes back
/// to it.
pub proof fn law_recursion_names_a_revisited_tag(rs: Seq<RuleView>)
    requires
        build(rs) is Recursion,
    ensures
        tag_map(rs).contains_key(build(rs)->Recursion_0),
        named_by_reachable(tag_map(rs), build(rs)->Recursion_0),
{
    let m = tag_map(rs);
    lemma_build_is_validate(rs);
    lemma_walk(m, Set::empty(), Set::empty(), start_tag(), (m.dom().len() + 1) as nat);
}

/// A `start` rule that leads back to `start`, on a match or, with a match
/// leading to `end`, on no match, makes the rule set fail with a recursion
/// at `start`.
pub proof fn law_start_loop_is_rejected(rs: Seq<RuleView>)
    requires
        forall|a: int, b: int| 0 <= a < b < rs.len() ==> rs[a].tag != rs[b].tag,
        tag_map(rs).contains_key(start_tag()),
        tag_map(rs)[start_tag()].on_next == start_tag() || (tag_map(rs)[start_tag()].on_next
            == end_tag() && tag_map(rs)[start_tag()].no_next == start_tag()),
    ensures
        build(rs) == Walk::Recursion(start_tag()),
{
    let m = tag_map(rs);
    assert(!exists|c: int| first_dup(rs, c));
    lemma_build_is_validate(rs);
    assert(m.dom().len() > 0) by {
        if m.dom().len() == 0 {
            assert(m.dom() =~= Set::empty());
        }
    }
    let f = (m.dom().len() + 1) as nat;
    let v0 = Set::<Seq<char>>::empty().insert(start_tag());
    reveal_strlit("start");
    reveal_strlit("end");
    assert(start_tag().len() != end_tag().len());
    assert(v0.contains(start_tag()));
    if m[start_tag()].on_next == start_tag() {
        assert(walk(m, v0, Set::empty(), start_tag(), (f - 1) as nat) == Walk::Recursion(start_tag()));
    } else {
        assert(walk(m, v0, Set::empty(), start_tag(), (f - 1) as nat) == Walk::Recursion(start_tag()));
    }
}

/// A tag left undefined is reported only where it is `start` or a rule
/// reachable from `start` names it.
pub proof fn law_undefined_tag_is_named(rs: Seq<RuleView>)
    requires
        build(rs) is Undefined,
    ensures
        !tag_map(rs).contains_key(build(rs)->Undefined_0),
        build(rs)->Undefined_0 == start_tag() || named_by_reachable(tag_map(rs), build(rs)->Undefined_0),
{
    let m = tag_map(rs);
    lemma_build_is_validate(rs);
    lemma_walk(m, Set::empty(), Set::empty(), start_tag(), (m.dom().len() + 1) as nat);
}

/// A rule set in which a rule reachable from `start` names a tag that no
/// rule has (other than `end`) is rejected.
pub proof fn law_dangling_tag_is_rejected(rs: Seq<RuleView>, y: Seq<char>, t: Seq<char>)
    requires
        reachable(tag_map(rs), y),
        tag_map(rs).contains_key(y),
        tag_map(rs)[y].on_next == t || tag_map(rs)[y].no_next == t,
        t != end_tag(),
        !tag_map(rs).contains_key(t),
    ensures
        !(build(rs) is Done),
{
    if build(rs) is Done {
        lemma_edge_reachable(tag_map(rs), y, t);
        law_built_table_uses_reachable_upstreams(rs);
    }
}

/// In a rule map that validates, every tag reachable from `start` is
/// defined, and each of its next tags is `end` or reachable too.
pub proof fn lemma_validated_is_closed(m: Map<Seq<char>, RuleView>)
    requires
        validate(m) is Done,
    ensures
        forall|t: Seq<char>| #[trigger]
            reachable(m, t) ==> m.contains_key(t) && (m[t].on_next == end_tag() || reachable(
                m,
                m[t].on_next,
            )) && (m[t].no_next == end_tag() || reachable(m, m[t].no_next)),
{
    lemma_walk(m, Set::empty(), Set::empty(), start_tag(), (m.dom().len() + 1) as nat);
    let vs = validate(m)->Done_0;
    assert forall|t: Seq<char>| reachable(m, t) implies vs.contains(t) by {
        let p = choose|p: Seq<Seq<char>>| is_path(m, p) && p.last() == t;
        lemma_path_in(m, vs, p);
    }
}

proof fn lemma_walk_total(
    m: Map<Seq<char>, RuleView>,
    v: Set<Seq<char>>,
    u: Set<Seq<char>>,
    t: Seq<char>,
    f: nat,
)
    requires
        m.dom().finite(),
        v.subset_of(m.dom()),
        f >= m.dom().len() - v.len() + 1,
    ensures
        !(walk(m, v, u, t, f) is Exhausted),
        !(walk(m, v, u, t, f) is MultipleDef),
        walk(m, v, u, t, f) is Done ==> walk(m, v, u, t, f)->Done_0.subset_of(m.dom()) && walk(
            m,
            v,
            u,
            t,
            f,
        )->Done_0.len() > v.len(),
    decreases f,
{
    vstd::set_lib::lemma_len_subset(v, m.dom());
    if !m.contains_key(t) || v.contains(t) {
        return;
    }
    let r = m[t];
    let v0 = v.insert(t);
    vstd::set_lib::lemma_len_subset(v0, m.dom());
    if r.on_next != end_tag() {
        lemma_walk_total(m, v0, u, r.on_next, (f - 1) as nat);
    }
    let first = if r.on_next == end_tag() {
        Walk::Done(v0, u)
    } else {
        walk(m, v0, u, r.on_next, (f - 1) as nat)
    };
    if let Walk::Done(v1, u1) = first {
        vstd::set_lib::lemma_len_subset(v1, m.dom());
        if r.no_next != end_tag() {
            lemma_walk_total(m, v1, u1, r.no_next, (f - 1) as nat);
        }
    }
}

/// Building never runs out of fuel: it yields a table, a repeated tag, an
/// undefined tag or a recursion.
pub proof fn law_build_is_total(rs: Seq<RuleView>)
    ensures
        build(rs) is Done || build(rs) is MultipleDef || build(rs) is Undefined || build(
            rs,
        ) is Recursion,
{
    if !exists|c: int| first_dup(rs, c) {
        lemma_build_is_validate(rs);
        let m = tag_map(rs);
        lemma_walk_total(m, Set::empty(), Set::empty(), start_tag(), (m.dom().len() + 1) as nat);
    }
}

/// A rule set with no repeated tag, with a `start` rule, and in which every
/// next tag of a rule reachable from `start` is `end` or defined, builds
/// unless a walk from `start` comes back to a tag.
pub proof fn law_defined_rule_set_builds_or_recurses(rs: Seq<RuleView>)
    requires
        forall|a: int, b: int| 0 <= a < b < rs.len() ==> rs[a].tag != rs[b].tag,
        tag_map(rs).contains_key(start_tag()),
        forall|y: Seq<char>|
            #![trigger tag_map(rs)[y]]
            reachable(tag_map(rs), y) && tag_map(rs).contains_key(y) ==> (tag_map(rs)[y].on_next
                == end_tag() || tag_map(rs).contains_key(tag_map(rs)[y].on_next)) && (tag_map(
                rs,
            )[y].no_next == end_tag() || tag_map(rs).contains_key(tag_map(rs)[y].no_next)),
    ensures
        build(rs) is Done || build(rs) is Recursion,
{
    let m = tag_map(rs);
    assert(!exists|c: int| first_dup(rs, c));
    lemma_build_is_validate(rs);
    lemma_walk_total(m, Set::empty(), Set::empty(), start_tag(), (m.dom().len() + 1) as nat);
    if build(rs) is Undefined {
        law_undefined_tag_is_named(rs);
        let x = build(rs)->Undefined_0;
        if x != start_tag() {
            let y = choose|y: Seq<char>|
                #![trigger m[y]]
                reachable(m, y) && m.contains_key(y) && (m[y].on_next == x || m[y].no_next == x);
            assert(m.contains_key(x));
        }
    }
}

/// A rule set in which a rule names, as a next tag, a reachable tag from
/// which that rule is itself reached (an ancestor on a path from `start`)
/// is not built.
pub proof fn law_cycle_is_rejected(rs: Seq<RuleView>, a: Seq<char>, y: Seq<char>)
    requires
        reachable(tag_map(rs), a),
        leads_to(tag_map(rs), a, y),
        edge(tag_map(rs), y, a),
    ensures
        !(build(rs) is Done),
{
    let m = tag_map(rs);
    if build(rs) is Done {
        law_built_table_uses_reachable_upstreams(rs);
        lemma_build_is_validate(rs);
        lemma_walk(m, Set::empty(), Set::empty(), start_tag(), (m.dom().len() + 1) as nat);
        let vs = build(rs)->Done_0;
        assert(vs.contains(a));
        assert(!Set::<Seq<char>>::empty().contains(a));
    }
}

/// A rule set with no repeated tag, with a `start` rule and no undefined
/// next tag among the rules reachable from `start`, in which a rule names an
/// ancestor on its path from `start`, fails with a recursion.
pub proof fn law_cycle_is_recursion(rs: Seq<RuleView>, a: Seq<char>, y: Seq<char>)
    requires
        forall|i: int, j: int| 0 <= i < j < rs.len() ==> rs[i].tag != rs[j].tag,
        tag_map(rs).contains_key(start_tag()),
        forall|x: Seq<char>|
            #![trigger tag_map(rs)[x]]
            reachable(tag_map(rs), x) && tag_map(rs).contains_key(x) ==> (tag_map(rs)[x].on_next
                == end_tag() || tag_map(rs).contains_key(tag_map(rs)[x].on_next)) && (tag_map(
                rs,
            )[x].no_next == end_tag() || tag_map(rs).contains_key(tag_map(rs)[x].no_next)),
        reachable(tag_map(rs), a),
        leads_to(tag_map(rs), a, y),
        edge(tag_map(rs), y, a),
    ensures
        build(rs) is Recursion,
{
    law_defined_rule_set_builds_or_recurses(rs);
    law_cycle_is_rejected(rs, a, y);
}

/// The next tag of rule `y` on a match (`b`) or on no match.
pub open spec fn target(m: Map<Seq<char>, RuleView>, y: Seq<char>, b: bool) -> Seq<char> {
    if b {
        m[y].on_next
    } else {
        m[y].no_next
    }
}

/// The rules reachable from `start` form a tree: no branch of theirs names
/// `start`, and no two branches name the same tag other than `end`.
pub open spec fn tree_shaped(m: Map<Seq<char>, RuleView>) -> bool {
    &&& forall|y: Seq<char>, b: bool|
        reachable(m, y) && m.contains_key(y) ==> #[trigger] target(m, y, b) != start_tag()
    &&& forall|y1: Seq<char>, b1: bool, y2: Seq<char>, b2: bool|
        reachable(m, y1) && m.contains_key(y1) && reachable(m, y2) && m.contains_key(y2) && (y1, b1)
            != (y2, b2) && #[trigger] target(m, y1, b1) == #[trigger] target(m, y2, b2) ==> target(
            m,
            y1,
            b1,
        ) == end_tag()
}

pub open spec fn entry_set(e: Option<(Seq<char>, bool)>) -> Set<(Seq<char>, bool)> {
    match e {
        Some(sl) => set![sl],
        None => Set::empty(),
    }
}

/// The branches taken once a walk from a tag entered through `e` has
/// finished: those taken before, the entry, and every branch of the rules
/// it visited.
pub open spec fn slots_after(
    s: Set<(Seq<char>, bool)>,
    e: Option<(Seq<char>, bool)>,
    v: Set<Seq<char>>,
    v2: Set<Seq<char>>,
) -> Set<(Seq<char>, bool)> {
    s.union(entry_set(e)).union(Set::new(|sl: (Seq<char>, bool)| v2.contains(sl.0) && !v.contains(sl.0)))
}

pub open spec fn entered_through(m: Map<Seq<char>, RuleView>, v: Set<Seq<char>>, s: Set<(Seq<char>, bool)>) -> bool {
    &&& forall|x: Seq<char>| #[trigger] v.contains(x) ==> reachable(m, x) && m.contains_key(x)
    &&& forall|sl: (Seq<char>, bool)| #[trigger] s.contains(sl) ==> v.contains(sl.0)
    &&& forall|x: Seq<char>|
        #[trigger] v.contains(x) && x != start_tag() ==> exists|sl: (Seq<char>, bool)|
            #[trigger] s.contains(sl) && target(m, sl.0, sl.1) == x
}

proof fn lemma_walk_tree(
    m: Map<Seq<char>, RuleView>,
    v: Set<Seq<char>>,
    u: Set<Seq<char>>,
    t: Seq<char>,
    f: nat,
    s: Set<(Seq<char>, bool)>,
    e: Option<(Seq<char>, bool)>,
)
    requires
        tree_shaped(m),
        entered_through(m, v, s),
        t != end_tag(),
        match e {
            None => t == start_tag() && v == Set::<Seq<char>>::empty(),
            Some(sl) => !s.contains(sl) && v.contains(sl.0) && target(m, sl.0, sl.1) == t,
        },
    ensures
        !(walk(m, v, u, t, f) is Recursion),
        walk(m, v, u, t, f) is Done ==> v.subset_of(walk(m, v, u, t, f)->Done_0) && entered_through(
            m,
            walk(m, v, u, t, f)->Done_0,
            slots_after(s, e, v, walk(m, v, u, t, f)->Done_0),
        ),
    decreases f,
{
    if f == 0 || !m.contains_key(t) {
        return;
    }
    if v.contains(t) {
        match e {
            None => {},
            Some(sl) => {
                if t == start_tag() {
                    assert(target(m, sl.0, sl.1) != start_tag());
                } else {
                    let sl2 = choose|sl2: (Seq<char>, bool)| #[trigger] s.contains(sl2) && target(m, sl2.0, sl2.1) == t;
                    assert(sl2 != sl);
                    assert(target(m, sl.0, sl.1) == target(m, sl2.0, sl2.1));
                }
            },
        }
        return;
    }
    match e {
        None => {
            lemma_start_reachable(m);
        },
        Some(sl) => {
            lemma_edge_reachable(m, sl.0, t);
        },
    }
    let r = m[t];
    let v0 = v.insert(t);
    let s0 = s.union(entry_set(e));
    assert(entered_through(m, v0, s0)) by {
        assert forall|x: Seq<char>| #[trigger] v0.contains(x) && x != start_tag() implies exists|sl: (Seq<char>, bool)|
            #[trigger] s0.contains(sl) && target(m, sl.0, sl.1) == x by {
            if x == t {
                let sl = e->Some_0;
                assert(s0.contains(sl));
            } else {
                let sl = choose|sl: (Seq<char>, bool)| #[trigger] s.contains(sl) && target(m, sl.0, sl.1) == x;
                assert(s0.contains(sl));
            }
        }
    }
    assert(!s0.contains((t, true)) && !s0.contains((t, false)));
    if r.on_next != end_tag() {
        lemma_walk_tree(m, v0, u, r.on_next, (f - 1) as nat, s0, Some((t, true)));
    }
    let first = if r.on_next == end_tag() {
        Walk::Done(v0, u)
    } else {
        walk(m, v0, u, r.on_next, (f - 1) as nat)
    };
    if let Walk::Done(v1, u1) = first {
        let s1 = slots_after(s0, Some((t, true)), v0, v1);
        if r.on_next == end_tag() {
            assert(entered_through(m, v1, s1)) by {
                assert forall|x: Seq<char>| #[trigger] v1.contains(x) && x != start_tag() implies exists|sl: (Seq<char>, bool)|
                    #[trigger] s1.contains(sl) && target(m, sl.0, sl.1) == x by {
                    let sl = choose|sl: (Seq<char>, bool)| #[trigger] s0.contains(sl) && target(m, sl.0, sl.1) == x;
                    assert(s1.contains(sl));
                }
            }
        }
        assert(!s1.contains((t, false)));
        if r.no_next != end_tag() {
            lemma_walk_tree(m, v1, u1, r.no_next, (f - 1) as nat, s1, Some((t, false)));
        }
        let second = if r.no_next == end_tag() {
            Walk::Done(v1, u1)
        } else {
            walk(m, v1, u1, r.no_next, (f - 1) as nat)
        };
        if let Walk::Done(v2, u2) = second {
            let s2 = slots_after(s1, Some((t, false)), v1, v2);
            let fin = slots_after(s, e, v, v2);
            assert(s2.subset_of(fin));
            if r.no_next == end_tag() {
                assert forall|x: Seq<char>| #[trigger] v2.contains(x) && x != start_tag() implies exists|sl: (Seq<char>, bool)|
                    #[trigger] s2.contains(sl) && target(m, sl.0, sl.1) == x by {
                    let sl = choose|sl: (Seq<char>, bool)| #[trigger] s1.contains(sl) && target(m, sl.0, sl.1) == x;
                    assert(s2.contains(sl));
                }
            }
            assert forall|x: Seq<char>| #[trigger] v2.contains(x) && x != start_tag() implies exists|sl: (Seq<char>, bool)|
                #[trigger] fin.contains(sl) && target(m, sl.0, sl.1) == x by {
                let sl = choose|sl: (Seq<char>, bool)| #[trigger] s2.contains(sl) && target(m, sl.0, sl.1) == x;
                assert(fin.contains(sl));
            }
            assert forall|sl: (Seq<char>, bool)| #[trigger] fin.contains(sl) implies v2.contains(sl.0) by {
                if s.contains(sl) {
                } else if entry_set(e).contains(sl) {
                }
            }
        }
    }
}

/// A rule set with no repeated tag, with a `start` rule, in which every next
/// tag of a rule reachable from `start` is `end` or defined, and whose
/// reachable rules form a tree (so that no walk from `start` comes to a tag
/// twice), builds; the upstreams it reports are exactly those declared by
/// the rules reachable from `start`.
pub proof fn law_tree_rule_set_builds(rs: Seq<RuleView>)
    requires
        forall|i: int, j: int| 0 <= i < j < rs.len() ==> rs[i].tag != rs[j].tag,
        tag_map(rs).contains_key(start_tag()),
        forall|x: Seq<char>|
            #![trigger tag_map(rs)[x]]
            reachable(tag_map(rs), x) && tag_map(rs).contains_key(x) ==> (tag_map(rs)[x].on_next
                == end_tag() || tag_map(rs).contains_key(tag_map(rs)[x].on_next)) && (tag_map(
                rs,
            )[x].no_next == end_tag() || tag_map(rs).contains_key(tag_map(rs)[x].no_next)),
        tree_shaped(tag_map(rs)),
    ensures
        build(rs) is Done,
        build(rs)->Done_1 == upstreams_of(tag_map(rs), reachable_tags(tag_map(rs))),
{
    let m = tag_map(rs);
    law_defined_rule_set_builds_or_recurses(rs);
    assert(!exists|c: int| first_dup(rs, c));
    lemma_build_is_validate(rs);
    reveal_strlit("start");
    reveal_strlit("end");
    assert(start_tag().len() != end_tag().len());
    lemma_walk_tree(
        m,
        Set::empty(),
        Set::empty(),
        start_tag(),
        (m.dom().len() + 1) as nat,
        Set::empty(),
        None,
    );
    law_built_table_uses_reachable_upstreams(rs);
}

/// A rule set with no repeated tag and with a `start` rule, whose reachable
/// rules form a tree (absent tags count as leaves), and in which a rule
/// reachable from `start` names a tag that no rule has (other than `end`),
/// fails with an undefined tag: one that a reachable rule names.
pub proof fn law_dangling_tag_is_undefined(rs: Seq<RuleView>, y: Seq<char>, t: Seq<char>)
    requires
        forall|i: int, j: int| 0 <= i < j < rs.len() ==> rs[i].tag != rs[j].tag,
        tag_map(rs).contains_key(start_tag()),
        tree_shaped(tag_map(rs)),
        reachable(tag_map(rs), y),
        tag_map(rs).contains_key(y),
        tag_map(rs)[y].on_next == t || tag_map(rs)[y].no_next == t,
        t != end_tag(),
        !tag_map(rs).contains_key(t),
    ensures
        build(rs) is Undefined,
        !tag_map(rs).contains_key(build(rs)->Undefined_0),
        named_by_reachable(tag_map(rs), build(rs)->Undefined_0),
{
    let m = tag_map(rs);
    assert(!exists|c: int| first_dup(rs, c));
    lemma_build_is_validate(rs);
    reveal_strlit("start");
    reveal_strlit("end");
    assert(start_tag().len() != end_tag().len());
    let f = (m.dom().len() + 1) as nat;
    lemma_walk_total(m, Set::empty(), Set::empty(), start_tag(), f);
    lemma_walk_tree(m, Set::empty(), Set::empty(), start_tag(), f, Set::empty(), None);
    law_dangling_tag_is_rejected(rs, y, t);
    law_undefined_tag_is_named(rs);
}

} // verus!
