use crate::matchers::{Matcher, Question};
use vstd::prelude::*;

verus! {

/// The suffix trie of the dmatcher crate, opaque here.
#[verifier::external_type_specification]
#[verifier::external_body]
pub struct ExDmatcher(dmatcher::Dmatcher);

/// The domains a `Dmatcher` holds, each as its labels from the top level down.
pub uninterp spec fn matcher_domains(m: dmatcher::Dmatcher) -> Set<Seq<Seq<char>>>;

/// The labels of `s` after those gathered in `cur`, split at dots, empty
/// labels left out.
pub open spec fn labels_from(s: Seq<char>, cur: Seq<char>) -> Seq<Seq<char>>
    decreases s.len(),
{
    if s.len() == 0 {
        if cur.len() == 0 {
            Seq::empty()
        } else {
            seq![cur]
        }
    } else if s[0] == '.' {
        (if cur.len() == 0 {
            Seq::empty()
        } else {
            seq![cur]
        }) + labels_from(s.drop_first(), Seq::empty())
    } else {
        labels_from(s.drop_first(), cur.push(s[0]))
    }
}

/// A domain's labels from the top level down (`www.example.com` gives
/// `com`, `example`, `www`).
pub open spec fn domain_key(s: Seq<char>) -> Seq<Seq<char>> {
    labels_from(s, Seq::empty()).reverse()
}

/// The character with an ASCII capital letter made small.
pub open spec fn lower_char(c: char) -> char {
    if 65 <= (c as u32) && (c as u32) <= 90 {
        ((c as u32) + 32) as char
    } else {
        c
    }
}

/// The text with its ASCII capital letters made small.
pub open spec fn ascii_lower(s: Seq<char>) -> Seq<char> {
    s.map_values(|c: char| lower_char(c))
}

/// The labels under which a domain is stored or looked up: case folded,
/// from the top level down.
pub open spec fn folded_key(s: Seq<char>) -> Seq<Seq<char>> {
    domain_key(ascii_lower(s))
}

/// Some stored domain extends `p` by at least one label.
pub open spec fn has_below(domains: Set<Seq<Seq<char>>>, p: Seq<Seq<char>>) -> bool {
    exists|k: Seq<Seq<char>>| domains.contains(k) && p.len() < k.len() && p.is_prefix_of(k)
}

/// What one walk of the trie answers for a name with these labels: a stored
/// domain is a prefix of the labels, and it is either the whole of them or
/// no stored domain extends it (the walk stops at a node with nothing below
/// it and fails on a missing label). The matcher asks the trie several
/// times to get `stored_suffix` from this.
pub open spec fn suffix_accepts(domains: Set<Seq<Seq<char>>>, key: Seq<Seq<char>>) -> bool {
    exists|n: int|
        0 <= n <= key.len() && #[trigger] domains.contains(key.subrange(0, n)) && (n == key.len()
            || !has_below(domains, key.subrange(0, n)))
}

/// Some stored domain is a prefix of the labels `key`, taken from the top
/// level down: the name is a stored domain or lies below one.
pub open spec fn stored_suffix(domains: Set<Seq<Seq<char>>>, key: Seq<Seq<char>>) -> bool {
    exists|n: int| 0 <= n <= key.len() && #[trigger] domains.contains(key.subrange(0, n))
}

/// `c` is the start of the text after a dot.
pub open spec fn after_dot(t: Seq<char>, c: int) -> bool {
    0 < c <= t.len() && t[c - 1] == '.'
}

/// No dot stands in `t` from `a` up to `c`, but for the one just before `c`
/// where `c` follows a dot.
pub open spec fn no_dot_before(t: Seq<char>, a: int, c: int) -> bool {
    forall|k: int| a <= k < c && !(after_dot(t, c) && k == c - 1) ==> #[trigger] t[k] != '.'
}

/// The lines of `s`, split at each newline (a text with `n` newlines has
/// `n + 1` lines).
pub open spec fn lines_of(s: Seq<char>) -> Seq<Seq<char>>
    decreases s.len(),
{
    if s.len() == 0 {
        seq![Seq::empty()]
    } else {
        let rest = lines_of(s.drop_last());
        if s.last() == '\n' {
            rest.push(Seq::empty())
        } else {
            rest.update(rest.len() - 1, rest.last().push(s.last()))
        }
    }
}

/// The blanks trimmed from a line of a domain list: the ASCII whitespace
/// characters (space, tab, carriage return, vertical tab, form feed), not
/// the other Unicode spaces.
pub open spec fn is_blank(c: char) -> bool {
    c == ' ' || c == '\t' || c == '\r' || c == '\x0B' || c == '\x0C'
}

pub open spec fn trim_start(s: Seq<char>) -> Seq<char>
    decreases s.len(),
{
    if s.len() > 0 && is_blank(s[0]) {
        trim_start(s.drop_first())
    } else {
        s
    }
}

pub open spec fn trim_end(s: Seq<char>) -> Seq<char>
    decreases s.len(),
{
    if s.len() > 0 && is_blank(s.last()) {
        trim_end(s.drop_last())
    } else {
        s
    }
}

/// The domain a line of a list gives: the line without surrounding blanks,
/// unless that is empty or a comment.
pub open spec fn pattern_of(line: Seq<char>) -> Option<Seq<char>> {
    let t = trim_end(trim_start(line));
    if t.len() == 0 || t[0] == '#' {
        None
    } else {
        Some(t)
    }
}

/// The domain keys that the lines `lines` give.
pub open spec fn keys_of_lines(lines: Seq<Seq<char>>) -> Set<Seq<Seq<char>>> {
    Set::new(
        |k: Seq<Seq<char>>|
            exists|i: int|
                0 <= i < lines.len() && #[trigger] pattern_of(lines[i]) is Some && k == folded_key(
                    pattern_of(lines[i])->Some_0,
                ),
    )
}

/// Relies on dmatcher::Dmatcher::new: a matcher with no domains.
#[verifier::external_body]
fn new_matcher() -> (r: dmatcher::Dmatcher)
    ensures
        matcher_domains(r) == Set::<Seq<Seq<char>>>::empty(),
{
    dmatcher::Dmatcher::new()
}

/// Relies on dmatcher::Dmatcher::insert: the domain's non-empty labels,
/// from the top level down, are stored; its `Result` is always `Ok`.
#[verifier::external_body]
fn insert_domain(m: &mut dmatcher::Dmatcher, domain: &str)
    ensures
        matcher_domains(*final(m)) == matcher_domains(*old(m)).insert(domain_key(domain@)),
{
    m.insert(domain, "").ok();
}

/// Relies on dmatcher::Dmatcher::matches: it walks the stored labels from
/// the top level down, stops at a node with nothing below it, and answers
/// whether the node it stops at holds a domain; its `Result` is always `Ok`.
#[verifier::external_body]
fn matcher_accepts(m: &dmatcher::Dmatcher, domain: &str) -> (r: bool)
    ensures
        r == suffix_accepts(matcher_domains(*m), domain_key(domain@)),
{
    m.matches(domain).ok().flatten().is_some()
}

/// Relies on str::to_ascii_lowercase: ASCII letters `A` to `Z` become `a` to
/// `z`, and every other character stays.
#[verifier::external_body]
fn fold_case(s: &str) -> (r: String)
    ensures
        r@ == ascii_lower(s@),
{
    s.to_ascii_lowercase()
}

/// Relies on str::split with '\n': the pieces between newlines, in order.
#[verifier::external_body]
fn split_lines(s: &str) -> (r: Vec<String>)
    ensures
        r@.map_values(|l: String| l@) == lines_of(s@),
{
    s.split('\n').map(|l| l.to_string()).collect()
}

proof fn lemma_trim_start_step(s: Seq<char>, i: int)
    requires
        0 <= i < s.len(),
        is_blank(s[i]),
    ensures
        trim_start(s.subrange(i, s.len() as int)) == trim_start(s.subrange(i + 1, s.len() as int)),
{
    assert(s.subrange(i, s.len() as int).drop_first() =~= s.subrange(i + 1, s.len() as int));
}

proof fn lemma_trim_end_step(s: Seq<char>, j: int)
    requires
        0 < j <= s.len(),
        is_blank(s[j - 1]),
    ensures
        trim_end(s.subrange(0, j)) == trim_end(s.subrange(0, j - 1)),
{
    assert(s.subrange(0, j).drop_last() =~= s.subrange(0, j - 1));
}

proof fn lemma_reverse_concat(a: Seq<Seq<char>>, b: Seq<Seq<char>>)
    ensures
        (a + b).reverse() == b.reverse() + a.reverse(),
{
    assert((a + b).reverse() =~= b.reverse() + a.reverse());
}

proof fn lemma_labels_split(a: Seq<char>, b: Seq<char>, cur: Seq<char>)
    ensures
        labels_from(a.push('.') + b, cur) == labels_from(a, cur) + labels_from(b, Seq::empty()),
    decreases a.len(),
{
    let s = a.push('.') + b;
    if a.len() == 0 {
        assert(s[0] == '.');
        assert(s.drop_first() =~= b);
    } else {
        assert(s[0] == a[0]);
        assert(s.drop_first() =~= a.drop_first().push('.') + b);
        if a[0] == '.' {
            lemma_labels_split(a.drop_first(), b, Seq::empty());
            let f: Seq<Seq<char>> = if cur.len() == 0 {
                Seq::empty()
            } else {
                seq![cur]
            };
            assert(f + labels_from(a.drop_first(), Seq::empty()) + labels_from(b, Seq::empty()) =~= f
                + (labels_from(a.drop_first(), Seq::empty()) + labels_from(b, Seq::empty())));
        } else {
            lemma_labels_split(a.drop_first(), b, cur.push(a[0]));
        }
    }
}

proof fn lemma_labels_no_dot(s: Seq<char>, cur: Seq<char>)
    requires
        forall|k: int| 0 <= k < s.len() ==> #[trigger] s[k] != '.',
    ensures
        labels_from(s, cur).len() <= 1,
    decreases s.len(),
{
    if s.len() > 0 {
        assert(s[0] != '.');
        assert forall|k: int| 0 <= k < s.drop_first().len() implies #[trigger] s.drop_first()[k] != '.' by {
            assert(s.drop_first()[k] == s[k + 1]);
        }
        lemma_labels_no_dot(s.drop_first(), cur.push(s[0]));
    }
}

/// Going back from the cut `c2` to the earlier cut `c1` adds at most one
/// label at the bottom of the key.
proof fn lemma_key_step(t: Seq<char>, c1: int, c2: int)
    requires
        0 <= c1 < c2 <= t.len(),
        c2 == t.len() || after_dot(t, c2),
        no_dot_before(t, c1, c2),
    ensures
        domain_key(t.subrange(c2, t.len() as int)).is_prefix_of(
            domain_key(t.subrange(c1, t.len() as int)),
        ),
        domain_key(t.subrange(c1, t.len() as int)).len() <= domain_key(
            t.subrange(c2, t.len() as int),
        ).len() + 1,
{
    let n = t.len() as int;
    let u = t.subrange(c1, n);
    let w = t.subrange(c2, n);
    if after_dot(t, c2) {
        let a = t.subrange(c1, c2 - 1);
        assert(u =~= a.push('.') + w);
        assert forall|k: int| 0 <= k < a.len() implies #[trigger] a[k] != '.' by {
            assert(a[k] == t[c1 + k]);
        }
        lemma_labels_split(a, w, Seq::empty());
        lemma_labels_no_dot(a, Seq::empty());
        lemma_reverse_concat(labels_from(a, Seq::empty()), labels_from(w, Seq::empty()));
    } else {
        assert(w =~= Seq::<char>::empty());
        assert(labels_from(w, Seq::empty()) =~= Seq::<Seq<char>>::empty());
        assert forall|k: int| 0 <= k < u.len() implies #[trigger] u[k] != '.' by {
            assert(u[k] == t[c1 + k]);
        }
        lemma_labels_no_dot(u, Seq::empty());
    }
}

/// With `k2` a prefix of `k1` one label shorter at most, a stored domain is
/// a prefix of `k1` exactly when one is a prefix of `k2` or the matcher
/// accepts `k1`.
proof fn lemma_accept_step(d: Set<Seq<Seq<char>>>, k1: Seq<Seq<char>>, k2: Seq<Seq<char>>)
    requires
        k2.is_prefix_of(k1),
        k1.len() <= k2.len() + 1,
    ensures
        stored_suffix(d, k1) == (stored_suffix(d, k2) || suffix_accepts(d, k1)),
{
    if stored_suffix(d, k1) {
        let n = choose|n: int| 0 <= n <= k1.len() && #[trigger] d.contains(k1.subrange(0, n));
        if n <= k2.len() {
            assert(k1.subrange(0, n) =~= k2.subrange(0, n));
        } else {
            assert(k1.subrange(0, k1.len() as int) =~= k1);
            assert(n == k1.len());
        }
    }
    if stored_suffix(d, k2) {
        let n = choose|n: int| 0 <= n <= k2.len() && #[trigger] d.contains(k2.subrange(0, n));
        assert(k1.subrange(0, n) =~= k2.subrange(0, n));
    }
    if suffix_accepts(d, k1) {
        let n = choose|n: int|
            0 <= n <= k1.len() && #[trigger] d.contains(k1.subrange(0, n)) && (n == k1.len()
                || !has_below(d, k1.subrange(0, n)));
        assert(d.contains(k1.subrange(0, n)));
    }
}

/// The line without blanks at either end.
fn trim_line(line: &str) -> (r: &str)
    ensures
        r@ == trim_end(trim_start(line@)),
{
    let n = line.unicode_len();
    let mut a: usize = 0;
    assert(line@.subrange(0, n as int) =~= line@);
    while a < n && is_blank_char(line.get_char(a))
        invariant
            0 <= a <= n,
            n == line@.len(),
            trim_start(line@) == trim_start(line@.subrange(a as int, n as int)),
        decreases n - a,
    {
        proof {
            lemma_trim_start_step(line@, a as int);
        }
        a = a + 1;
    }
    let t = line.substring_char(a, n);
    assert(trim_start(line@) == t@);
    let mut b: usize = t.unicode_len();
    assert(t@.subrange(0, b as int) =~= t@);
    while b > 0 && is_blank_char(t.get_char(b - 1))
        invariant
            0 <= b <= t@.len(),
            trim_end(t@) == trim_end(t@.subrange(0, b as int)),
        decreases b,
    {
        proof {
            lemma_trim_end_step(t@, b as int);
        }
        b = b - 1;
    }
    t.substring_char(0, b)
}

fn is_blank_char(c: char) -> (r: bool)
    ensures
        r == is_blank(c),
{
    c == ' ' || c == '\t' || c == '\r' || c == '\x0B' || c == '\x0C'
}

/// Matching against the domains of several lists together is matching
/// against either: adding a list never removes a match.
pub proof fn law_union_matches_either(
    d1: Set<Seq<Seq<char>>>,
    d2: Set<Seq<Seq<char>>>,
    key: Seq<Seq<char>>,
)
    ensures
        stored_suffix(d1.union(d2), key) == (stored_suffix(d1, key) || stored_suffix(d2, key)),
{
    if stored_suffix(d1.union(d2), key) {
        let n = choose|n: int| 0 <= n <= key.len() && #[trigger] d1.union(d2).contains(key.subrange(0, n));
        assert(d1.contains(key.subrange(0, n)) || d2.contains(key.subrange(0, n)));
    }
    if stored_suffix(d1, key) {
        let n = choose|n: int| 0 <= n <= key.len() && #[trigger] d1.contains(key.subrange(0, n));
        assert(d1.union(d2).contains(key.subrange(0, n)));
    }
    if stored_suffix(d2, key) {
        let n = choose|n: int| 0 <= n <= key.len() && #[trigger] d2.contains(key.subrange(0, n));
        assert(d1.union(d2).contains(key.subrange(0, n)));
    }
}

/// The domain matcher: a suffix trie of domains, matched without regard
/// to ASCII case.
pub struct Domain {
    alg: dmatcher::Dmatcher,
}

impl Domain {
    /// The domains stored, each as its labels from the top level down.
    pub closed spec fn domains(&self) -> Set<Seq<Seq<char>>> {
        matcher_domains(self.alg)
    }

    /// A matcher with no domains.
    pub fn empty() -> (r: Domain)
        ensures
            r.domains() == Set::<Seq<Seq<char>>>::empty(),
    {
        Domain { alg: new_matcher() }
    }

    /// Store one domain, case folded.
    pub fn insert(&mut self, domain: &str)
        ensures
            final(self).domains() == old(self).domains().insert(folded_key(domain@)),
    {
        let folded = fold_case(domain);
        insert_domain(&mut self.alg, folded.as_str());
    }

    /// Store the domain of each line of a list: lines are trimmed of blanks,
    /// and empty lines and comment lines (starting with `#`) are skipped.
    pub fn insert_multi(&mut self, text: &str)
        ensures
            final(self).domains() == old(self).domains().union(keys_of_lines(lines_of(text@))),
    {
        let lines = split_lines(text);
        let ghost ls = lines_of(text@);
        let ghost base = self.domains();
        let mut i: usize = 0;
        while i < lines.len()
            invariant
                0 <= i <= lines@.len(),
                lines@.map_values(|l: String| l@) == ls,
                self.domains() == base.union(keys_of_lines(ls.subrange(0, i as int))),
            decreases lines@.len() - i,
        {
            let ghost before = self.domains();
            let line = trim_line(lines[i].as_str());
            assert(ls[i as int] == lines@[i as int]@);
            let ghost sub = ls.subrange(0, i as int);
            let ghost next = ls.subrange(0, i + 1);
            if line.unicode_len() > 0 && line.get_char(0) != '#' {
                assert(pattern_of(ls[i as int]) == Some(line@));
                self.insert(line);
                assert(keys_of_lines(next) =~= keys_of_lines(sub).insert(folded_key(line@))) by {
                    assert forall|k: Seq<Seq<char>>| keys_of_lines(next).contains(k) implies keys_of_lines(
                        sub,
                    ).insert(folded_key(line@)).contains(k) by {
                        let j = choose|j: int|
                            0 <= j < next.len() && #[trigger] pattern_of(next[j]) is Some && k
                                == folded_key(pattern_of(next[j])->Some_0);
                        if j < i {
                            assert(sub[j] == next[j]);
                        }
                    }
                    assert forall|k: Seq<Seq<char>>| keys_of_lines(sub).contains(k) implies keys_of_lines(
                        next,
                    ).contains(k) by {
                        let j = choose|j: int|
                            0 <= j < sub.len() && #[trigger] pattern_of(sub[j]) is Some && k
                                == folded_key(pattern_of(sub[j])->Some_0);
                        assert(sub[j] == next[j]);
                    }
                    assert(pattern_of(next[i as int]) is Some);
                }
                assert(self.domains() =~= base.union(keys_of_lines(next)));
            } else {
                assert(pattern_of(ls[i as int]) is None);
                assert(keys_of_lines(next) =~= keys_of_lines(sub)) by {
                    assert forall|k: Seq<Seq<char>>| keys_of_lines(next).contains(k) implies keys_of_lines(
                        sub,
                    ).contains(k) by {
                        let j = choose|j: int|
                            0 <= j < next.len() && #[trigger] pattern_of(next[j]) is Some && k
                                == folded_key(pattern_of(next[j])->Some_0);
                        assert(j != i);
                        assert(sub[j] == next[j]);
                    }
                    assert forall|k: Seq<Seq<char>>| keys_of_lines(sub).contains(k) implies keys_of_lines(
                        next,
                    ).contains(k) by {
                        let j = choose|j: int|
                            0 <= j < sub.len() && #[trigger] pattern_of(sub[j]) is Some && k
                                == folded_key(pattern_of(sub[j])->Some_0);
                        assert(sub[j] == next[j]);
                    }
                }
            }
            i = i + 1;
        }
        assert(ls.subrange(0, i as int) =~= ls);
    }

    /// A matcher holding the domains of every list in `lists`.
    pub fn new(lists: Vec<String>) -> (r: Domain)
        ensures
            forall|k: Seq<Seq<char>>| #[trigger]
                r.domains().contains(k) <==> exists|i: int|
                    0 <= i < lists@.len() && keys_of_lines(lines_of(lists@[i]@)).contains(k),
    {
        let mut d = Domain::empty();
        let mut i: usize = 0;
        while i < lists.len()
            invariant
                0 <= i <= lists@.len(),
                forall|k: Seq<Seq<char>>| #[trigger]
                    d.domains().contains(k) <==> exists|j: int|
                        0 <= j < i && keys_of_lines(lines_of(lists@[j]@)).contains(k),
            decreases lists@.len() - i,
        {
            d.insert_multi(lists[i].as_str());
            proof {
                assert forall|k: Seq<Seq<char>>| #[trigger]
                    d.domains().contains(k) <==> exists|j: int|
                        0 <= j < i + 1 && keys_of_lines(lines_of(lists@[j]@)).contains(k) by {
                    if keys_of_lines(lines_of(lists@[i as int]@)).contains(k) {
                        assert(0 <= i < i + 1);
                    }
                }
            }
            i = i + 1;
        }
        d
    }
}

impl Matcher for Domain {
    open spec fn accepts(&self, queries: Seq<Question>) -> bool {
        stored_suffix(self.domains(), folded_key(queries[0].name@))
    }

    /// The trie answers for the name and for each part of it after a dot,
    /// so that a stored domain matches every name below it.
    fn matches(&self, queries: &[Question]) -> (r: bool) {
        let folded = fold_case(queries[0].name.as_str());
        let t: &str = folded.as_str();
        let ghost d = self.domains();
        let n = t.unicode_len();
        let mut c: usize = n;
        let mut found = matcher_accepts(&self.alg, t.substring_char(n, n));
        proof {
            let e = t@.subrange(n as int, n as int);
            assert(e =~= Seq::<char>::empty());
            assert(labels_from(e, Seq::empty()) =~= Seq::<Seq<char>>::empty());
            let k = domain_key(e);
            assert(k =~= Seq::<Seq<char>>::empty());
            assert(k.subrange(0, 0) =~= k);
            if stored_suffix(d, k) {
                assert(suffix_accepts(d, k));
            }
        }
        let mut j: usize = n;
        while j > 0
            invariant
                0 <= j <= c <= n,
                n == t@.len(),
                c == n || after_dot(t@, c as int),
                no_dot_before(t@, j as int, c as int),
                found == stored_suffix(d, domain_key(t@.subrange(c as int, n as int))),
                d == self.domains(),
            decreases j,
        {
            j = j - 1;
            if t.get_char(j) == '.' && j + 1 < c {
                let c1 = j + 1;
                let a = matcher_accepts(&self.alg, t.substring_char(c1, n));
                proof {
                    lemma_key_step(t@, c1 as int, c as int);
                    lemma_accept_step(
                        d,
                        domain_key(t@.subrange(c1 as int, n as int)),
                        domain_key(t@.subrange(c as int, n as int)),
                    );
                }
                found = found || a;
                c = c1;
            }
        }
        if c > 0 {
            let a = matcher_accepts(&self.alg, t);
            proof {
                lemma_key_step(t@, 0, c as int);
                assert(t@.subrange(0, n as int) =~= t@);
                lemma_accept_step(d, domain_key(t@), domain_key(t@.subrange(c as int, n as int)));
            }
            found = found || a;
        } else {
            assert(t@.subrange(0, n as int) =~= t@);
        }
        found
    }
}

} // verus!
