use vstd::prelude::*;

verus! {

/// The part of a DNS question that the matchers read: its name, written
/// as text, and its record type code.
pub struct Question {
    pub name: String,
    pub qtype: u16,
}

/// Errors that may come up while building a matcher.
pub enum MatchError {
    /// A domain list could not be read; the message says why.
    IOError(String),
    /// A domain list could not be understood.
    Malformatted,
}

/// A predicate over the questions of a query.
pub trait Matcher {
    /// Whether the matcher accepts these questions.
    spec fn accepts(&self, queries: Seq<Question>) -> bool;

    /// Determine if the questions match.
    fn matches(&self, queries: &[Question]) -> (r: bool)
        requires
            queries@.len() > 0,
        ensures
            r == self.accepts(queries@),
    ;
}

/// The matcher that accepts everything.
pub struct Any;

impl Any {
    pub fn new() -> (r: Any) {
        Any
    }
}

impl Matcher for Any {
    open spec fn accepts(&self, queries: Seq<Question>) -> bool {
        true
    }

    fn matches(&self, queries: &[Question]) -> (r: bool) {
        true
    }
}

/// The matcher that accepts a query whose first question has one of the
/// given record types.
pub struct QType {
    pub types: Vec<u16>,
}

impl QType {
    pub fn new(types: Vec<u16>) -> (r: QType)
        ensures
            r.types@ == types@,
    {
        QType { types }
    }
}

impl Matcher for QType {
    open spec fn accepts(&self, queries: Seq<Question>) -> bool {
        self.types@.contains(queries[0].qtype)
    }

    fn matches(&self, queries: &[Question]) -> (r: bool) {
        let q = queries[0].qtype;
        let mut i: usize = 0;
        while i < self.types.len()
            invariant
                0 <= i <= self.types@.len(),
                q == queries@[0].qtype,
                forall|j: int| 0 <= j < i ==> self.types@[j] != q,
            decreases self.types@.len() - i,
        {
            if self.types[i] == q {
                return true;
            }
            i = i + 1;
        }
        false
    }
}

} // verus!
