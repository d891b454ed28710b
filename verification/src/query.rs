//! Queries: ordered lists of clauses.

use vstd::prelude::*;

verus! {

/// Where a clause's term may be extended by a wildcard.
#[derive(Debug, Clone, Copy, PartialEq, Eq, Structural)]
pub enum WildcardMode {
    NoWildcard,
    Leading,
    Traling,
}

/// What a clause asks of a document.
#[derive(Debug, Clone, Copy, PartialEq, Eq, Structural)]
pub enum Presence {
    /// The term adds to the score of a document that holds it.
    Optional,
    /// A document must hold the term.
    Required,
    /// A document must not hold the term.
    Prohibited,
}

/// One term of a query, with the fields it is looked for in, its weight and
/// what it asks of a document.
#[derive(Debug, Clone, PartialEq, Eq)]
pub struct Clause {
    pub term: String,
    pub fields: Option<Vec<String>>,
    pub boost: u64,
    pub use_pipeline: bool,
    pub wildcard: WildcardMode,
    pub presence: Presence,
}

impl Clause {
    /// An optional clause for `term` over all fields, with boost 1.
    pub fn new(term: String) -> (clause: Clause)
        ensures
            clause.term == term,
            clause.fields is None,
            clause.boost == 1,
            clause.use_pipeline,
            clause.wildcard == WildcardMode::NoWildcard,
            clause.presence == Presence::Optional,
    {
        Clause {
            term,
            fields: None,
            boost: 1,
            use_pipeline: true,
            wildcard: WildcardMode::NoWildcard,
            presence: Presence::Optional,
        }
    }

    pub fn term(&self) -> (term: &str)
        ensures
            term@ == self.term@,
    {
        self.term.as_str()
    }

    pub fn fields(&self) -> (fields: &Option<Vec<String>>)
        ensures
            *fields == self.fields,
    {
        &self.fields
    }

    pub fn boost(&self) -> (boost: u64)
        ensures
            boost == self.boost,
    {
        self.boost
    }

    pub fn use_pipeline(&self) -> (flag: bool)
        ensures
            flag == self.use_pipeline,
    {
        self.use_pipeline
    }

    pub fn wildcard(&self) -> (mode: WildcardMode)
        ensures
            mode == self.wildcard,
    {
        self.wildcard
    }

    pub fn presence(&self) -> (presence: Presence)
        ensures
            presence == self.presence,
    {
        self.presence
    }

    pub fn set_fields(&mut self, fields: Vec<String>)
        ensures
            final(self).fields == Some(fields),
            final(self).term == old(self).term,
            final(self).boost == old(self).boost,
            final(self).use_pipeline == old(self).use_pipeline,
            final(self).wildcard == old(self).wildcard,
            final(self).presence == old(self).presence,
    {
        self.fields = Some(fields);
    }

    pub fn set_boost(&mut self, boost: u64)
        ensures
            final(self).boost == boost,
            final(self).term == old(self).term,
            final(self).fields == old(self).fields,
            final(self).use_pipeline == old(self).use_pipeline,
            final(self).wildcard == old(self).wildcard,
            final(self).presence == old(self).presence,
    {
        self.boost = boost;
    }

    pub fn set_use_pipeline(&mut self, use_pipeline: bool)
        ensures
            final(self).use_pipeline == use_pipeline,
            final(self).term == old(self).term,
            final(self).fields == old(self).fields,
            final(self).boost == old(self).boost,
            final(self).wildcard == old(self).wildcard,
            final(self).presence == old(self).presence,
    {
        self.use_pipeline = use_pipeline;
    }

    pub fn set_wildcard(&mut self, wildcard: WildcardMode)
        ensures
            final(self).wildcard == wildcard,
            final(self).term == old(self).term,
            final(self).fields == old(self).fields,
            final(self).boost == old(self).boost,
            final(self).use_pipeline == old(self).use_pipeline,
            final(self).presence == old(self).presence,
    {
        self.wildcard = wildcard;
    }

    pub fn set_presence(&mut self, presence: Presence)
        ensures
            final(self).presence == presence,
            final(self).term == old(self).term,
            final(self).fields == old(self).fields,
            final(self).boost == old(self).boost,
            final(self).use_pipeline == old(self).use_pipeline,
            final(self).wildcard == old(self).wildcard,
    {
        self.presence = presence;
    }
}

/// An ordered list of clauses.
#[derive(Debug)]
pub struct Query {
    pub clauses: Vec<Clause>,
}

impl Query {
    /// The query without clauses.
    pub fn new() -> (query: Query)
        ensures
            query.clauses@.len() == 0,
    {
        Query { clauses: Vec::new() }
    }

    /// Puts `clause` at the end of the query.
    pub fn add_clause(&mut self, clause: Clause)
        ensures
            final(self).clauses@ == old(self).clauses@.push(clause),
    {
        self.clauses.push(clause);
    }

    /// Whether every clause is prohibited.
    pub open spec fn negated(&self) -> bool {
        forall|i: int| 0 <= i < self.clauses@.len() ==> (#[trigger] self.clauses@[i]).presence == Presence::Prohibited
    }

    /// Whether the query only says what a document must not hold: every
    /// clause is prohibited. The query without clauses is negated.
    pub fn is_negated(&self) -> (negated: bool)
        ensures
            negated == self.negated(),
    {
        let mut i: usize = 0;
        while i < self.clauses.len()
            invariant
                i <= self.clauses@.len(),
                forall|j: int| 0 <= j < i ==> (#[trigger] self.clauses@[j]).presence == Presence::Prohibited,
            decreases self.clauses@.len() - i,
        {
            if self.clauses[i].presence != Presence::Prohibited {
                return false;
            }
            i += 1;
        }
        true
    }
}

} // verus!
