//! The clauses of a query: predicates, ordering, grouping, paging and path scope.

use vstd::prelude::*;
use vstd::string::*;

verus! {

/// How a predicate compares a field with a value.
#[derive(Clone, Copy, Debug, PartialEq, Eq, Structural)]
pub enum CompareOp {
    Eq,
    NotEq,
    Like,
    NotLike,
    Matches,
    NotMatches,
    Gt,
    Gte,
    Lt,
    Lte,
}

/// What a predicate compares a field with.
#[derive(Debug)]
pub enum PredicateValue {
    String(String),
    Number(i64),
    Bool(bool),
}

/// One comparison of a `WHERE` or a `HAVING`.
#[derive(Debug)]
pub struct Predicate {
    pub field: String,
    pub op: CompareOp,
    pub value: PredicateValue,
}

/// Which way an ordering runs.
#[derive(Clone, Copy, Debug, PartialEq, Eq, Structural)]
pub enum SortDirection {
    Asc,
    Desc,
}

/// An `ORDER BY`.
#[derive(Debug)]
pub struct OrderBy {
    pub field: String,
    pub direction: SortDirection,
}

/// A `GROUP BY`.
#[derive(Debug)]
pub enum GroupBy {
    Field(String),
}

/// The clauses of a query.
#[derive(Debug)]
pub struct Clauses {
    pub where_predicates: Vec<Predicate>,
    pub having_predicates: Vec<Predicate>,
    pub order_by: Option<OrderBy>,
    pub group_by: Option<GroupBy>,
    pub limit: Option<usize>,
    pub offset: Option<usize>,
    /// `IN`: only the paths that this glob selects.
    pub in_glob: Option<String>,
    /// `EXCLUDE`: none of the paths that these globs select.
    pub exclude_globs: Vec<String>,
}

impl Default for Clauses {
    /// A query without clauses.
    fn default() -> (c: Clauses)
        ensures
            c.where_predicates@.len() == 0,
            c.having_predicates@.len() == 0,
            c.order_by is None,
            c.group_by is None,
            c.limit is None,
            c.offset is None,
            c.in_glob is None,
            c.exclude_globs@.len() == 0,
    {
        Clauses {
            where_predicates: Vec::new(),
            having_predicates: Vec::new(),
            order_by: None,
            group_by: None,
            limit: None,
            offset: None,
            in_glob: None,
            exclude_globs: Vec::new(),
        }
    }
}

impl PredicateValue {
    /// The text of a string value.
    pub open spec fn text(&self) -> Option<Seq<char>> {
        match self {
            PredicateValue::String(s) => Some(s@),
            _ => None,
        }
    }

    /// Whether two values are the same, text compared by its characters.
    pub open spec fn same(&self, other: &PredicateValue) -> bool {
        match (self, other) {
            (PredicateValue::String(a), PredicateValue::String(b)) => a@ == b@,
            (PredicateValue::Number(a), PredicateValue::Number(b)) => a == b,
            (PredicateValue::Bool(a), PredicateValue::Bool(b)) => a == b,
            _ => false,
        }
    }

    /// A copy of this value.
    pub fn copied(&self) -> (r: PredicateValue)
        ensures
            r == *self,
    {
        match self {
            PredicateValue::String(s) => PredicateValue::String(s.clone()),
            PredicateValue::Number(n) => PredicateValue::Number(*n),
            PredicateValue::Bool(b) => PredicateValue::Bool(*b),
        }
    }
}

impl Predicate {
    /// A copy of this predicate.
    pub fn copied(&self) -> (r: Predicate)
        ensures
            r == *self,
    {
        Predicate { field: self.field.clone(), op: self.op, value: self.value.copied() }
    }
}

impl Clauses {
    /// Whether nothing removes rows once a page has been cut.
    pub open spec fn pages_last(&self) -> bool {
        self.having_predicates@.len() == 0
    }

    /// Whether an `IN` or an `EXCLUDE` is written.
    pub open spec fn scopes_paths(&self) -> bool {
        self.in_glob is Some || self.exclude_globs@.len() > 0
    }
}

/// Whether nothing removes rows once a page has been cut: a `HAVING` does.
pub fn no_having_after_paging(clauses: &Clauses) -> (r: bool)
    ensures
        r == clauses.pages_last(),
{
    clauses.having_predicates.len() == 0
}

/// Whether an `IN` or an `EXCLUDE` is written.
pub fn has_path_filter(clauses: &Clauses) -> (r: bool)
    ensures
        r == clauses.scopes_paths(),
{
    clauses.in_glob.is_some() || clauses.exclude_globs.len() > 0
}

} // verus!
