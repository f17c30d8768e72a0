//! Clauses that no symbol row could answer, refused before anything is read.

use crate::clauses::{Clauses, GroupBy, Predicate};
use crate::columnar_storage::ColumnarStorage;
use crate::fields::{
    canonical, canonical_text, is_symbol_number_field, is_symbol_text_field, symbol_number_field,
    symbol_text_field,
};
use crate::segment::{contains_text, lists_text};
use vstd::prelude::*;

verus! {

/// The text fields of a symbol row that a refusal offers.
pub open spec fn groupable_text() -> Seq<char> {
    "name, fql_kind, language, path, node_id"@
}

/// The fields of a symbol row that a refusal offers.
pub open spec fn sortable_text() -> Seq<char> {
    groupable_text() + ", line, usages, count"@
}

/// A clause that names a field no symbol row can answer.
#[derive(Debug)]
pub enum FieldRefusal {
    /// A `WHERE` field that can never match.
    Where(String),
    /// An `ORDER BY` field on which every row would tie.
    OrderBy(String),
    /// A `GROUP BY` field under which every row would fall into one group.
    GroupBy(String),
}

impl FieldRefusal {
    /// The refusal in words.
    pub open spec fn text(&self) -> Seq<char> {
        match self {
            FieldRefusal::Where(field) => "unknown WHERE field '"@ + field@
                + "': it is not a field a symbol row carries and no indexed row carries an enrichment column with that name, so it can never match.  Symbol-row fields: "@
                + sortable_text()
                + ", plus any enrichment field.  To search file contents use SHOW LINES OF '<file>' WHERE text MATCHES '…' on specific files instead of FIND symbols."@,
            FieldRefusal::OrderBy(field) => "unknown ORDER BY field '"@ + field@
                + "': it is not a field a symbol row carries and no indexed row carries an enrichment column with that name, so every symbol would tie and fall back to name order.  Sortable fields: "@
                + sortable_text()
                + ", plus any enrichment field (lines, param_count, branch_count, …).  'size' and 'depth' apply to FIND files, not FIND symbols."@,
            FieldRefusal::GroupBy(field) => "GROUP BY '"@ + field@
                + "' cannot be answered: a symbol row does not resolve that name, so every symbol would fall into one empty-named group holding the whole result.  Group by "@
                + groupable_text()
                + ", or by any enrichment field.  'line', 'usages' and 'count' are numeric and are not groupable; 'size', 'depth' and 'extension' belong to FIND files."@,
        }
    }

    /// The refusal in words.
    pub fn message(&self) -> (s: String)
        ensures
            s@ == self.text(),
    {
        let mut out = String::new();
        match self {
            FieldRefusal::Where(field) => {
                out.append("unknown WHERE field '");
                out.append(field.as_str());
                out.append(
                    "': it is not a field a symbol row carries and no indexed row carries an enrichment column with that name, so it can never match.  Symbol-row fields: ",
                );
                out.append("name, fql_kind, language, path, node_id");
                out.append(", line, usages, count");
                out.append(
                    ", plus any enrichment field.  To search file contents use SHOW LINES OF '<file>' WHERE text MATCHES '…' on specific files instead of FIND symbols.",
                );
            },
            FieldRefusal::OrderBy(field) => {
                out.append("unknown ORDER BY field '");
                out.append(field.as_str());
                out.append(
                    "': it is not a field a symbol row carries and no indexed row carries an enrichment column with that name, so every symbol would tie and fall back to name order.  Sortable fields: ",
                );
                out.append("name, fql_kind, language, path, node_id");
                out.append(", line, usages, count");
                out.append(
                    ", plus any enrichment field (lines, param_count, branch_count, …).  'size' and 'depth' apply to FIND files, not FIND symbols.",
                );
            },
            FieldRefusal::GroupBy(field) => {
                out.append("GROUP BY '");
                out.append(field.as_str());
                out.append(
                    "' cannot be answered: a symbol row does not resolve that name, so every symbol would fall into one empty-named group holding the whole result.  Group by ",
                );
                out.append("name, fql_kind, language, path, node_id");
                out.append(
                    ", or by any enrichment field.  'line', 'usages' and 'count' are numeric and are not groupable; 'size', 'depth' and 'extension' belong to FIND files.",
                );
            },
        }
        assert(out@ =~= self.text());
        out
    }
}

/// Whether a symbol row answers a field, as text or as a number.
pub open spec fn symbol_field(field: Seq<char>) -> bool {
    symbol_text_field(field) || symbol_number_field(field)
}

impl ColumnarStorage {
    /// Whether a segment, of the overlay or of the session, stores an enrichment column.
    pub open spec fn stores_column(&self, field: Seq<char>) -> bool {
        ||| exists|i: int|
            0 <= i < self.seg_count() && (#[trigger] self.seg(i)).stores(field)
        ||| exists|i: int|
            0 <= i < self.dirty.added@.len() && (#[trigger] self.dirty.added@[i]).reader.stores(field)
    }

    /// Whether rows can carry a field as an enrichment: a registered language can write it, or a
    /// segment stores it. `known` are the fields that the registered languages write.
    pub open spec fn enriches(&self, field: Seq<char>, known: Seq<String>) -> bool {
        lists_text(known, field) || self.stores_column(field)
    }

    /// Whether rows can carry a field as an enrichment.
    pub fn carries_enrichment(&self, field: &str, known: &Vec<String>) -> (r: bool)
        requires
            self.wf(),
        ensures
            r == self.enriches(field@, known@),
    {
        if contains_text(known, field) {
            return true;
        }
        let mut i: usize = 0;
        while i < self.shared.segments.len()
            invariant
                i <= self.seg_count(),
                forall|k: int|
                    0 <= k < i ==> !(#[trigger] self.seg(k)).stores(field@),
            decreases self.shared.segments.len() - i,
        {
            if self.shared.segments[i].has_extra_col(field) {
                assert(self.seg(i as int).stores(field@));
                return true;
            }
            i += 1;
        }
        let mut j: usize = 0;
        while j < self.dirty.added.len()
            invariant
                j <= self.dirty.added@.len(),
                forall|k: int|
                    0 <= k < j ==> !(#[trigger] self.dirty.added@[k]).reader.stores(field@),
            decreases self.dirty.added.len() - j,
        {
            if self.dirty.added[j].reader.has_extra_col(field) {
                assert(self.dirty.added@[j as int].reader.stores(field@));
                return true;
            }
            j += 1;
        }
        false
    }

    /// Whether a symbol row can carry a field at all.
    pub open spec fn answers(&self, field: Seq<char>, known: Seq<String>) -> bool {
        symbol_field(canonical_text(field)) || self.enriches(canonical_text(field), known)
    }

    fn can_answer(&self, field: &str, known: &Vec<String>) -> (r: bool)
        requires
            self.wf(),
        ensures
            r == self.answers(field@, known@),
    {
        let name = canonical(field);
        is_symbol_text_field(name) || is_symbol_number_field(name) || self.carries_enrichment(
            name,
            known,
        )
    }

    /// The first predicate, at or after position `i`, on a field no symbol row can carry.
    pub open spec fn unanswered_from(&self, preds: Seq<Predicate>, known: Seq<String>, i: int) -> Option<
        Seq<char>,
    >
        decreases preds.len() - i,
    {
        if i >= preds.len() {
            None
        } else if self.answers(preds[i].field@, known) {
            self.unanswered_from(preds, known, i + 1)
        } else {
            Some(canonical_text(preds[i].field@))
        }
    }

    /// Refuses a `WHERE` on a field no symbol row can carry, naming the first.
    pub fn reject_unknown_where_fields(&self, clauses: &Clauses, known: &Vec<String>) -> (r: Result<
        (),
        FieldRefusal,
    >)
        requires
            self.wf(),
        ensures
            (match r {
                Ok(_) => self.unanswered_from(clauses.where_predicates@, known@, 0) is None,
                Err(e) => e is Where && self.unanswered_from(clauses.where_predicates@, known@, 0)
                    == Some(e->Where_0@),
            }),
    {
        let preds = &clauses.where_predicates;
        let mut i: usize = 0;
        while i < preds.len()
            invariant
                self.wf(),
                i <= preds@.len(),
                preds@ == clauses.where_predicates@,
                self.unanswered_from(preds@, known@, 0) == self.unanswered_from(
                    preds@,
                    known@,
                    i as int,
                ),
            decreases preds.len() - i,
        {
            if !self.can_answer(preds[i].field.as_str(), known) {
                return Err(FieldRefusal::Where(canonical(preds[i].field.as_str()).to_owned()));
            }
            i += 1;
        }
        Ok(())
    }

    /// Whether an `ORDER BY` names a field on which every row would tie.
    pub open spec fn orders_by_nothing(&self, clauses: Clauses, known: Seq<String>) -> bool {
        clauses.order_by is Some && !self.answers(clauses.order_by->0.field@, known)
    }

    /// Refuses an `ORDER BY` on a field no symbol row can carry.
    pub fn reject_unknown_order_by_field(&self, clauses: &Clauses, known: &Vec<String>) -> (r: Result<
        (),
        FieldRefusal,
    >)
        requires
            self.wf(),
        ensures
            (match r {
                Ok(_) => !self.orders_by_nothing(*clauses, known@),
                Err(e) => self.orders_by_nothing(*clauses, known@) && e is OrderBy
                    && e->OrderBy_0@ == canonical_text(clauses.order_by->0.field@),
            }),
    {
        match &clauses.order_by {
            Some(order) => if self.can_answer(order.field.as_str(), known) {
                Ok(())
            } else {
                Err(FieldRefusal::OrderBy(canonical(order.field.as_str()).to_owned()))
            },
            None => Ok(()),
        }
    }

    /// Whether a `GROUP BY` names a field that no row answers as text.
    pub open spec fn groups_by_nothing(&self, clauses: Clauses, known: Seq<String>) -> bool {
        match clauses.group_by {
            Some(GroupBy::Field(field)) => !symbol_text_field(canonical_text(field@))
                && !self.enriches(canonical_text(field@), known),
            _ => false,
        }
    }

    /// Refuses a `GROUP BY` on a field that no symbol row answers as text.
    pub fn reject_unknown_group_by_field(&self, clauses: &Clauses, known: &Vec<String>) -> (r: Result<
        (),
        FieldRefusal,
    >)
        requires
            self.wf(),
        ensures
            (match r {
                Ok(_) => !self.groups_by_nothing(*clauses, known@),
                Err(e) => self.groups_by_nothing(*clauses, known@) && e is GroupBy
                    && clauses.group_by->0 is Field && e->GroupBy_0@ == canonical_text(
                    clauses.group_by->0->Field_0@,
                ),
            }),
    {
        match &clauses.group_by {
            Some(GroupBy::Field(field)) => {
                let name = canonical(field.as_str());
                if is_symbol_text_field(name) || self.carries_enrichment(name, known) {
                    Ok(())
                } else {
                    Err(FieldRefusal::GroupBy(name.to_owned()))
                }
            },
            _ => Ok(()),
        }
    }
}

} // verus!
