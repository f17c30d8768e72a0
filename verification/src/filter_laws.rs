//! What `WHERE` and `ORDER BY` promise of rows, whatever rows they are.

use crate::clauses::{CompareOp, OrderBy, Predicate, PredicateValue, SortDirection};
use crate::fields::canonical_text;
use crate::filter::{
    like_accepts, like_at, reader_of, row_before, row_satisfies, ClauseTarget,
};
use crate::order::{lemma_text_total, text_before};
use crate::pattern::{regex_accepts, regex_compiles};
use vstd::prelude::*;
use vstd::string::*;

verus! {

// ───────────────────────────── numbers ─────────────────────────────

/// A comparison with a number goes by the order of numbers: below the bound `<`, `<=` and `!=` hold
/// and no other, at the bound `<=`, `>=` and `=`, above it `>`, `>=` and `!=`. A row that reads the
/// field as no number satisfies none of them.
pub proof fn lemma_numbers_compare_by_their_order<T: ClauseTarget>(row: &T, p: Predicate, bound: i64)
    requires
        p.value == PredicateValue::Number(bound),
        p.op != CompareOp::NotLike,
        p.op != CompareOp::NotMatches,
    ensures
        ({
            let read = row.number_of(canonical_text(p.field@));
            let holds = row_satisfies(row, p);
            &&& read is None ==> !holds
            &&& read is Some && read->0 < bound ==> (holds <==> p.op == CompareOp::Lt || p.op
                == CompareOp::Lte || p.op == CompareOp::NotEq)
            &&& read is Some && read->0 == bound ==> (holds <==> p.op == CompareOp::Lte || p.op
                == CompareOp::Gte || p.op == CompareOp::Eq)
            &&& read is Some && read->0 > bound ==> (holds <==> p.op == CompareOp::Gt || p.op
                == CompareOp::Gte || p.op == CompareOp::NotEq)
        }),
{
}

/// Whether one operator is the denial of another, of values that can be compared.
pub open spec fn denies(a: CompareOp, b: CompareOp) -> bool {
    ||| a == CompareOp::Lte && b == CompareOp::Gt
    ||| a == CompareOp::Gte && b == CompareOp::Lt
    ||| a == CompareOp::Eq && b == CompareOp::NotEq
}

/// Of a row that reads the field as a number, `<=` holds exactly where `>` does not, `>=` exactly
/// where `<` does not, and `=` exactly where `!=` does not.
pub proof fn lemma_number_operators_deny_each_other<T: ClauseTarget>(
    row: &T,
    p: Predicate,
    q: Predicate,
)
    requires
        p.value is Number,
        p.value == q.value,
        p.field@ == q.field@,
        denies(p.op, q.op),
        row.number_of(canonical_text(p.field@)) is Some,
    ensures
        row_satisfies(row, p) != row_satisfies(row, q),
{
}

/// A row that equals a bound is within it from either side, and within both sides only where it
/// equals it.
pub proof fn lemma_equality_is_both_bounds<T: ClauseTarget>(
    row: &T,
    equal: Predicate,
    most: Predicate,
    least: Predicate,
)
    requires
        equal.value is Number,
        equal.op == CompareOp::Eq,
        most.op == CompareOp::Lte,
        least.op == CompareOp::Gte,
        most.value == equal.value,
        least.value == equal.value,
        most.field@ == equal.field@,
        least.field@ == equal.field@,
    ensures
        row_satisfies(row, equal) <==> row_satisfies(row, most) && row_satisfies(row, least),
{
}

/// A row that is within a bound is within every wider one.
pub proof fn lemma_wider_bounds_keep_rows<T: ClauseTarget>(
    row: &T,
    p: Predicate,
    q: Predicate,
    low: i64,
    high: i64,
)
    requires
        low <= high,
        p.field@ == q.field@,
        p.op == q.op,
    ensures
        (p.op == CompareOp::Lt || p.op == CompareOp::Lte) && p.value == PredicateValue::Number(low)
            && q.value == PredicateValue::Number(high) && row_satisfies(row, p) ==> row_satisfies(
            row,
            q,
        ),
        (p.op == CompareOp::Gt || p.op == CompareOp::Gte) && p.value == PredicateValue::Number(high)
            && q.value == PredicateValue::Number(low) && row_satisfies(row, p) ==> row_satisfies(
            row,
            q,
        ),
{
}

/// A number is no text: no pattern matches it, and every row satisfies that one does not match.
pub proof fn lemma_patterns_do_not_match_numbers<T: ClauseTarget>(row: &T, p: Predicate)
    requires
        p.value is Number || p.value is Bool,
    ensures
        p.op == CompareOp::Like || p.op == CompareOp::Matches ==> !row_satisfies(row, p),
        p.op == CompareOp::NotLike || p.op == CompareOp::NotMatches ==> row_satisfies(row, p),
{
}

// ───────────────────────────── texts ─────────────────────────────

/// A comparison with a text: `=` holds where the row reads the field as that very text, a pattern
/// where it accepts what the row reads, and no text comes before or after a bound. A row that reads
/// the field as no text satisfies none of them, the denials among them.
pub proof fn lemma_texts_compare_by_what_they_hold<T: ClauseTarget>(
    row: &T,
    p: Predicate,
    value: Seq<char>,
)
    requires
        p.value is String,
        p.value->String_0@ == value,
    ensures
        ({
            let read = row.text_of(canonical_text(p.field@));
            let holds = row_satisfies(row, p);
            &&& read is None ==> !holds
            &&& p.op == CompareOp::Eq ==> (holds <==> read == Some(value))
            &&& p.op == CompareOp::NotEq ==> (holds <==> read is Some && read != Some(value))
            &&& p.op == CompareOp::Like && read is Some ==> holds == like_accepts(read->0, value)
            &&& p.op == CompareOp::NotLike && read is Some ==> holds != like_accepts(read->0, value)
            &&& p.op == CompareOp::Matches && read is Some && regex_compiles(value) ==> holds
                == regex_accepts(value, read->0)
            &&& p.op == CompareOp::NotMatches && read is Some && regex_compiles(value) ==> holds
                != regex_accepts(value, read->0)
            &&& (p.op == CompareOp::Matches || p.op == CompareOp::NotMatches) && !regex_compiles(
                value,
            ) ==> !holds
            &&& p.op == CompareOp::Lt || p.op == CompareOp::Lte || p.op == CompareOp::Gt || p.op
                == CompareOp::Gte ==> !holds
        }),
{
}

/// A truth value is its word: `= true` holds where the row reads `true`, `= false` where it reads
/// `false`, and `!=` where it reads anything else.
pub proof fn lemma_truth_values_are_words<T: ClauseTarget>(row: &T, p: Predicate, truth: bool)
    requires
        p.value == PredicateValue::Bool(truth),
    ensures
        ({
            let read = row.text_of(canonical_text(p.field@));
            let word = if truth {
                seq!['t', 'r', 'u', 'e']
            } else {
                seq!['f', 'a', 'l', 's', 'e']
            };
            &&& p.op == CompareOp::Eq ==> (row_satisfies(row, p) <==> read == Some(word))
            &&& p.op == CompareOp::NotEq ==> (row_satisfies(row, p) <==> read is Some && read
                != Some(word))
            &&& p.op == CompareOp::Lt || p.op == CompareOp::Lte || p.op == CompareOp::Gt || p.op
                == CompareOp::Gte ==> !row_satisfies(row, p)
        }),
{
    reveal_strlit("true");
    reveal_strlit("false");
    assert("true"@ =~= seq!['t', 'r', 'u', 'e']);
    assert("false"@ =~= seq!['f', 'a', 'l', 's', 'e']);
}

// ───────────────────────────── LIKE ─────────────────────────────

/// A pattern without wildcards accepts itself alone.
pub proof fn lemma_a_plain_pattern_accepts_itself(text: Seq<char>, pattern: Seq<char>)
    requires
        !pattern.contains('%'),
        !pattern.contains('_'),
    ensures
        like_accepts(text, pattern) <==> text == pattern,
{
    lemma_plain_from(text, pattern, 0);
    if like_accepts(text, pattern) {
        assert(text =~= pattern);
    }
}

proof fn lemma_plain_from(text: Seq<char>, pattern: Seq<char>, i: int)
    requires
        0 <= i <= pattern.len(),
        i <= text.len(),
        !pattern.contains('%'),
        !pattern.contains('_'),
    ensures
        like_at(text, i, pattern, i) <==> text.len() == pattern.len() && forall|k: int|
            i <= k < pattern.len() ==> text[k] == pattern[k],
    decreases pattern.len() - i,
{
    if i < pattern.len() {
        assert(pattern.contains(pattern[i]));
        if i < text.len() {
            lemma_plain_from(text, pattern, i + 1);
        }
    }
}

/// `%` accepts every text, and `_` every text of one character and no other.
pub proof fn lemma_wildcards_accept(text: Seq<char>)
    ensures
        like_accepts(text, seq!['%']),
        like_accepts(text, seq!['_']) <==> text.len() == 1,
{
    lemma_any_from(text, 0);
    reveal_with_fuel(like_at, 3);
}

proof fn lemma_any_from(text: Seq<char>, j: int)
    requires
        0 <= j <= text.len(),
    ensures
        like_at(text, j, seq!['%'], 0),
    decreases text.len() - j,
{
    reveal_with_fuel(like_at, 2);
    if j < text.len() {
        lemma_any_from(text, j + 1);
    }
}

/// A pattern of two halves accepts exactly the texts of two parts of which each half accepts one.
pub proof fn lemma_a_pattern_accepts_part_by_part(text: Seq<char>, left: Seq<char>, right: Seq<char>)
    ensures
        like_accepts(text, left + right) <==> exists|n: int|
            0 <= n <= text.len() && like_accepts(#[trigger] text.take(n), left) && like_accepts(
                text.skip(n),
                right,
            ),
{
    let whole = left + right;
    if like_accepts(text, whole) {
        let n = lemma_split(text, 0, left, 0, right);
        lemma_cut_right(text, n, 0, left, right, 0);
    }
    if exists|n: int|
        0 <= n <= text.len() && like_accepts(#[trigger] text.take(n), left) && like_accepts(
            text.skip(n),
            right,
        ) {
        let n = choose|n: int|
            0 <= n <= text.len() && like_accepts(#[trigger] text.take(n), left) && like_accepts(
                text.skip(n),
                right,
            );
        lemma_cut_right(text, n, 0, left, right, 0);
        lemma_paste(text, n, 0, left, 0, right);
    }
}

proof fn lemma_split(text: Seq<char>, j: int, left: Seq<char>, i: int, right: Seq<char>) -> (n: int)
    requires
        0 <= j <= text.len(),
        0 <= i <= left.len(),
        like_at(text, j, left + right, i),
    ensures
        j <= n <= text.len(),
        like_at(text.take(n), j, left, i),
        like_at(text, n, left + right, left.len() as int),
    decreases left.len() - i, text.len() - j,
{
    let whole = left + right;
    if i >= left.len() {
        assert(text.take(j).len() == j);
        j
    } else {
        assert(whole[i] == left[i]);
        if left[i] == '%' {
            if like_at(text, j, whole, i + 1) {
                let n = lemma_split(text, j, left, i + 1, right);
                n
            } else {
                let n = lemma_split(text, j + 1, left, i, right);
                assert(text.take(n).len() == n);
                n
            }
        } else {
            let n = lemma_split(text, j + 1, left, i + 1, right);
            assert(text.take(n)[j] == text[j]);
            n
        }
    }
}

proof fn lemma_cut_right(
    text: Seq<char>,
    n: int,
    k: int,
    left: Seq<char>,
    right: Seq<char>,
    i: int,
)
    requires
        0 <= n <= text.len(),
        0 <= k <= text.len() - n,
        0 <= i <= right.len(),
    ensures
        like_at(text.skip(n), k, right, i) == like_at(text, n + k, left + right, left.len() + i),
    decreases right.len() - i, text.len() - n - k,
{
    let whole = left + right;
    assert(text.skip(n).len() == text.len() - n);
    if i < right.len() {
        assert(whole[left.len() + i] == right[i]);
        lemma_cut_right(text, n, k, left, right, i + 1);
        if k < text.len() - n {
            assert(text.skip(n)[k] == text[n + k]);
            lemma_cut_right(text, n, k + 1, left, right, i);
            lemma_cut_right(text, n, k + 1, left, right, i + 1);
        }
    }
}

proof fn lemma_paste(text: Seq<char>, n: int, j: int, left: Seq<char>, i: int, right: Seq<char>)
    requires
        0 <= j <= n <= text.len(),
        0 <= i <= left.len(),
        like_at(text.take(n), j, left, i),
        like_at(text, n, left + right, left.len() as int),
    ensures
        like_at(text, j, left + right, i),
    decreases left.len() - i, n - j,
{
    let whole = left + right;
    let head = text.take(n);
    assert(head.len() == n);
    if i < left.len() {
        assert(whole[i] == left[i]);
        if left[i] == '%' {
            if like_at(head, j, left, i + 1) {
                lemma_paste(text, n, j, left, i + 1, right);
            } else {
                lemma_paste(text, n, j + 1, left, i, right);
            }
        } else {
            assert(head[j] == text[j]);
            lemma_paste(text, n, j + 1, left, i + 1, right);
        }
    }
}

// ───────────────────────────── ORDER BY ─────────────────────────────

/// Whether a field is one of those that a symbol row holds as text.
pub open spec fn is_text_of_a_row(field: Seq<char>) -> bool {
    ||| field == seq!['n', 'a', 'm', 'e']
    ||| field == seq!['n', 'o', 'd', 'e', '_', 'k', 'i', 'n', 'd']
    ||| field == seq!['f', 'q', 'l', '_', 'k', 'i', 'n', 'd']
    ||| field == seq!['l', 'a', 'n', 'g', 'u', 'a', 'g', 'e']
    ||| field == seq!['p', 'a', 't', 'h']
    ||| field == seq!['n', 'o', 'd', 'e', '_', 'i', 'd']
}

proof fn lemma_text_fields(field: Seq<char>)
    ensures
        crate::fields::symbol_text_field(field) <==> is_text_of_a_row(field),
{
    reveal_strlit("name");
    reveal_strlit("node_kind");
    reveal_strlit("fql_kind");
    reveal_strlit("language");
    reveal_strlit("path");
    reveal_strlit("node_id");
    assert("name"@ =~= seq!['n', 'a', 'm', 'e']);
    assert("node_kind"@ =~= seq!['n', 'o', 'd', 'e', '_', 'k', 'i', 'n', 'd']);
    assert("fql_kind"@ =~= seq!['f', 'q', 'l', '_', 'k', 'i', 'n', 'd']);
    assert("language"@ =~= seq!['l', 'a', 'n', 'g', 'u', 'a', 'g', 'e']);
    assert("path"@ =~= seq!['p', 'a', 't', 'h']);
    assert("node_id"@ =~= seq!['n', 'o', 'd', 'e', '_', 'i', 'd']);
}

/// The fields that a row holds itself are its texts and its numbers.
pub proof fn lemma_own_fields(field: Seq<char>)
    ensures
        crate::columnar_storage::refusals::symbol_field(field) <==> is_text_of_a_row(field)
            || is_number_of_a_row(field),
{
    lemma_text_fields(field);
    lemma_number_fields(field);
}

/// A ranking by a number is one: where two rows read the field of an `ORDER BY` as numbers, and it is
/// none of those a row holds as text, the smaller number comes strictly first ascending and strictly
/// last descending. A row that reads no number comes before every row that does.
pub proof fn lemma_numbers_rank_rows<T: ClauseTarget>(a: &T, b: &T, o: OrderBy)
    requires
        !is_text_of_a_row(canonical_text(o.field@)),
        ({
            let f = canonical_text(o.field@);
            b.number_of(f) is Some && (a.number_of(f) is None || a.number_of(f)->0 < b.number_of(
                f,
            )->0)
        }),
    ensures
        o.direction == SortDirection::Asc ==> row_before(reader_of(a), reader_of(b), Some(o))
            && !row_before(reader_of(b), reader_of(a), Some(o)),
        o.direction == SortDirection::Desc ==> row_before(reader_of(b), reader_of(a), Some(o))
            && !row_before(reader_of(a), reader_of(b), Some(o)),
{
    lemma_text_fields(canonical_text(o.field@));
}

/// A ranking by a text that a row holds goes by the text, whatever number it could be read as: the
/// one that comes first in dictionary order comes strictly first ascending, strictly last descending.
pub proof fn lemma_texts_rank_rows<T: ClauseTarget>(a: &T, b: &T, o: OrderBy)
    requires
        is_text_of_a_row(canonical_text(o.field@)),
        ({
            let f = canonical_text(o.field@);
            b.text_of(f) is Some && (a.text_of(f) is None || text_before(
                a.text_of(f)->0,
                b.text_of(f)->0,
            ))
        }),
    ensures
        o.direction == SortDirection::Asc ==> row_before(reader_of(a), reader_of(b), Some(o))
            && !row_before(reader_of(b), reader_of(a), Some(o)),
        o.direction == SortDirection::Desc ==> row_before(reader_of(b), reader_of(a), Some(o))
            && !row_before(reader_of(a), reader_of(b), Some(o)),
{
    let f = canonical_text(o.field@);
    lemma_text_fields(f);
    lemma_number_fields(f);
    if a.text_of(f) is Some {
        lemma_text_total(a.text_of(f)->0, b.text_of(f)->0);
    }
}

/// Whether a field is one of those that a symbol row holds as a number.
pub open spec fn is_number_of_a_row(field: Seq<char>) -> bool {
    ||| field == seq!['l', 'i', 'n', 'e']
    ||| field == seq!['u', 's', 'a', 'g', 'e', 's']
    ||| field == seq!['c', 'o', 'u', 'n', 't']
}

proof fn lemma_number_fields(field: Seq<char>)
    ensures
        crate::fields::symbol_number_field(field) <==> is_number_of_a_row(field),
        is_text_of_a_row(field) ==> !is_number_of_a_row(field),
{
    reveal_strlit("line");
    reveal_strlit("usages");
    reveal_strlit("count");
    assert("line"@ =~= seq!['l', 'i', 'n', 'e']);
    assert("usages"@ =~= seq!['u', 's', 'a', 'g', 'e', 's']);
    assert("count"@ =~= seq!['c', 'o', 'u', 'n', 't']);
    let line = seq!['l', 'i', 'n', 'e'];
    let usages = seq!['u', 's', 'a', 'g', 'e', 's'];
    let count = seq!['c', 'o', 'u', 'n', 't'];
    assert(line[0] == 'l' && line.len() == 4 && usages[0] == 'u' && count[0] == 'c');
    assert(seq!['l', 'a', 'n', 'g', 'u', 'a', 'g', 'e'].len() == 8);
    assert(seq!['n', 'a', 'm', 'e'][0] == 'n');
    assert(seq!['n', 'o', 'd', 'e', '_', 'k', 'i', 'n', 'd'][0] == 'n');
    assert(seq!['f', 'q', 'l', '_', 'k', 'i', 'n', 'd'][0] == 'f');
    assert(seq!['p', 'a', 't', 'h'][0] == 'p');
    assert(seq!['n', 'o', 'd', 'e', '_', 'i', 'd'][0] == 'n');
}

/// A field that a row does not hold itself and that two rows do not tell apart as a number is ranked by
/// its text.
pub proof fn lemma_words_rank_rows<T: ClauseTarget>(a: &T, b: &T, o: OrderBy)
    requires
        !is_text_of_a_row(canonical_text(o.field@)),
        !is_number_of_a_row(canonical_text(o.field@)),
        a.number_of(canonical_text(o.field@)) == b.number_of(canonical_text(o.field@)),
        ({
            let f = canonical_text(o.field@);
            b.text_of(f) is Some && (a.text_of(f) is None || text_before(
                a.text_of(f)->0,
                b.text_of(f)->0,
            ))
        }),
    ensures
        o.direction == SortDirection::Asc ==> row_before(reader_of(a), reader_of(b), Some(o))
            && !row_before(reader_of(b), reader_of(a), Some(o)),
        o.direction == SortDirection::Desc ==> row_before(reader_of(b), reader_of(a), Some(o))
            && !row_before(reader_of(a), reader_of(b), Some(o)),
{
    let f = canonical_text(o.field@);
    lemma_text_fields(f);
    lemma_number_fields(f);
    if a.text_of(f) is Some {
        lemma_text_total(a.text_of(f)->0, b.text_of(f)->0);
    }
}

/// Rows that an `ORDER BY` does not tell apart, whichever way it runs, and rows of a query without
/// one, are ranked by name, among those of one name by line, and among those of one name and line by
/// path.
pub proof fn lemma_ties_are_broken_by_name_and_line<T: ClauseTarget>(
    a: &T,
    b: &T,
    order_by: Option<OrderBy>,
)
    requires
        order_by is Some ==> {
            let f = canonical_text(order_by->0.field@);
            a.text_of(f) == b.text_of(f) && a.number_of(f) == b.number_of(f)
        },
    ensures
        ({
            let (name, line) = (seq!['n', 'a', 'm', 'e'], seq!['l', 'i', 'n', 'e']);
            let named = a.text_of(name) is Some && b.text_of(name) is Some;
            let lined = a.number_of(line) is Some && b.number_of(line) is Some;
            &&& named && text_before(a.text_of(name)->0, b.text_of(name)->0) ==> row_before(
                reader_of(a),
                reader_of(b),
                order_by,
            )
            &&& named && a.text_of(name) == b.text_of(name) && lined && a.number_of(line)->0
                < b.number_of(line)->0 ==> row_before(reader_of(a), reader_of(b), order_by)
            &&& a.text_of(name) == b.text_of(name) && a.number_of(line) == b.number_of(line)
                && a.text_of(seq!['p', 'a', 't', 'h']) is Some && b.text_of(
                seq!['p', 'a', 't', 'h'],
            ) is Some && text_before(
                a.text_of(seq!['p', 'a', 't', 'h'])->0,
                b.text_of(seq!['p', 'a', 't', 'h'])->0,
            ) ==> row_before(reader_of(a), reader_of(b), order_by)
        }),
{
    let (name, line) = (seq!['n', 'a', 'm', 'e'], seq!['l', 'i', 'n', 'e']);
    reveal_strlit("name");
    reveal_strlit("line");
    assert("name"@ =~= name);
    assert("line"@ =~= line);
    lemma_text_fields(name);
    lemma_text_fields(line);
    lemma_number_fields(name);
    lemma_number_fields(line);
    assert(!is_text_of_a_row(line)) by {
        assert(line[0] == 'l' && line.len() == 4);
        assert(seq!['l', 'a', 'n', 'g', 'u', 'a', 'g', 'e'].len() == 8);
        assert(seq!['n', 'a', 'm', 'e'][0] == 'n');
        assert(seq!['n', 'o', 'd', 'e', '_', 'k', 'i', 'n', 'd'][0] == 'n');
        assert(seq!['f', 'q', 'l', '_', 'k', 'i', 'n', 'd'][0] == 'f');
        assert(seq!['p', 'a', 't', 'h'][0] == 'p');
        assert(seq!['n', 'o', 'd', 'e', '_', 'i', 'd'][0] == 'n');
    }
    if order_by is Some {
        let f = canonical_text(order_by->0.field@);
        if a.text_of(f) is Some {
            lemma_text_total(a.text_of(f)->0, a.text_of(f)->0);
        }
    }
    if a.text_of(name) is Some && b.text_of(name) is Some {
        lemma_text_total(a.text_of(name)->0, b.text_of(name)->0);
        lemma_text_total(a.text_of(name)->0, a.text_of(name)->0);
    }
    let path = seq!['p', 'a', 't', 'h'];
    reveal_strlit("path");
    assert("path"@ =~= path);
    lemma_text_fields(path);
    lemma_number_fields(path);
    if a.text_of(path) is Some && b.text_of(path) is Some {
        lemma_text_total(a.text_of(path)->0, b.text_of(path)->0);
    }
    if a.text_of(name) is Some {
        lemma_text_total(a.text_of(name)->0, a.text_of(name)->0);
    }
    reveal_with_fuel(crate::filter::ties_before, 4);
}

} // verus!
