//! What clauses read of a row.

use crate::columnar_storage::handles_laws::lemma_a_numeral_reads_back;
use crate::fields::canonical_text;
use crate::filter::ClauseTarget;
use crate::segment::{extra_from, opt_string, SymbolMatch};
use crate::text::{decimal, is_digit, lemma_decimal_reads_back, signed_of};
use vstd::prelude::*;
use vstd::string::*;

verus! {

/// A field can be asked for by another name: `kind` is `fql_kind`, `file` is `path` and `lang` is
/// `language`. Every other name is its own.
pub proof fn lemma_fields_have_short_names(field: Seq<char>)
    ensures
        canonical_text(seq!['k', 'i', 'n', 'd']) == seq!['f', 'q', 'l', '_', 'k', 'i', 'n', 'd'],
        canonical_text(seq!['f', 'i', 'l', 'e']) == seq!['p', 'a', 't', 'h'],
        canonical_text(seq!['l', 'a', 'n', 'g']) == seq!['l', 'a', 'n', 'g', 'u', 'a', 'g', 'e'],
        field != seq!['k', 'i', 'n', 'd'] && field != seq!['f', 'i', 'l', 'e'] && field != seq![
            'l',
            'a',
            'n',
            'g',
        ] ==> canonical_text(field) == field,
{
    reveal_strlit("kind");
    reveal_strlit("file");
    reveal_strlit("lang");
    reveal_strlit("fql_kind");
    reveal_strlit("path");
    reveal_strlit("language");
    assert("kind"@ =~= seq!['k', 'i', 'n', 'd']);
    assert("file"@ =~= seq!['f', 'i', 'l', 'e']);
    assert("lang"@ =~= seq!['l', 'a', 'n', 'g']);
    assert("fql_kind"@ =~= seq!['f', 'q', 'l', '_', 'k', 'i', 'n', 'd']);
    assert("path"@ =~= seq!['p', 'a', 't', 'h']);
    assert("language"@ =~= seq!['l', 'a', 'n', 'g', 'u', 'a', 'g', 'e']);
    assert("kind"@[0] == 'k' && "file"@[0] == 'f' && "lang"@[0] == 'l');
}

/// What a row carries can be asked for under its name: its name, kind, language, path and handle as
/// texts, its line, its usages and its count as numbers.
pub proof fn lemma_a_row_reads_what_it_carries(row: SymbolMatch)
    ensures
        row.text_of(seq!['n', 'a', 'm', 'e']) == Some(row.name@),
        row.text_of(seq!['f', 'q', 'l', '_', 'k', 'i', 'n', 'd']) == opt_string(row.fql_kind),
        row.text_of(seq!['l', 'a', 'n', 'g', 'u', 'a', 'g', 'e']) == opt_string(row.language),
        row.text_of(seq!['p', 'a', 't', 'h']) == opt_string(row.path),
        row.text_of(seq!['n', 'o', 'd', 'e', '_', 'i', 'd']) == opt_string(row.node_id),
        row.line is Some && row.line->0 <= i64::MAX ==> row.number_of(seq!['l', 'i', 'n', 'e'])
            == Some(row.line->0 as int),
        row.line is None ==> row.number_of(seq!['l', 'i', 'n', 'e']) is None,
        row.usages_count is Some && row.usages_count->0 <= i64::MAX ==> row.number_of(
            seq!['u', 's', 'a', 'g', 'e', 's'],
        ) == Some(row.usages_count->0 as int),
        row.count is Some && row.count->0 <= i64::MAX ==> row.number_of(
            seq!['c', 'o', 'u', 'n', 't'],
        ) == Some(row.count->0 as int),
        row.count is None ==> row.number_of(seq!['c', 'o', 'u', 'n', 't']) is None,
{
    lemma_names();
}

proof fn lemma_names()
    ensures
        "name"@ == seq!['n', 'a', 'm', 'e'],
        "node_kind"@ == seq!['n', 'o', 'd', 'e', '_', 'k', 'i', 'n', 'd'],
        "fql_kind"@ == seq!['f', 'q', 'l', '_', 'k', 'i', 'n', 'd'],
        "language"@ == seq!['l', 'a', 'n', 'g', 'u', 'a', 'g', 'e'],
        "path"@ == seq!['p', 'a', 't', 'h'],
        "node_id"@ == seq!['n', 'o', 'd', 'e', '_', 'i', 'd'],
        "line"@ == seq!['l', 'i', 'n', 'e'],
        "usages"@ == seq!['u', 's', 'a', 'g', 'e', 's'],
        "count"@ == seq!['c', 'o', 'u', 'n', 't'],
        "name"@.len() == 4 && "node_kind"@.len() == 9 && "fql_kind"@.len() == 8 && "language"@.len()
            == 8 && "path"@.len() == 4 && "node_id"@.len() == 7 && "line"@.len() == 4
            && "usages"@.len() == 6 && "count"@.len() == 5,
        "name"@[0] == 'n' && "path"@[0] == 'p' && "line"@[0] == 'l' && "fql_kind"@[0] == 'f'
            && "language"@[0] == 'l',
{
    reveal_strlit("name");
    reveal_strlit("node_kind");
    reveal_strlit("fql_kind");
    reveal_strlit("language");
    reveal_strlit("path");
    reveal_strlit("node_id");
    reveal_strlit("line");
    reveal_strlit("usages");
    reveal_strlit("count");
    assert("name"@ =~= seq!['n', 'a', 'm', 'e']);
    assert("node_kind"@ =~= seq!['n', 'o', 'd', 'e', '_', 'k', 'i', 'n', 'd']);
    assert("fql_kind"@ =~= seq!['f', 'q', 'l', '_', 'k', 'i', 'n', 'd']);
    assert("language"@ =~= seq!['l', 'a', 'n', 'g', 'u', 'a', 'g', 'e']);
    assert("path"@ =~= seq!['p', 'a', 't', 'h']);
    assert("node_id"@ =~= seq!['n', 'o', 'd', 'e', '_', 'i', 'd']);
    assert("line"@ =~= seq!['l', 'i', 'n', 'e']);
    assert("usages"@ =~= seq!['u', 's', 'a', 'g', 'e', 's']);
    assert("count"@ =~= seq!['c', 'o', 'u', 'n', 't']);
}

/// Whether a name is of a field that a row holds itself.
pub open spec fn is_own_field(field: Seq<char>) -> bool {
    ||| crate::filter_laws::is_text_of_a_row(field)
    ||| crate::filter_laws::is_number_of_a_row(field)
}

proof fn lemma_first_value(extra: Seq<(String, String)>, field: Seq<char>, i: int, k: int)
    requires
        0 <= i <= k < extra.len(),
        extra[k].0@ == field,
        forall|j: int| i <= j < k ==> (#[trigger] extra[j]).0@ != field,
    ensures
        extra_from(extra, field, i) == Some(extra[k].1@),
    decreases k - i,
{
    if i < k {
        lemma_first_value(extra, field, i + 1, k);
    }
}

proof fn lemma_no_value(extra: Seq<(String, String)>, field: Seq<char>, i: int)
    requires
        0 <= i,
        forall|j: int| i <= j < extra.len() ==> (#[trigger] extra[j]).0@ != field,
    ensures
        extra_from(extra, field, i) is None,
    decreases extra.len() - i,
{
    if i < extra.len() {
        lemma_no_value(extra, field, i + 1);
    }
}

/// An enrichment value can be asked for under the name of its field, as the text that was stored; and
/// as a number where it writes one, with a sign or without. Under a name that no value has nothing is
/// read.
pub proof fn lemma_an_enrichment_value_reads_back(
    row: SymbolMatch,
    field: Seq<char>,
    k: int,
    n: nat,
)
    requires
        !is_own_field(field),
    ensures
        0 <= k < row.fields@.len() && row.fields@[k].0@ == field && (forall|j: int|
            0 <= j < k ==> (#[trigger] row.fields@[j]).0@ != field) ==> {
            &&& row.text_of(field) == Some(row.fields@[k].1@)
            &&& row.fields@[k].1@ == decimal(n) && n <= i64::MAX ==> row.number_of(field) == Some(
                n as int,
            )
            &&& row.fields@[k].1@ == seq!['-'] + decimal(n) && n <= i64::MAX ==> row.number_of(
                field,
            ) == Some(-(n as int))
        },
        (forall|j: int| 0 <= j < row.fields@.len() ==> (#[trigger] row.fields@[j]).0@ != field)
            ==> row.text_of(field) is None && row.number_of(field) is None,
{
    lemma_names();
    if 0 <= k < row.fields@.len() && row.fields@[k].0@ == field && (forall|j: int|
        0 <= j < k ==> (#[trigger] row.fields@[j]).0@ != field) {
        lemma_first_value(row.fields@, field, 0, k);
        lemma_signed(n);
    }
    if forall|j: int| 0 <= j < row.fields@.len() ==> (#[trigger] row.fields@[j]).0@ != field {
        lemma_no_value(row.fields@, field, 0);
    }
}

proof fn lemma_signed(n: nat)
    ensures
        n <= i64::MAX ==> signed_of(decimal(n)) == Some(n as int),
        n <= i64::MAX ==> signed_of(seq!['-'] + decimal(n)) == Some(-(n as int)),
{
    let d = decimal(n);
    lemma_decimal_reads_back(n);
    assert(is_digit(d[0]));
    if n <= i64::MAX {
        lemma_a_numeral_reads_back(n, 0, 0x7fff_ffff_ffff_ffff);
        let m = seq!['-'] + d;
        assert(m[0] == '-');
        assert(m.skip(1) =~= d);
    }
}

} // verus!
