//! The fields a query can name, and which structure answers each.

use crate::text::same_text;
use vstd::prelude::*;
use vstd::string::*;

verus! {

/// The canonical spelling of a field name.
pub open spec fn canonical_text(field: Seq<char>) -> Seq<char> {
    if field == "kind"@ {
        "fql_kind"@
    } else if field == "file"@ {
        "path"@
    } else if field == "lang"@ {
        "language"@
    } else {
        field
    }
}

/// The canonical spelling of a field name.
pub fn canonical<'a>(field: &'a str) -> (r: &'a str)
    ensures
        r@ == canonical_text(field@),
{
    if same_text(field, "kind") {
        "fql_kind"
    } else if same_text(field, "file") {
        "path"
    } else if same_text(field, "lang") {
        "language"
    } else {
        field
    }
}

/// Whether a field is part of every row rather than an enrichment.
pub open spec fn core_field(field: Seq<char>) -> bool {
    ||| field == "name"@
    ||| field == "node_kind"@
    ||| field == "fql_kind"@
    ||| field == "language"@
    ||| field == "path"@
    ||| field == "line"@
    ||| field == "usages"@
    ||| field == "count"@
    ||| field == "node_id"@
    ||| field == "size"@
    ||| field == "depth"@
    ||| field == "extension"@
    ||| field == "signature"@
    ||| field == "marker"@
    ||| field == "declaration"@
}

/// Whether a field is part of every row rather than an enrichment.
pub fn is_core_field(field: &str) -> (r: bool)
    ensures
        r == core_field(field@),
{
    same_text(field, "name") || same_text(field, "node_kind") || same_text(field, "fql_kind")
        || same_text(field, "language") || same_text(field, "path") || same_text(field, "line")
        || same_text(field, "usages") || same_text(field, "count") || same_text(field, "node_id")
        || same_text(field, "size") || same_text(field, "depth") || same_text(field, "extension")
        || same_text(field, "signature") || same_text(field, "marker") || same_text(
        field,
        "declaration",
    )
}

/// Whether a symbol row answers a field as text.
pub open spec fn symbol_text_field(field: Seq<char>) -> bool {
    ||| field == "name"@
    ||| field == "node_kind"@
    ||| field == "fql_kind"@
    ||| field == "language"@
    ||| field == "path"@
    ||| field == "node_id"@
}

/// Whether a symbol row answers a field as text.
pub fn is_symbol_text_field(field: &str) -> (r: bool)
    ensures
        r == symbol_text_field(field@),
{
    same_text(field, "name") || same_text(field, "node_kind") || same_text(field, "fql_kind")
        || same_text(field, "language") || same_text(field, "path") || same_text(field, "node_id")
}

/// Whether a symbol row answers a field as a number.
pub open spec fn symbol_number_field(field: Seq<char>) -> bool {
    field == "line"@ || field == "usages"@ || field == "count"@
}

/// Whether a symbol row answers a field as a number.
pub fn is_symbol_number_field(field: &str) -> (r: bool)
    ensures
        r == symbol_number_field(field@),
{
    same_text(field, "line") || same_text(field, "usages") || same_text(field, "count")
}

/// Whether segments post the rows of each value of a field.
pub open spec fn posting_field(field: Seq<char>) -> bool {
    ||| field == "naming"@
    ||| field == "guard_kind"@
    ||| field == "guard_defines"@
    ||| field == "guard_mentions"@
    ||| field == "guard_negates"@
    ||| field == "guard_group_id"@
    ||| field == "key_path"@
}

/// No posting field is part of every row.
pub proof fn lemma_posting_fields_are_enrichment(field: Seq<char>)
    requires
        posting_field(field),
    ensures
        !core_field(field),
        canonical_text(field) == field,
{
    reveal_strlit("naming");
    reveal_strlit("guard_kind");
    reveal_strlit("guard_defines");
    reveal_strlit("guard_mentions");
    reveal_strlit("guard_negates");
    reveal_strlit("guard_group_id");
    reveal_strlit("key_path");
    reveal_strlit("name");
    reveal_strlit("node_kind");
    reveal_strlit("fql_kind");
    reveal_strlit("language");
    reveal_strlit("path");
    reveal_strlit("line");
    reveal_strlit("usages");
    reveal_strlit("count");
    reveal_strlit("node_id");
    reveal_strlit("size");
    reveal_strlit("depth");
    reveal_strlit("extension");
    reveal_strlit("signature");
    reveal_strlit("marker");
    reveal_strlit("declaration");
    reveal_strlit("kind");
    reveal_strlit("file");
    reveal_strlit("lang");
    let (c, d, e) = (field[0], field[1], field[3]);
    assert(c == 'n' && d == 'a' && e == 'i' || c == 'g' || c == 'k' && d == 'e');
    assert("name"@[3] == 'e');
    assert("node_kind"@[1] == 'o');
    assert("node_id"@[1] == 'o');
    assert("fql_kind"@[0] == 'f');
    assert("language"@[0] == 'l');
    assert("path"@[0] == 'p');
    assert("line"@[0] == 'l');
    assert("usages"@[0] == 'u');
    assert("count"@[0] == 'c');
    assert("size"@[0] == 's');
    assert("depth"@[0] == 'd');
    assert("extension"@[0] == 'e');
    assert("signature"@[0] == 's');
    assert("marker"@[0] == 'm');
    assert("declaration"@[0] == 'd');
    assert("kind"@[1] == 'i');
    assert("file"@[0] == 'f');
    assert("lang"@[0] == 'l');
}

/// Whether segments post the rows of each value of a field.
pub fn is_posting_field(field: &str) -> (r: bool)
    ensures
        r == posting_field(field@),
{
    same_text(field, "naming") || same_text(field, "guard_kind") || same_text(
        field,
        "guard_defines",
    ) || same_text(field, "guard_mentions") || same_text(field, "guard_negates") || same_text(
        field,
        "guard_group_id",
    ) || same_text(field, "key_path")
}

/// Whether a field is a stored 32-bit column whose range each segment keeps.
pub open spec fn zone_field(field: Seq<char>) -> bool {
    field == "line"@ || field == "usages_count"@
}

/// Whether a field is a stored 32-bit column whose range each segment keeps.
pub fn is_zone_field(field: &str) -> (r: bool)
    ensures
        r == zone_field(field@),
{
    same_text(field, "line") || same_text(field, "usages_count")
}

/// Whether a field is settled only on a built row: the usage count is stamped onto it, the
/// handle is derived for it, and grouping assigns the count.
pub open spec fn view_cannot_answer(field: Seq<char>) -> bool {
    field == "usages"@ || field == "node_id"@ || field == "count"@
}

/// The fields that are settled only on a built row.
pub fn view_unanswerable_fields() -> (v: Vec<&'static str>)
    ensures
        forall|f: Seq<char>|
            view_cannot_answer(f) <==> exists|i: int| 0 <= i < v@.len() && #[trigger] v@[i]@ == f,
{
    let mut v: Vec<&'static str> = Vec::new();
    v.push("usages");
    v.push("node_id");
    v.push("count");
    assert(v@[0]@ == "usages"@);
    assert(v@[1]@ == "node_id"@);
    assert(v@[2]@ == "count"@);
    v
}

/// Whether a field is written onto a row after its columns were read.
pub open spec fn late_field(field: Seq<char>) -> bool {
    field == "body"@ || field == "role"@
}

/// Whether a field is written onto a row after its columns were read.
pub fn written_after_materialisation(field: &str) -> (r: bool)
    ensures
        r == late_field(field@),
{
    same_text(field, "body") || same_text(field, "role")
}

/// Whether a row view ranks by a field as the row it would build does.
pub open spec fn view_ranks(field: Seq<char>) -> bool {
    !view_cannot_answer(field) && !late_field(field)
}

/// Whether a row view ranks by a field as the row it would build does.
pub fn ranks_field_like_a_built_row(field: &str) -> (r: bool)
    ensures
        r == view_ranks(field@),
{
    !(same_text(field, "usages") || same_text(field, "node_id") || same_text(field, "count"))
        && !written_after_materialisation(field)
}

/// Tie-breaker `k` of every ordering.
pub open spec fn tie_breaker(k: int) -> Seq<char> {
    if k == 0 {
        "name"@
    } else if k == 1 {
        "line"@
    } else if k == 2 {
        "path"@
    } else {
        "fql_kind"@
    }
}

/// The fields that break ties of every ordering, in turn.
pub fn order_tie_breakers() -> (v: Vec<&'static str>)
    ensures
        v@.len() == 4,
        forall|k: int| 0 <= k < 4 ==> (#[trigger] v@[k])@ == tie_breaker(k),
{
    let mut v: Vec<&'static str> = Vec::new();
    v.push("name");
    v.push("line");
    v.push("path");
    v.push("fql_kind");
    v
}

} // verus!
