//! How much one query may hold, and what is said of one that asks for more.
//!
//! One memory budget bounds three things that cost very differently: the candidate row numbers a
//! scan holds, the views it carries while it chooses a page, and the rows it builds for delivery.

use crate::text::{chars_of, decimal, parse_usize, push_decimal, text_of, unsigned_of};
use vstd::prelude::*;
use vstd::string::*;

verus! {

/// How much more than a page a scan keeps before it trims.
pub const TOPK_OVER_FETCH: usize = 4;

/// The memory one query may spend on result rows.
pub const FIND_ROW_BUDGET_BYTES: usize = 2147483648;

/// What one result row costs, with what it owns.
pub const FIND_BYTES_PER_ROW: usize = 1600;

/// What one row view costs: it owns nothing.
pub const FIND_BYTES_PER_VIEW: usize = 48;

/// What one candidate row number costs at most.
pub const FIND_BYTES_PER_ROW_ID: usize = 4;

/// How many rows one query may build.
pub const DEFAULT_FIND_MAX_ROWS: usize = 1342177;

/// How many views one query may carry.
pub const DEFAULT_FIND_MAX_VIEWS: usize = 44739242;

/// How many candidate row numbers one query may hold.
pub const DEFAULT_FIND_MAX_ROW_IDS: usize = 536870912;

/// The default bounds spend the same memory.
pub proof fn lemma_bounds_spend_one_budget()
    ensures
        DEFAULT_FIND_MAX_ROWS == FIND_ROW_BUDGET_BYTES / FIND_BYTES_PER_ROW,
        DEFAULT_FIND_MAX_VIEWS == FIND_ROW_BUDGET_BYTES / FIND_BYTES_PER_VIEW,
        DEFAULT_FIND_MAX_ROW_IDS == FIND_ROW_BUDGET_BYTES / FIND_BYTES_PER_ROW_ID,
{
}

// ───────────────────────────── overrides ─────────────────────────────

/// Whether a character is white space, as `char::is_whitespace` has it.
pub uninterp spec fn white_space(c: char) -> bool;

/// `char::is_whitespace` tells whether a character is white space.
#[verifier::external_body]
fn is_white(c: char) -> (r: bool)
    ensures
        r == white_space(c),
{
    c.is_whitespace()
}

/// Where the text at or after `i` stops being white space.
pub open spec fn past_white(s: Seq<char>, i: int) -> int
    decreases s.len() - i,
{
    if i < 0 || i >= s.len() || !white_space(s[i]) {
        i
    } else {
        past_white(s, i + 1)
    }
}

/// Where the text from `start` up to `n` ends once white space behind it is left off.
pub open spec fn before_white(s: Seq<char>, start: int, n: int) -> int
    decreases n - start,
{
    if n <= start || !white_space(s[n - 1]) {
        n
    } else {
        before_white(s, start, n - 1)
    }
}

/// A text without the white space around it.
pub open spec fn trimmed(s: Seq<char>) -> Seq<char> {
    let from = past_white(s, 0);
    s.subrange(from, before_white(s, from, s.len() as int))
}

fn trim(s: &str) -> (t: String)
    ensures
        t@ == trimmed(s@),
{
    let c = chars_of(s);
    let n: usize = c.len();
    let mut from: usize = 0;
    while from < n && is_white(c[from])
        invariant
            from <= n,
            n == c@.len(),
            past_white(c@, 0) == past_white(c@, from as int),
        decreases n - from,
    {
        from += 1;
    }
    let mut to: usize = n;
    while to > from && is_white(c[to - 1])
        invariant
            from <= to <= n,
            n == c@.len(),
            before_white(c@, from as int, n as int) == before_white(c@, from as int, to as int),
        decreases to,
    {
        to -= 1;
    }
    text_of(&c, from, to)
}

/// A bound, from what the environment says of it: a number overrides the default, nought lifts
/// the bound, and anything else is as good as nothing.
pub open spec fn bound_of(setting: Option<Seq<char>>, default: usize) -> usize {
    match setting {
        Some(text) => match unsigned_of(trimmed(text), usize::MAX as nat) {
            Some(n) => if n == 0 {
                usize::MAX
            } else {
                n as usize
            },
            None => default,
        },
        None => default,
    }
}

fn bound(setting: Option<&str>, default: usize) -> (n: usize)
    ensures
        n == bound_of(crate::filter::opt_text(setting), default),
{
    match setting {
        Some(text) => {
            let t = trim(text);
            match parse_usize(t.as_str()) {
                Some(n) => if n == 0 {
                    usize::MAX
                } else {
                    n
                },
                None => default,
            }
        },
        None => default,
    }
}

/// How many rows a query may build, by what the environment says.
pub fn find_max_rows(setting: Option<&str>) -> (n: usize)
    ensures
        n == bound_of(crate::filter::opt_text(setting), DEFAULT_FIND_MAX_ROWS),
{
    bound(setting, DEFAULT_FIND_MAX_ROWS)
}

/// How many views a query may carry, by what the environment says of rows.
pub fn find_max_views(setting: Option<&str>) -> (n: usize)
    ensures
        n == bound_of(crate::filter::opt_text(setting), DEFAULT_FIND_MAX_VIEWS),
{
    bound(setting, DEFAULT_FIND_MAX_VIEWS)
}

/// How many candidate row numbers a query may hold, by what the environment says.
pub fn find_max_row_ids(setting: Option<&str>) -> (n: usize)
    ensures
        n == bound_of(crate::filter::opt_text(setting), DEFAULT_FIND_MAX_ROW_IDS),
{
    bound(setting, DEFAULT_FIND_MAX_ROW_IDS)
}

/// The bounds in force for one query.
#[derive(Clone, Copy, Debug)]
pub struct FindBounds {
    pub rows: usize,
    pub views: usize,
    pub row_ids: usize,
}

// ───────────────────────────── trimming ─────────────────────────────

/// The double of a number, as far as it goes.
pub open spec fn doubled(k: usize) -> usize {
    if k * 2 > usize::MAX {
        usize::MAX
    } else {
        (k * 2) as usize
    }
}

fn capped(n: u128) -> (r: usize)
    ensures
        r == (if n > usize::MAX {
            usize::MAX
        } else {
            n as usize
        }),
{
    if n > usize::MAX as u128 {
        usize::MAX
    } else {
        n as usize
    }
}

/// How many rows a trim keeps for a page of `k`.
pub fn topk_keep(k: usize) -> (n: usize)
    ensures
        n == doubled(k),
        n >= k,
{
    capped(k as u128 * 2)
}

/// How many rows a scan collects for a page of `k` before it trims.
pub open spec fn trim_point(k: usize) -> usize {
    if k * 4 > usize::MAX {
        usize::MAX
    } else {
        (k * 4) as usize
    }
}

/// How many rows a scan collects for a page of `k` before it trims.
pub fn trim_at(k: usize) -> (n: usize)
    ensures
        n == trim_point(k),
{
    capped(k as u128 * 4)
}

// ───────────────────────────── refusals ─────────────────────────────

/// A query that asks for more than the bounds allow.
#[derive(Clone, Copy, Debug, PartialEq, Eq, Structural)]
pub enum FindRefusal {
    /// Too many candidate row numbers.
    RowIds { candidates: u64, max: usize },
    /// Too many views carried.
    Carried { max: usize },
    /// Too many rows to build.
    Built { max: usize },
    /// Too many occurrences of a name.
    Usages { sites: usize, max: usize },
}

/// How many whole gibibytes a number of items costs.
pub open spec fn gib(items: usize, bytes: nat) -> nat {
    (if items * bytes > usize::MAX {
        usize::MAX as nat
    } else {
        items as nat * bytes
    }) / 1073741824
}

fn whole_gib(items: usize, bytes: usize) -> (n: usize)
    requires
        bytes <= 1600,
    ensures
        n == gib(items, bytes as nat),
{
    assert(0 <= items as int * bytes as int <= 0xffff_ffff_ffff_ffff * 1600) by (nonlinear_arith)
        requires
            0 <= items <= 0xffff_ffff_ffff_ffff,
            0 <= bytes <= 1600,
    ;
    capped(items as u128 * bytes as u128) / 1073741824
}

impl FindRefusal {
    /// The refusal in words.
    pub open spec fn text(&self) -> Seq<char> {
        match self {
            FindRefusal::RowIds { candidates, max } => "FIND matched "@ + decimal(
                *candidates as nat,
            ) + " candidate rows, past the "@ + decimal(*max as nat)
                + " this index will hold row IDs for — about "@ + decimal(gib(*max, 4))
                + " GiB of candidate set before a single row is built. Narrow the scan: IN 'path/**' prunes whole segments before they are partitioned, and a more selective WHERE prunes rows inside them. A LIMIT does not help here — it bounds what is delivered and built, never what is searched, so the candidate set is the same size with one as without. FORGEQL_FIND_MAX_ROW_IDS overrides the bound in row IDs; 0 disables it."@,
            FindRefusal::Carried { max } => "FIND carried more than "@ + decimal(*max as nat)
                + " matching rows before ORDER/LIMIT — about "@ + decimal(gib(*max, 48))
                + " GiB of row views, which is the budget in force. A row view is 48 bytes against about 1600 for the row it would build, so this bound is roughly thirty times looser than the one on rows built for delivery, and a scan reaching it is asking for a page no host will hold either. Narrow the scan — IN 'path/**', or a more selective WHERE — or ask for a smaller page: this route carries LIMIT + OFFSET rows, so the bound moves with what you asked for. Every segment is still read, tested and counted. FORGEQL_FIND_MAX_ROWS overrides the bound in rows; 0 disables it."@,
            FindRefusal::Built { max } => "FIND would build more than "@ + decimal(*max as nat)
                + " result rows — about "@ + decimal(gib(*max, 1600))
                + " GiB of them, which is the budget in force. Narrow the scan — IN 'path/**', or a more selective WHERE. A LIMIT usually completes instead, at any k, with or without an ORDER BY and with or without an OFFSET, because the page is chosen over row views read from the segment columns and only LIMIT + OFFSET rows are ever built: every segment is still read, tested and counted, so the answer is the true page, a full one, and a total counting every row that matched. That route wants no GROUP BY and no HAVING — a HAVING runs after the page is cut — no two segments of this index built from one source path, and every field the WHERE and the ORDER BY name answerable from a segment's own columns, which usages, node_id and count never are and which no regex operator is, whatever field it names. Where it declines, a running top-K trim over built rows still holds the working set to a few thousand rows for k <= 1000 with no OFFSET, no GROUP BY and no HAVING, and where neither applies this refusal is what is left — as it is where two segments of this index were built from one source path and a segment collapsing its own duplicates is no longer the whole collapse. One shape is counted differently: ORDER BY name, with at most an fql_kind equality beside it, no IN or EXCLUDE and no uncommitted edits in the session, is what the name index streams k rows at a time, and that route reports k as its total — it hands the query back to the full scan whenever its page would be short, so the same query is sometimes counted honestly and sometimes not. FORGEQL_FIND_MAX_ROWS overrides the bound in rows; 0 disables it."@,
            FindRefusal::Usages { sites, max } => "FIND usages holds "@ + decimal(*sites as nat)
                + " occurrence sites, past the "@ + decimal(*max as nat) + "-row budget — about "@
                + decimal(gib(*max, 1600))
                + " GiB of result rows. Narrow the reading: IN 'path/**' and EXCLUDE prune files before they are read, and a more specific name matches fewer sites. A LIMIT does not help here — it selects whole files out of a computed answer, never bounding what is searched. The bound is checked between matching tiers, so the peak can overshoot it by one tier's finds. FORGEQL_FIND_MAX_ROWS overrides it in rows; 0 disables it."@,
        }
    }

    /// The refusal in words.
    pub fn message(&self) -> (s: String)
        ensures
            s@ == self.text(),
    {
        let mut s = String::new();
        match self {
            FindRefusal::RowIds { candidates, max } => {
                s.append("FIND matched ");
                push_decimal(&mut s, *candidates);
                s.append(" candidate rows, past the ");
                push_decimal(&mut s, *max as u64);
                s.append(" this index will hold row IDs for — about ");
                push_decimal(&mut s, whole_gib(*max, FIND_BYTES_PER_ROW_ID) as u64);
                s.append(
                    " GiB of candidate set before a single row is built. Narrow the scan: IN 'path/**' prunes whole segments before they are partitioned, and a more selective WHERE prunes rows inside them. A LIMIT does not help here — it bounds what is delivered and built, never what is searched, so the candidate set is the same size with one as without. FORGEQL_FIND_MAX_ROW_IDS overrides the bound in row IDs; 0 disables it.",
                );
            },
            FindRefusal::Carried { max } => {
                s.append("FIND carried more than ");
                push_decimal(&mut s, *max as u64);
                s.append(" matching rows before ORDER/LIMIT — about ");
                push_decimal(&mut s, whole_gib(*max, FIND_BYTES_PER_VIEW) as u64);
                s.append(
                    " GiB of row views, which is the budget in force. A row view is 48 bytes against about 1600 for the row it would build, so this bound is roughly thirty times looser than the one on rows built for delivery, and a scan reaching it is asking for a page no host will hold either. Narrow the scan — IN 'path/**', or a more selective WHERE — or ask for a smaller page: this route carries LIMIT + OFFSET rows, so the bound moves with what you asked for. Every segment is still read, tested and counted. FORGEQL_FIND_MAX_ROWS overrides the bound in rows; 0 disables it.",
                );
            },
            FindRefusal::Built { max } => {
                s.append("FIND would build more than ");
                push_decimal(&mut s, *max as u64);
                s.append(" result rows — about ");
                push_decimal(&mut s, whole_gib(*max, FIND_BYTES_PER_ROW) as u64);
                s.append(
                    " GiB of them, which is the budget in force. Narrow the scan — IN 'path/**', or a more selective WHERE. A LIMIT usually completes instead, at any k, with or without an ORDER BY and with or without an OFFSET, because the page is chosen over row views read from the segment columns and only LIMIT + OFFSET rows are ever built: every segment is still read, tested and counted, so the answer is the true page, a full one, and a total counting every row that matched. That route wants no GROUP BY and no HAVING — a HAVING runs after the page is cut — no two segments of this index built from one source path, and every field the WHERE and the ORDER BY name answerable from a segment's own columns, which usages, node_id and count never are and which no regex operator is, whatever field it names. Where it declines, a running top-K trim over built rows still holds the working set to a few thousand rows for k <= 1000 with no OFFSET, no GROUP BY and no HAVING, and where neither applies this refusal is what is left — as it is where two segments of this index were built from one source path and a segment collapsing its own duplicates is no longer the whole collapse. One shape is counted differently: ORDER BY name, with at most an fql_kind equality beside it, no IN or EXCLUDE and no uncommitted edits in the session, is what the name index streams k rows at a time, and that route reports k as its total — it hands the query back to the full scan whenever its page would be short, so the same query is sometimes counted honestly and sometimes not. FORGEQL_FIND_MAX_ROWS overrides the bound in rows; 0 disables it.",
                );
            },
            FindRefusal::Usages { sites, max } => {
                s.append("FIND usages holds ");
                push_decimal(&mut s, *sites as u64);
                s.append(" occurrence sites, past the ");
                push_decimal(&mut s, *max as u64);
                s.append("-row budget — about ");
                push_decimal(&mut s, whole_gib(*max, FIND_BYTES_PER_ROW) as u64);
                s.append(
                    " GiB of result rows. Narrow the reading: IN 'path/**' and EXCLUDE prune files before they are read, and a more specific name matches fewer sites. A LIMIT does not help here — it selects whole files out of a computed answer, never bounding what is searched. The bound is checked between matching tiers, so the peak can overshoot it by one tier's finds. FORGEQL_FIND_MAX_ROWS overrides it in rows; 0 disables it.",
                );
            },
        }
        assert(s@ =~= self.text());
        s
    }
}

} // verus!
