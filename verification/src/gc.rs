//! Which generations of a cache are removed.
//!
//! Every generation of the index has its own directories, named `<provider>-v<N>`. Only the number
//! counts: it is one sequence shared by every provider.

use crate::build_context::ENRICH_VER;
use crate::text::{all_digits, chars_of, decimal, parse_u32, push_decimal, text_of, unsigned_of};
use vstd::prelude::*;
use vstd::string::*;

verus! {

/// How a generation relates to this build's.
#[derive(Clone, Copy, Debug, PartialEq, Eq, Structural)]
pub enum VersionClass {
    /// This build's.
    Current,
    /// Written by a newer build.
    Newer,
    /// Left behind by an older build.
    Older,
}

/// One directory of a generation.
#[derive(Clone, Debug)]
pub struct VersionDir {
    pub path: String,
    /// The last component of the path.
    pub name: String,
    pub version: u32,
    pub class: VersionClass,
    pub size_bytes: u64,
}

/// What a vacuum spares.
#[derive(Clone, Copy, Debug)]
pub struct VacuumOptions {
    /// How many of the older generations stay.
    pub keep: usize,
    /// Nothing stays, not even this build's generation.
    pub all: bool,
}

impl Default for VacuumOptions {
    /// Only this build's generation and newer ones stay.
    fn default() -> (o: VacuumOptions)
        ensures
            o.keep == 0,
            !o.all,
    {
        VacuumOptions { keep: 0, all: false }
    }
}

/// What is done to one directory.
#[derive(Clone, Copy, Debug, PartialEq, Eq, Structural)]
pub enum VacuumAction {
    Delete,
    Keep,
    /// It was to be deleted and could not be.
    Error,
}

impl VacuumAction {
    /// The name of the action.
    pub fn as_str(self) -> (s: &'static str)
        ensures
            s@ == (match self {
                VacuumAction::Delete => "delete"@,
                VacuumAction::Keep => "keep"@,
                VacuumAction::Error => "error"@,
            }),
    {
        match self {
            VacuumAction::Delete => "delete",
            VacuumAction::Keep => "keep",
            VacuumAction::Error => "error",
        }
    }
}

/// One directory of a report.
#[derive(Clone, Debug)]
pub struct VacuumEntry {
    /// The repository.
    pub source: String,
    pub name: String,
    pub path: String,
    pub version: u32,
    pub class: VersionClass,
    pub action: VacuumAction,
    pub size_bytes: u64,
}

/// What a vacuum found and did.
#[derive(Clone, Debug)]
pub struct VacuumReport {
    pub entries: Vec<VacuumEntry>,
    /// How many directories were deleted, or would be.
    pub delete_count: usize,
    pub delete_bytes: u64,
    pub source_count: usize,
    /// Whether anything was deleted, or only planned.
    pub applied: bool,
    pub errors: usize,
}

impl Default for VacuumReport {
    /// The report of a vacuum that looked at nothing.
    fn default() -> (r: VacuumReport)
        ensures
            r.entries@.len() == 0,
            r.delete_count == 0,
            r.delete_bytes == 0,
            r.source_count == 0,
            !r.applied,
            r.errors == 0,
    {
        VacuumReport {
            entries: Vec::new(),
            delete_count: 0,
            delete_bytes: 0,
            source_count: 0,
            applied: false,
            errors: 0,
        }
    }
}

// ───────────────────────────── names ─────────────────────────────

/// Where the last `-v` below `n` ends; nought where there is none.
pub open spec fn past_version_mark(s: Seq<char>, n: int) -> int
    decreases n,
{
    if n < 2 {
        0
    } else if s[n - 2] == '-' && s[n - 1] == 'v' {
        n
    } else {
        past_version_mark(s, n - 1)
    }
}

/// The generation that a directory's name gives: the digits that follow its last `-v`.
pub open spec fn version_of(name: Seq<char>) -> Option<u32> {
    let at = past_version_mark(name, name.len() as int);
    let digits = name.skip(at);
    if at == 0 || digits.len() == 0 || !all_digits(digits) {
        None
    } else {
        match unsigned_of(digits, u32::MAX as nat) {
            Some(n) => Some(n as u32),
            None => None,
        }
    }
}

/// Reads the generation that a directory's name gives.
pub fn parse_version(name: &str) -> (r: Option<u32>)
    ensures
        r == version_of(name@),
{
    let c = chars_of(name);
    let n: usize = c.len();
    let mut at: usize = n;
    while at >= 2 && !(c[at - 2] == '-' && c[at - 1] == 'v')
        invariant
            at <= n,
            n == c@.len(),
            past_version_mark(c@, n as int) == past_version_mark(c@, at as int),
        decreases at,
    {
        at -= 1;
    }
    if at < 2 {
        return None;
    }
    let digits = text_of(&c, at, n);
    assert(digits@ =~= name@.skip(at as int));
    if at == n {
        return None;
    }
    let mut i: usize = at;
    while i < n
        invariant
            2 <= at < n,
            at <= i <= n,
            n == c@.len(),
            c@ == name@,
            at == past_version_mark(c@, n as int),
            digits@ == name@.skip(at as int),
            forall|k: int| 0 <= k < i - at ==> '0' <= #[trigger] digits@[k] <= '9',
        decreases n - i,
    {
        if !('0' <= c[i] && c[i] <= '9') {
            assert(digits@[i - at] == c@[i as int]);
            assert(!all_digits(digits@));
            return None;
        }
        assert(digits@[i - at] == c@[i as int]);
        i += 1;
    }
    assert(all_digits(digits@));
    parse_u32(digits.as_str())
}

/// How a generation relates to this build's.
pub open spec fn class_of(version: u32) -> VersionClass {
    if version == ENRICH_VER {
        VersionClass::Current
    } else if version > ENRICH_VER {
        VersionClass::Newer
    } else {
        VersionClass::Older
    }
}

/// How a generation relates to this build's.
pub fn classify(version: u32) -> (c: VersionClass)
    ensures
        c == class_of(version),
{
    if version == ENRICH_VER {
        VersionClass::Current
    } else if version > ENRICH_VER {
        VersionClass::Newer
    } else {
        VersionClass::Older
    }
}

/// What is known of a directory of a cache root; nothing where its name gives no generation.
pub fn version_dir(path: &str, name: &str, size_bytes: u64) -> (r: Option<VersionDir>)
    ensures
        (match version_of(name@) {
            Some(v) => r is Some && r->0.path@ == path@ && r->0.name@ == name@ && r->0.version == v
                && r->0.class == class_of(v) && r->0.size_bytes == size_bytes,
            None => r is None,
        }),
{
    match parse_version(name) {
        Some(version) => Some(
            VersionDir {
                path: path.to_owned(),
                name: name.to_owned(),
                version,
                class: classify(version),
                size_bytes,
            },
        ),
        None => None,
    }
}

// ───────────────────────────── the plan ─────────────────────────────

/// The older generations that come after a generation.
pub open spec fn older_after(dirs: Seq<VersionDir>, version: u32) -> Set<u32> {
    Set::new(
        |v: u32|
            v > version && exists|i: int|
                0 <= i < dirs.len() && (#[trigger] dirs[i]).class == VersionClass::Older
                    && dirs[i].version == v,
    )
}

/// Whether a directory is deleted: everything is, or it is older and `keep` other older generations
/// come after it.
pub open spec fn doomed(dirs: Seq<VersionDir>, opts: VacuumOptions, i: int) -> bool {
    opts.all || (dirs[i].class == VersionClass::Older && older_after(dirs, dirs[i].version).len()
        >= opts.keep)
}

/// The positions below `n` of the directories that are deleted, ascending.
pub open spec fn doomed_upto(dirs: Seq<VersionDir>, opts: VacuumOptions, n: int) -> Seq<usize>
    decreases n,
{
    if n <= 0 {
        seq![]
    } else if doomed(dirs, opts, n - 1) {
        doomed_upto(dirs, opts, n - 1).push((n - 1) as usize)
    } else {
        doomed_upto(dirs, opts, n - 1)
    }
}

/// Whether a list holds the older generations, each once, from the newest down.
spec fn lists_older(dirs: Seq<VersionDir>, n: int, v: Seq<u32>) -> bool {
    &&& forall|a: int, b: int| #![trigger v[a], v[b]] 0 <= a < b < v.len() ==> v[a] > v[b]
    &&& forall|x: u32| #[trigger]
        v.contains(x) == (exists|i: int|
            0 <= i < n && (#[trigger] dirs[i]).class == VersionClass::Older && dirs[i].version == x)
}

fn insert_version(v: &mut Vec<u32>, x: u32)
    requires
        forall|a: int, b: int|
            #![trigger old(v)@[a], old(v)@[b]]
            0 <= a < b < old(v)@.len() ==> old(v)@[a] > old(v)@[b],
    ensures
        forall|a: int, b: int|
            #![trigger final(v)@[a], final(v)@[b]]
            0 <= a < b < final(v)@.len() ==> final(v)@[a] > final(v)@[b],
        forall|y: u32| #[trigger] final(v)@.contains(y) == (old(v)@.contains(y) || y == x),
{
    let mut p: usize = 0;
    while p < v.len() && v[p] > x
        invariant
            p <= v@.len(),
            v@ == old(v)@,
            forall|a: int| 0 <= a < p ==> (#[trigger] v@[a]) > x,
        decreases v.len() - p,
    {
        p += 1;
    }
    if p < v.len() && v[p] == x {
        assert(v@[p as int] == x);
        return ;
    }
    let ghost was = v@;
    v.insert(p, x);
    proof {
        assert(v@ == was.insert(p as int, x));
        assert forall|a: int, b: int|
            #![trigger v@[a], v@[b]]
            0 <= a < b < v@.len() implies v@[a] > v@[b] by {
            let i = if a < p {
                a
            } else {
                a - 1
            };
            let j = if b < p {
                b
            } else {
                b - 1
            };
            if a != p && b != p {
                assert(v@[a] == was[i] && v@[b] == was[j]);
            } else if a == p {
                assert(v@[b] == was[j]);
                assert(was[p as int] < x);
                if j > p {
                    assert(was[p as int] > was[j]);
                }
            } else {
                assert(v@[a] == was[a]);
            }
        }
        assert forall|y: u32| #[trigger] v@.contains(y) == (was.contains(y) || y == x) by {
            if was.contains(y) {
                let k = choose|k: int| 0 <= k < was.len() && was[k] == y;
                if k < p {
                    assert(v@[k] == y);
                } else {
                    assert(v@[k + 1] == y);
                }
            }
            if y == x {
                assert(v@[p as int] == y);
            }
            if v@.contains(y) {
                let k = choose|k: int| 0 <= k < v@.len() && v@[k] == y;
                if k < p {
                    assert(was[k] == y);
                } else if k > p {
                    assert(was[k - 1] == y);
                }
            }
        }
    }
}

fn older_versions(dirs: &Vec<VersionDir>) -> (v: Vec<u32>)
    ensures
        lists_older(dirs@, dirs@.len() as int, v@),
{
    let mut v: Vec<u32> = Vec::new();
    let mut i: usize = 0;
    while i < dirs.len()
        invariant
            i <= dirs@.len(),
            lists_older(dirs@, i as int, v@),
        decreases dirs.len() - i,
    {
        let ghost was = v@;
        if dirs[i].class == VersionClass::Older {
            insert_version(&mut v, dirs[i].version);
        }
        proof {
            assert forall|x: u32| #[trigger] v@.contains(x) == (exists|k: int|
                0 <= k < i + 1 && (#[trigger] dirs@[k]).class == VersionClass::Older
                    && dirs@[k].version == x) by {
                if was.contains(x) {
                    let k = choose|k: int|
                        0 <= k < i && (#[trigger] dirs@[k]).class == VersionClass::Older
                            && dirs@[k].version == x;
                    assert(k < i + 1);
                }
                if exists|k: int|
                    0 <= k < i + 1 && (#[trigger] dirs@[k]).class == VersionClass::Older
                        && dirs@[k].version == x {
                    let k = choose|k: int|
                        0 <= k < i + 1 && (#[trigger] dirs@[k]).class == VersionClass::Older
                            && dirs@[k].version == x;
                    if k < i {
                        assert(was.contains(x));
                    }
                }
                if dirs@[i as int].class == VersionClass::Older && x == dirs@[i as int].version {
                    assert(dirs@[i as int].version == x);
                }
            }
        }
        i += 1;
    }
    v
}

proof fn lemma_rank(dirs: Seq<VersionDir>, v: Seq<u32>, version: u32, k: int)
    requires
        lists_older(dirs, dirs.len() as int, v),
        0 <= k <= v.len(),
        forall|a: int| 0 <= a < k ==> (#[trigger] v[a]) > version,
        forall|a: int| k <= a < v.len() ==> (#[trigger] v[a]) <= version,
    ensures
        older_after(dirs, version).len() == k,
{
    let head = v.take(k);
    let set = older_after(dirs, version);
    assert(head.no_duplicates()) by {
        assert forall|a: int, b: int| 0 <= a < head.len() && 0 <= b < head.len() && a != b implies
            head[a] != head[b] by {
            if a < b {
                assert(v[a] > v[b]);
            } else {
                assert(v[b] > v[a]);
            }
        }
    }
    head.unique_seq_to_set();
    assert forall|x: u32| head.to_set().contains(x) == set.contains(x) by {
        if head.to_set().contains(x) {
            let a = choose|a: int| 0 <= a < head.len() && head[a] == x;
            assert(v[a] == x);
            assert(v.contains(x));
        }
        if set.contains(x) {
            assert(v.contains(x));
            let a = choose|a: int| 0 <= a < v.len() && v[a] == x;
            assert(a < k);
            assert(head[a] == x);
        }
    }
    assert(head.to_set() =~= set);
}

/// The positions of the directories of one repository that are deleted, ascending.
///
/// This build's generation and newer ones stay unless everything goes. Directories that share a
/// generation stay or go together.
pub fn plan_deletions(dirs: &Vec<VersionDir>, opts: VacuumOptions) -> (out: Vec<usize>)
    ensures
        out@ == doomed_upto(dirs@, opts, dirs@.len() as int),
{
    let versions = older_versions(dirs);
    let mut out: Vec<usize> = Vec::new();
    let mut i: usize = 0;
    while i < dirs.len()
        invariant
            lists_older(dirs@, dirs@.len() as int, versions@),
            i <= dirs@.len(),
            out@ == doomed_upto(dirs@, opts, i as int),
        decreases dirs.len() - i,
    {
        let version: u32 = dirs[i].version;
        let mut k: usize = 0;
        while k < versions.len() && versions[k] > version
            invariant
                k <= versions@.len(),
                forall|a: int| 0 <= a < k ==> (#[trigger] versions@[a]) > version,
            decreases versions.len() - k,
        {
            k += 1;
        }
        proof {
            assert forall|a: int| k <= a < versions@.len() implies (#[trigger] versions@[a])
                <= version by {
                if a > k {
                    assert(versions@[k as int] > versions@[a]);
                }
            }
            lemma_rank(dirs@, versions@, version, k as int);
        }
        if opts.all || (dirs[i].class == VersionClass::Older && k >= opts.keep) {
            out.push(i);
        }
        i += 1;
    }
    out
}

/// A generation stays or goes as a whole: two directories of one generation and class share their
/// fate.
pub proof fn lemma_generation_shares_fate(dirs: Seq<VersionDir>, opts: VacuumOptions, i: int, j: int)
    requires
        0 <= i < dirs.len(),
        0 <= j < dirs.len(),
        dirs[i].version == dirs[j].version,
        dirs[i].class == dirs[j].class,
    ensures
        doomed(dirs, opts, i) == doomed(dirs, opts, j),
{
}

/// This build's generation and newer ones are never deleted, unless everything is.
pub proof fn lemma_live_generations_stay(dirs: Seq<VersionDir>, opts: VacuumOptions, i: int)
    requires
        0 <= i < dirs.len(),
        !opts.all,
        dirs[i].class != VersionClass::Older,
    ensures
        !doomed(dirs, opts, i),
{
}

/// Keeping more deletes no more.
pub proof fn lemma_keeping_more_deletes_less(
    dirs: Seq<VersionDir>,
    few: VacuumOptions,
    many: VacuumOptions,
    i: int,
)
    requires
        0 <= i < dirs.len(),
        few.all == many.all,
        few.keep <= many.keep,
        doomed(dirs, many, i),
    ensures
        doomed(dirs, few, i),
{
}

/// What a plan comes to for one repository: an entry for each directory, with what is done to it.
pub fn plan_entries(source: &str, dirs: &Vec<VersionDir>, opts: VacuumOptions) -> (out: Vec<
    VacuumEntry,
>)
    ensures
        out@.len() == dirs@.len(),
        forall|i: int|
            #![trigger out@[i]]
            0 <= i < out@.len() ==> out@[i].source@ == source@ && out@[i].name@ == dirs@[i].name@
                && out@[i].path@ == dirs@[i].path@ && out@[i].version == dirs@[i].version
                && out@[i].class == dirs@[i].class && out@[i].size_bytes == dirs@[i].size_bytes
                && out@[i].action == (if doomed(dirs@, opts, i) {
                VacuumAction::Delete
            } else {
                VacuumAction::Keep
            }),
{
    let plan = plan_deletions(dirs, opts);
    let mut out: Vec<VacuumEntry> = Vec::new();
    let mut next: usize = 0;
    let mut i: usize = 0;
    while i < dirs.len()
        invariant
            i <= dirs@.len(),
            plan@ == doomed_upto(dirs@, opts, dirs@.len() as int),
            next == doomed_upto(dirs@, opts, i as int).len(),
            next <= plan@.len(),
            out@.len() == i,
            forall|k: int|
                #![trigger out@[k]]
                0 <= k < i ==> out@[k].source@ == source@ && out@[k].name@ == dirs@[k].name@
                    && out@[k].path@ == dirs@[k].path@ && out@[k].version == dirs@[k].version
                    && out@[k].class == dirs@[k].class && out@[k].size_bytes == dirs@[k].size_bytes
                    && out@[k].action == (if doomed(dirs@, opts, k) {
                    VacuumAction::Delete
                } else {
                    VacuumAction::Keep
                }),
        decreases dirs.len() - i,
    {
        let total: usize = dirs.len();
        proof {
            lemma_plan_tail(dirs@, opts, i as int, total as int);
        }
        let goes = next < plan.len() && plan[next] == i;
        out.push(
            VacuumEntry {
                source: source.to_owned(),
                name: dirs[i].name.clone(),
                path: dirs[i].path.clone(),
                version: dirs[i].version,
                class: dirs[i].class,
                action: if goes {
                    VacuumAction::Delete
                } else {
                    VacuumAction::Keep
                },
                size_bytes: dirs[i].size_bytes,
            },
        );
        if goes {
            next += 1;
        }
        i += 1;
    }
    out
}

/// The position that follows those below `i` in a plan is `i` exactly where `i` is deleted.
proof fn lemma_plan_tail(dirs: Seq<VersionDir>, opts: VacuumOptions, i: int, n: int)
    requires
        0 <= i < n <= dirs.len() <= usize::MAX,
    ensures
        ({
            let head = doomed_upto(dirs, opts, i);
            let all = doomed_upto(dirs, opts, n);
            &&& head.len() <= all.len()
            &&& doomed(dirs, opts, i) ==> head.len() < all.len() && all[head.len() as int] == i
            &&& !doomed(dirs, opts, i) ==> head.len() == all.len() || all[head.len() as int] > i
        }),
    decreases n - i,
{
    let head = doomed_upto(dirs, opts, i);
    if n == i + 1 {
    } else {
        lemma_plan_tail(dirs, opts, i, n - 1);
    }
}

// ───────────────────────────── sizes in words ─────────────────────────────

/// A quotient rounded to the nearest integer, and to the even one of two as near.
pub open spec fn nearest_even(a: nat, b: nat) -> nat
    recommends
        b > 0,
{
    if 2 * (a % b) < b || (2 * (a % b) == b && (a / b) % 2 == 0) {
        a / b
    } else {
        a / b + 1
    }
}

/// How far apart the numbers of 53 significant bits lie around `n`.
pub open spec fn grain(n: nat) -> nat
    decreases n,
{
    if n < 0x20_0000_0000_0000 {
        1
    } else {
        2 * grain(n / 2)
    }
}

/// A byte count kept to 53 significant bits, as a double holds it.
pub open spec fn in_double(n: nat) -> nat {
    nearest_even(n, grain(n)) * grain(n)
}

/// The unit that a size is shown in: the largest that it holds at least one of, up to TiB. First how
/// many bytes make one, then its name with the space before it.
pub open spec fn unit_of(size: nat) -> (nat, Seq<char>) {
    if size < 0x400 {
        (0x1, " B"@)
    } else if size < 0x10_0000 {
        (0x400, " KiB"@)
    } else if size < 0x4000_0000 {
        (0x10_0000, " MiB"@)
    } else if size < 0x100_0000_0000 {
        (0x4000_0000, " GiB"@)
    } else {
        (0x100_0000_0000, " TiB"@)
    }
}

/// A byte count in words: whole bytes, or tenths of a larger unit.
pub open spec fn size_text(bytes: nat) -> Seq<char> {
    let size = in_double(bytes);
    let (unit, name) = unit_of(size);
    if unit == 1 {
        decimal(bytes) + name
    } else {
        let tenths = nearest_even(size * 10, unit);
        decimal(tenths / 10) + "."@ + decimal(tenths % 10) + name
    }
}

fn rounded(a: u128, b: u128) -> (r: u128)
    requires
        0 < b <= 0x100_0000_0000,
        a < 0x1_0000_0000_0000_0000_0000,
    ensures
        r == nearest_even(a as nat, b as nat),
        r <= a / b + 1,
{
    let q: u128 = a / b;
    let rest: u128 = a % b;
    assert(q <= a) by (nonlinear_arith)
        requires
            q == a / b,
            b > 0,
    ;
    if 2 * rest < b || (2 * rest == b && q % 2 == 0) {
        q
    } else {
        q + 1
    }
}

/// A byte count for people to read, such as `1.5 GiB`.
pub fn human_bytes(bytes: u64) -> (s: String)
    ensures
        s@ == size_text(bytes as nat),
{
    let mut high: u64 = bytes;
    let mut step: u128 = 1;
    while high >= 0x20_0000_0000_0000
        invariant
            1 <= step,
            high * step <= bytes,
            grain(bytes as nat) == step * grain(high as nat),
        decreases high,
    {
        let ghost was = high;
        assert(step <= 0x800) by (nonlinear_arith)
            requires
                high * step <= 0xffff_ffff_ffff_ffff,
                high >= 0x20_0000_0000_0000,
                step >= 1,
        ;
        assert((high / 2) * (step * 2) <= high * step) by (nonlinear_arith)
            requires
                high >= 0,
                step >= 1,
        ;
        assert(step * grain(high as nat) == (step * 2) * grain((high / 2) as nat)) by {
            assert(grain(high as nat) == 2 * grain((high / 2) as nat));
            assert(step * (2 * grain((high / 2) as nat)) == (step * 2) * grain(
                (high / 2) as nat,
            )) by (nonlinear_arith);
        }
        high = high / 2;
        step = step * 2;
    }
    assert(grain(high as nat) == 1);
    assert(step * grain(high as nat) == step) by (nonlinear_arith)
        requires
            grain(high as nat) == 1,
    ;
    proof {
        lemma_grain_small(bytes as nat);
    }
    let whole: u128 = rounded(bytes as u128, step);
    proof {
        assert(whole * step <= bytes + step) by (nonlinear_arith)
            requires
                whole <= bytes as nat / step as nat + 1,
                step >= 1,
        ;
    }
    let size: u128 = whole * step;
    assert(size == in_double(bytes as nat));
    let mut s = String::new();
    if size < 0x400 {
        push_decimal(&mut s, bytes);
        s.append(" B");
        assert(s@ =~= size_text(bytes as nat));
        return s;
    }
    let unit: u128 = if size < 0x10_0000 {
        0x400
    } else if size < 0x4000_0000 {
        0x10_0000
    } else if size < 0x100_0000_0000 {
        0x4000_0000
    } else {
        0x100_0000_0000
    };
    let tenths: u128 = rounded(size * 10, unit);
    assert(unit == unit_of(size as nat).0);
    assert(tenths <= 0xffff_ffff_ffff) by (nonlinear_arith)
        requires
            tenths <= (size * 10) as nat / unit as nat + 1,
            unit >= 0x400,
            size <= 0x1_0000_0000_0000_0800,
            size < unit * 0x400 || unit == 0x100_0000_0000,
    ;
    push_decimal(&mut s, (tenths / 10) as u64);
    s.append(".");
    push_decimal(&mut s, (tenths % 10) as u64);
    if size < 0x10_0000 {
        s.append(" KiB");
    } else if size < 0x4000_0000 {
        s.append(" MiB");
    } else if size < 0x100_0000_0000 {
        s.append(" GiB");
    } else {
        s.append(" TiB");
    }
    assert(s@ =~= size_text(bytes as nat));
    s
}

proof fn lemma_grain_small(n: nat)
    requires
        n <= 0xffff_ffff_ffff_ffff,
    ensures
        1 <= grain(n) <= 0x800,
{
    reveal_with_fuel(grain, 13);
}

} // verus!
