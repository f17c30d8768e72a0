//! What a vacuum promises: which generations it takes, and how it tells them apart.

use crate::build_context::{ColumnarBuildContext, ENRICH_VER};
use crate::columnar_storage::handles_laws::lemma_a_numeral_reads_back;
use crate::gc::{
    class_of, doomed, grain, in_double, nearest_even, older_after, past_version_mark, size_text,
    version_of, VacuumOptions, VersionClass, VersionDir,
};
use crate::text::{decimal, is_digit, lemma_decimal_reads_back};
use vstd::prelude::*;
use vstd::set_lib::*;
use vstd::string::*;

verus! {

// ───────────────────────────── generations ─────────────────────────────

proof fn lemma_mark(s: Seq<char>, n: int, at: int)
    requires
        2 <= at <= n <= s.len(),
        s[at - 2] == '-',
        s[at - 1] == 'v',
        forall|k: int| at <= k < n ==> s[k] != 'v',
    ensures
        past_version_mark(s, n) == at,
    decreases n,
{
    if n > at {
        assert(s[n - 1] != 'v');
        lemma_mark(s, n - 1, at);
    }
}

/// A directory is of the generation that its name ends in, whatever stands in front.
pub proof fn lemma_a_generation_reads_back(provider: Seq<char>, n: u32)
    ensures
        version_of(provider + seq!['-', 'v'] + decimal(n as nat)) == Some(n),
{
    let d = decimal(n as nat);
    let s = provider + seq!['-', 'v'] + d;
    let at = (provider.len() + 2) as int;
    lemma_decimal_reads_back(n as nat);
    lemma_a_numeral_reads_back(n as nat, 0, u32::MAX as nat);
    assert forall|k: int| at <= k < s.len() implies s[k] != 'v' by {
        assert(s[k] == d[k - at]);
        assert(is_digit(d[k - at]));
    }
    lemma_mark(s, s.len() as int, at);
    assert(s.skip(at) =~= d);
}

/// What this build writes is of its own generation, an earlier one is older and a later one newer.
pub proof fn lemma_a_build_knows_its_generation(ctx: ColumnarBuildContext, n: u32)
    ensures
        version_of(ctx.provider_text()) == Some(ENRICH_VER),
        class_of(n) == VersionClass::Current <==> n == ENRICH_VER,
        class_of(n) == VersionClass::Older <==> n < ENRICH_VER,
        class_of(n) == VersionClass::Newer <==> n > ENRICH_VER,
{
    reveal_strlit("-v");
    assert("-v"@ =~= seq!['-', 'v']);
    lemma_a_generation_reads_back(ctx.provider_id@, ENRICH_VER);
}

// ───────────────────────────── which go ─────────────────────────────

/// The older generations among the first `n` directories.
spec fn older_among(dirs: Seq<VersionDir>, n: int) -> Set<u32> {
    Set::new(
        |v: u32|
            exists|i: int|
                0 <= i < n && (#[trigger] dirs[i]).class == VersionClass::Older && dirs[i].version
                    == v,
    )
}

proof fn lemma_finite(dirs: Seq<VersionDir>, n: int)
    requires
        0 <= n <= dirs.len(),
    ensures
        older_among(dirs, n).finite(),
    decreases n,
{
    if n > 0 {
        lemma_finite(dirs, n - 1);
        let was = older_among(dirs, n - 1);
        let now = older_among(dirs, n);
        let v = dirs[n - 1].version;
        assert forall|x: u32| now.contains(x) implies was.insert(v).contains(x) by {
            let i = choose|i: int|
                0 <= i < n && (#[trigger] dirs[i]).class == VersionClass::Older && dirs[i].version
                    == x;
            if i < n - 1 {
                assert(was.contains(x));
            }
        }
        lemma_set_subset_finite(was.insert(v), now);
    } else {
        assert(older_among(dirs, 0) =~= Set::empty());
    }
}

proof fn lemma_after_finite(dirs: Seq<VersionDir>, version: u32)
    ensures
        older_after(dirs, version).finite(),
{
    lemma_finite(dirs, dirs.len() as int);
    assert(older_after(dirs, version).subset_of(older_among(dirs, dirs.len() as int)));
    lemma_set_subset_finite(older_among(dirs, dirs.len() as int), older_after(dirs, version));
}

/// The oldest go first: with a generation every earlier one goes.
pub proof fn lemma_the_oldest_go_first(dirs: Seq<VersionDir>, opts: VacuumOptions, i: int, j: int)
    requires
        0 <= i < dirs.len(),
        0 <= j < dirs.len(),
        dirs[i].class == VersionClass::Older,
        dirs[j].class == VersionClass::Older,
        dirs[j].version < dirs[i].version,
        doomed(dirs, opts, i),
    ensures
        doomed(dirs, opts, j),
{
    let (a, b) = (older_after(dirs, dirs[i].version), older_after(dirs, dirs[j].version));
    lemma_after_finite(dirs, dirs[j].version);
    assert(a.subset_of(b));
    lemma_len_subset(a, b);
}

/// A generation stays where fewer later ones than are to be kept are older than this build's.
pub proof fn lemma_the_newest_stay(
    dirs: Seq<VersionDir>,
    opts: VacuumOptions,
    i: int,
    later: Set<u32>,
)
    requires
        0 <= i < dirs.len(),
        !opts.all,
        later.finite(),
        later.len() < opts.keep,
        forall|k: int|
            0 <= k < dirs.len() && (#[trigger] dirs[k]).class == VersionClass::Older
                && dirs[k].version > dirs[i].version ==> later.contains(dirs[k].version),
    ensures
        !doomed(dirs, opts, i),
{
    let after = older_after(dirs, dirs[i].version);
    assert(after.subset_of(later));
    lemma_len_subset(after, later);
}

/// No more older generations stay than are to be kept, and everything goes where everything is to.
pub proof fn lemma_no_more_stay_than_are_kept(
    dirs: Seq<VersionDir>,
    opts: VacuumOptions,
    i: int,
    later: Set<u32>,
)
    requires
        0 <= i < dirs.len(),
        dirs[i].class == VersionClass::Older,
        opts.all || later.len() >= opts.keep,
        later.finite(),
        forall|v: u32| #[trigger]
            later.contains(v) ==> v > dirs[i].version && exists|k: int|
                0 <= k < dirs.len() && (#[trigger] dirs[k]).class == VersionClass::Older
                    && dirs[k].version == v,
    ensures
        doomed(dirs, opts, i),
{
    let after = older_after(dirs, dirs[i].version);
    lemma_after_finite(dirs, dirs[i].version);
    assert(later.subset_of(after));
    lemma_len_subset(later, after);
}

// ───────────────────────────── sizes ─────────────────────────────

proof fn lemma_small_is_exact(n: nat)
    requires
        n < 0x20_0000_0000_0000,
    ensures
        in_double(n) == n,
{
    assert(grain(n) == 1);
    assert(n % 1 == 0 && n / 1 == n);
    assert(nearest_even(n, 1) == n);
}

/// Sizes are shown in the unit that fits: whole units with nothing behind the point, and less than the
/// first of them as bytes.
pub proof fn lemma_sizes_are_shown_in_units(k: nat)
    requires
        1 <= k < 1024,
    ensures
        size_text(k) == decimal(k) + " B"@,
        size_text(k * 1024) == decimal(k) + "."@ + decimal(0) + " KiB"@,
        size_text(k * 1048576) == decimal(k) + "."@ + decimal(0) + " MiB"@,
        size_text(k * 1073741824) == decimal(k) + "."@ + decimal(0) + " GiB"@,
        size_text(k * 1099511627776) == decimal(k) + "."@ + decimal(0) + " TiB"@,
{
    lemma_small_is_exact(k);
    lemma_small_is_exact(k * 1024);
    lemma_small_is_exact(k * 1048576);
    lemma_small_is_exact(k * 1073741824);
    lemma_small_is_exact(k * 1099511627776);
    lemma_whole(k, 1024);
    lemma_whole(k, 1048576);
    lemma_whole(k, 1073741824);
    lemma_whole(k, 1099511627776);
    assert((k * 10) / 10 == k && (k * 10) % 10 == 0);
}

proof fn lemma_whole(k: nat, unit: nat)
    requires
        unit > 0,
    ensures
        nearest_even(k * unit * 10, unit) == k * 10,
{
    assert((k * unit * 10) == (k * 10) * unit) by (nonlinear_arith);
    assert(((k * 10) * unit) % unit == 0 && ((k * 10) * unit) / unit == k * 10)
        by (nonlinear_arith)
        requires
            unit > 0,
    ;
}

} // verus!
