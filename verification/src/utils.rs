//! Stability scoring, architecture normalization, and the build clock.
//!
//! Stability is the probability, scaled to [`STABILITY_SCALE`] (fixed point,
//! 1.0 == `STABILITY_SCALE`), that a component does not change between
//! rebuilds. It follows a Poisson model over the component's changelog
//! history: with `n` changes over `d` days, the chance of no change in the
//! next [`STABILITY_PERIOD_DAYS`] days is `exp(-n/d * STABILITY_PERIOD_DAYS)`.

use vstd::prelude::*;

use crate::filemap::{clone_path, spec_get_of, FileInfoV, FileMap, FileType};
use crate::pathutil::{normalize_path, spec_normalize};
use crate::strutil::str_eq;

verus! {

/// Seconds in one day.
pub const SECS_PER_DAY: u64 = 86400;

/// Changelog entries older than this many days are ignored.
pub const STABILITY_LOOKBACK_DAYS: u64 = 365;

/// The stability score estimates the chance of no change over this period.
pub const STABILITY_PERIOD_DAYS: u64 = 7;

/// Fixed-point scale: a stability of `STABILITY_SCALE` means certainty
/// that the component does not change.
pub const STABILITY_SCALE: u64 = 1_000_000_000;

/// Score given to components with no changes inside the lookback window.
pub const STABILITY_QUIET_SCORE: u64 = 990_000_000;

/// Number of halving/squaring steps used by the fixed-point exponential.
pub const EXP_STEPS: u64 = 16;

/// `2^EXP_STEPS`, the divisor applied before the squaring chain.
pub const EXP_CHUNKS: u64 = 65536;

/// `max(0, a - b)` on `u64`.
pub open spec fn spec_saturating_sub(a: u64, b: u64) -> u64 {
    if a >= b {
        (a - b) as u64
    } else {
        0
    }
}

/// The timestamps of `s` that are at or after `lb`, in order.
pub open spec fn spec_keep_recent(s: Seq<u64>, lb: u64) -> Seq<u64>
    decreases s.len(),
{
    if s.len() == 0 {
        Seq::empty()
    } else {
        let rest = spec_keep_recent(s.drop_first(), lb);
        if s.first() >= lb {
            seq![s.first()] + rest
        } else {
            rest
        }
    }
}

/// Minimum of a non-empty sequence.
pub open spec fn spec_seq_min(s: Seq<u64>) -> u64
    recommends
        s.len() > 0,
    decreases s.len(),
{
    if s.len() <= 1 {
        s[0]
    } else {
        let m = spec_seq_min(s.drop_last());
        if s.last() < m {
            s.last()
        } else {
            m
        }
    }
}

/// `k` squaring steps in fixed point: each step maps `s` to `s*s / SCALE`.
pub open spec fn spec_square_chain(s: int, k: nat) -> int
    decreases k,
{
    if k == 0 {
        s
    } else {
        spec_square_chain(s * s / (STABILITY_SCALE as int), (k - 1) as nat)
    }
}

/// Fixed-point `exp(-x / STABILITY_SCALE)`, scaled by `STABILITY_SCALE`.
///
/// Uses the limit form `exp(-t) = lim (1 - t/m)^m` with `m = EXP_CHUNKS`:
/// subtract `x / EXP_CHUNKS` from one, then square `EXP_STEPS` times.
pub open spec fn spec_exp_decay(x: int) -> int {
    if x >= (STABILITY_SCALE * EXP_CHUNKS) as int {
        0
    } else {
        spec_square_chain(STABILITY_SCALE - x / (EXP_CHUNKS as int), EXP_STEPS as nat)
    }
}

/// The stability score for a change history.
///
/// Mirrors the executable algorithm exactly: fall back to the build time
/// when the changelog is empty; drop entries older than the lookback
/// window; an empty window means quiet (very stable); a window shorter
/// than one day means too fresh to judge (0); otherwise decay
/// exponentially with the observed change rate.
pub open spec fn spec_stability(changelog_times: Seq<u64>, buildtime: u64, now: u64) -> u64 {
    let series = if changelog_times.len() == 0 {
        seq![buildtime]
    } else {
        changelog_times
    };
    let lookback_start = spec_saturating_sub(
        now,
        (STABILITY_LOOKBACK_DAYS * SECS_PER_DAY) as u64,
    );
    let recent = spec_keep_recent(series, lookback_start);
    if recent.len() == 0 {
        STABILITY_QUIET_SCORE
    } else {
        let oldest = spec_seq_min(recent);
        let span_secs = spec_saturating_sub(now, oldest);
        if span_secs < SECS_PER_DAY {
            0
        } else {
            let x = recent.len() * STABILITY_PERIOD_DAYS * SECS_PER_DAY * STABILITY_SCALE
                / (span_secs as int);
            spec_exp_decay(x) as u64
        }
    }
}

proof fn lemma_square_chain_bounds(s: int, k: nat)
    requires
        0 <= s <= STABILITY_SCALE,
    ensures
        0 <= spec_square_chain(s, k) <= STABILITY_SCALE,
    decreases k,
{
    if k > 0 {
        let sc = STABILITY_SCALE as int;
        let next = s * s / sc;
        assert(0 <= s * s <= sc * sc) by (nonlinear_arith)
            requires
                0 <= s <= sc,
        ;
        assert(0 <= next <= STABILITY_SCALE) by {
            vstd::arithmetic::div_mod::lemma_div_is_ordered(s * s, sc * sc, sc);
            vstd::arithmetic::div_mod::lemma_div_by_multiple(sc, sc);
            vstd::arithmetic::div_mod::lemma_div_pos_is_pos(s * s, sc);
        }
        lemma_square_chain_bounds(next, (k - 1) as nat);
    }
}

/// The fixed-point exponential stays within `[0, STABILITY_SCALE]`.
pub proof fn lemma_exp_decay_range(x: int)
    requires
        x >= 0,
    ensures
        0 <= spec_exp_decay(x) <= STABILITY_SCALE,
{
    if x < (STABILITY_SCALE * EXP_CHUNKS) as int {
        assert(0 <= STABILITY_SCALE - x / (EXP_CHUNKS as int) <= STABILITY_SCALE) by {
            assert(0 <= x / (EXP_CHUNKS as int) <= STABILITY_SCALE) by (nonlinear_arith)
                requires
                    0 <= x < (STABILITY_SCALE * EXP_CHUNKS) as int,
            ;
        }
        lemma_square_chain_bounds(STABILITY_SCALE - x / (EXP_CHUNKS as int), EXP_STEPS as nat);
    }
}

/// Fixed-point `exp(-x / STABILITY_SCALE) * STABILITY_SCALE`.
fn exp_decay(x: u128) -> (r: u64)
    ensures
        r == spec_exp_decay(x as int),
        r <= STABILITY_SCALE,
{
    proof {
        lemma_exp_decay_range(x as int);
    }
    if x >= (STABILITY_SCALE as u128) * (EXP_CHUNKS as u128) {
        return 0;
    }
    let reduced: u64 = (x / (EXP_CHUNKS as u128)) as u64;
    let mut s: u64 = STABILITY_SCALE - reduced;
    let mut i: u64 = 0;
    while i < EXP_STEPS
        invariant
            i <= EXP_STEPS,
            0 <= s <= STABILITY_SCALE,
            spec_square_chain(s as int, (EXP_STEPS - i) as nat) == spec_exp_decay(x as int),
        decreases EXP_STEPS - i,
    {
        proof {
            assert(0 <= (s * s) as int / (STABILITY_SCALE as int) <= STABILITY_SCALE)
                by (nonlinear_arith)
                requires
                    0 <= s <= STABILITY_SCALE,
            ;
        }
        s = ((s as u128 * s as u128) / (STABILITY_SCALE as u128)) as u64;
        i = i + 1;
    }
    s
}

/// Calculate the stability score of a component from its changelog
/// timestamps and build time, as seen at time `now` (epoch seconds).
///
/// The result is a probability in fixed point: always within
/// `[0, STABILITY_SCALE]`. A quiet year yields
/// [`STABILITY_QUIET_SCORE`]; a history younger than one day yields 0.
pub fn calculate_stability(changelog_times: &Vec<u64>, buildtime: u64, now: u64) -> (r: u64)
    ensures
        r == spec_stability(changelog_times@, buildtime, now),
        r <= STABILITY_SCALE,
        changelog_times@.len() == 0 && buildtime == now ==> r == 0,
        changelog_times@.len() == 1 && now as int - changelog_times@[0] as int
            > (STABILITY_LOOKBACK_DAYS * SECS_PER_DAY) as int ==> r == STABILITY_QUIET_SCORE,
{
    let lookback_start = if now >= STABILITY_LOOKBACK_DAYS * SECS_PER_DAY {
        now - STABILITY_LOOKBACK_DAYS * SECS_PER_DAY
    } else {
        0
    };

    // Collect the relevant timestamps: the changelog, or the build time
    // alone when there is no changelog.
    let ghost series: Seq<u64> = if changelog_times@.len() == 0 {
        seq![buildtime]
    } else {
        changelog_times@
    };
    let mut recent: Vec<u64> = Vec::new();
    if changelog_times.len() == 0 {
        if buildtime >= lookback_start {
            recent.push(buildtime);
        }
        proof {
            assert(spec_keep_recent(Seq::<u64>::empty(), lookback_start) =~= Seq::<
                u64,
            >::empty());
            assert(series.first() == buildtime);
            assert(series.drop_first() =~= Seq::<u64>::empty());
            assert(recent@ =~= spec_keep_recent(series, lookback_start));
        }
    } else {
        let n = changelog_times.len();
        proof {
            assert(series.skip(0) =~= series);
            assert(recent@ + spec_keep_recent(series, lookback_start) =~= spec_keep_recent(
                series,
                lookback_start,
            ));
        }
        let mut i: usize = 0;
        while i < n
            invariant
                i <= n,
                n == changelog_times@.len(),
                n > 0,
                series == changelog_times@,
                spec_keep_recent(series, lookback_start) =~= recent@ + spec_keep_recent(
                    series.skip(i as int),
                    lookback_start,
                ),
            decreases n - i,
        {
            let ghost pre = recent@;
            let t = changelog_times[i];
            proof {
                let tail = series.skip(i as int);
                assert(tail.len() > 0);
                assert(tail.first() == series[i as int]);
                assert(tail.drop_first() =~= series.skip(i as int + 1));
            }
            if t >= lookback_start {
                recent.push(t);
                proof {
                    let rest = spec_keep_recent(series.skip(i as int + 1), lookback_start);
                    assert(pre + (seq![t] + rest) =~= (pre + seq![t]) + rest);
                    assert(recent@ =~= pre + seq![t]);
                }
            }
            i = i + 1;
        }
        proof {
            assert(series.skip(n as int) =~= Seq::<u64>::empty());
            assert(recent@ + spec_keep_recent(series.skip(n as int), lookback_start) =~= recent@);
            assert(recent@ =~= spec_keep_recent(series, lookback_start));
        }
    }

    if recent.len() == 0 {
        return STABILITY_QUIET_SCORE;
    }

    // Oldest relevant timestamp.
    let mut oldest: u64 = recent[0];
    let mut i: usize = 1;
    while i < recent.len()
        invariant
            1 <= i <= recent@.len(),
            recent@.len() > 0,
            oldest == spec_seq_min(recent@.subrange(0, i as int)),
        decreases recent@.len() - i,
    {
        proof {
            assert(recent@.subrange(0, i as int + 1).drop_last() =~= recent@.subrange(
                0,
                i as int,
            ));
        }
        if recent[i] < oldest {
            oldest = recent[i];
        }
        i = i + 1;
    }
    proof {
        assert(recent@.subrange(0, recent@.len() as int) =~= recent@);
    }

    let span_secs = if now >= oldest {
        now - oldest
    } else {
        0
    };
    if span_secs < SECS_PER_DAY {
        return 0;
    }

    // Rate of change: `recent.len()` events over `span_secs` seconds.
    // The decay exponent is `rate * STABILITY_PERIOD_DAYS`, in fixed point.
    let num: u128 = recent.len() as u128 * (STABILITY_PERIOD_DAYS as u128)
        * (SECS_PER_DAY as u128) * (STABILITY_SCALE as u128);
    let x: u128 = num / (span_secs as u128);
    proof {
        assert(recent@.len() * STABILITY_PERIOD_DAYS * SECS_PER_DAY * STABILITY_SCALE
            < u128::MAX) by (nonlinear_arith)
            requires
                recent@.len() <= usize::MAX,
        ;
    }
    exp_decay(x)
}

/// Maximum recursion depth for symlink resolution, to cap symlink chains.
pub const MAX_SYMLINK_DEPTH: u64 = 40;

/// A symlink chain longer than [`MAX_SYMLINK_DEPTH`] links.
#[derive(Debug, Clone, Copy, PartialEq, Eq, Structural)]
pub struct CanonError;

/// Canonical form of a directory path: every symlink among its
/// components resolved, or `None` when resolution exceeds the depth cap.
///
/// A component that is absent from the inventory, or present as a
/// non-symlink, passes through unchanged. An absolute symlink target
/// restarts resolution at the root; a relative one is joined to the
/// canonical parent and normalized first.
pub open spec fn spec_canon_dir(
    fm: Seq<(Seq<Seq<char>>, FileInfoV)>,
    path: Seq<Seq<char>>,
    depth: int,
) -> Option<Seq<Seq<char>>>
    decreases MAX_SYMLINK_DEPTH + 1 - depth, path.len(),
{
    if depth > MAX_SYMLINK_DEPTH {
        Option::None
    } else if path.len() == 0 {
        Option::Some(Seq::empty())
    } else {
        match spec_canon_dir(fm, path.drop_last(), depth) {
            Option::None => Option::None,
            Option::Some(cp) => {
                let cur = cp.push(path.last());
                match spec_get_of(fm, cur) {
                    Option::Some(info) => if info.file_type is Symlink && info.target is Some {
                        let t = info.target->Some_0;
                        if t.0 {
                            spec_canon_dir(fm, t.1, depth + 1)
                        } else {
                            spec_canon_dir(fm, spec_normalize(cp + t.1), depth + 1)
                        }
                    } else {
                        Option::Some(cur)
                    },
                    Option::None => Option::Some(cur),
                }
            },
        }
    }
}

/// Resolve symlinks in every component of `path`.
///
/// Exactly [`spec_canon_dir`]: fails if and only if resolution needs
/// more than [`MAX_SYMLINK_DEPTH`] levels; in particular any call with
/// `depth > MAX_SYMLINK_DEPTH` is rejected.
pub fn canonicalize_dir_path(
    files: &FileMap,
    path: &Vec<String>,
    depth: u64,
) -> (r: Result<Vec<String>, CanonError>)
    requires
        files.wf(),
    ensures
        match r {
            Result::Ok(v) => spec_canon_dir(files@, path.deep_view(), depth as int)
                == Option::Some(v.deep_view()),
            Result::Err(_) => spec_canon_dir(files@, path.deep_view(), depth as int) is None,
        },
        depth > MAX_SYMLINK_DEPTH ==> r is Err,
    decreases MAX_SYMLINK_DEPTH + 1 - depth, path@.len(),
{
    if depth > MAX_SYMLINK_DEPTH {
        return Result::Err(CanonError);
    }
    if path.len() == 0 {
        let r: Vec<String> = Vec::new();
        proof {
            assert(r.deep_view() =~= Seq::<Seq<char>>::empty());
        }
        return Result::Ok(r);
    }
    let mut parent = clone_path(path);
    let last = parent.pop().unwrap();
    proof {
        assert(parent.deep_view() =~= path.deep_view().drop_last());
        assert(last@ == path.deep_view().last());
    }
    let cp = match canonicalize_dir_path(files, &parent, depth) {
        Result::Ok(v) => v,
        Result::Err(e) => {
            return Result::Err(e);
        },
    };
    let mut cur = cp;
    cur.push(last);
    let ghost cp_view = cur.deep_view().drop_last();
    proof {
        assert(cp_view =~= spec_canon_dir(files@, path.deep_view().drop_last(),
            depth as int)->Some_0);
        assert(cur.deep_view() =~= cp_view.push(path.deep_view().last()));
    }
    let step = files.get(&cur);
    match step {
        Option::Some(info) => {
            if matches!(info.file_type, FileType::Symlink) && info.target.is_some() {
                let t = info.target.as_ref().unwrap();
                if t.absolute {
                    let tseg = clone_path(&t.segments);
                    canonicalize_dir_path(files, &tseg, depth + 1)
                } else {
                    let mut resolved = cur;
                    let _ = resolved.pop();
                    proof {
                        assert(resolved.deep_view() =~= cp_view);
                    }
                    let mut i: usize = 0;
                    while i < t.segments.len()
                        invariant
                            i <= t.segments@.len(),
                            resolved.deep_view() =~= cp_view + t.segments.deep_view().subrange(
                                0,
                                i as int,
                            ),
                        decreases t.segments@.len() - i,
                    {
                        let ghost pre = resolved.deep_view();
                        resolved.push(t.segments[i].clone());
                        proof {
                            assert(resolved.deep_view() =~= pre.push(
                                t.segments.deep_view()[i as int],
                            ));
                            assert(cp_view + t.segments.deep_view().subrange(0, i + 1) =~= (
                            cp_view + t.segments.deep_view().subrange(0, i as int)).push(
                                t.segments.deep_view()[i as int],
                            ));
                        }
                        i = i + 1;
                    }
                    proof {
                        assert(t.segments.deep_view().subrange(
                            0,
                            t.segments@.len() as int,
                        ) =~= t.segments.deep_view());
                        assert(resolved.deep_view() =~= cp_view + t.segments.deep_view());
                    }
                    let normalized = normalize_path(&resolved);
                    canonicalize_dir_path(files, &normalized, depth + 1)
                }
            } else {
                Result::Ok(cur)
            }
        },
        Option::None => Result::Ok(cur),
    }
}

/// The canonical form of a path with only its parent resolved: the
/// directory components pass through [`spec_canon_dir`], the final
/// component is appended verbatim.
pub open spec fn spec_canon_parent(
    fm: Seq<(Seq<Seq<char>>, FileInfoV)>,
    path: Seq<Seq<char>>,
) -> Option<Seq<Seq<char>>> {
    if path.len() == 0 {
        Option::Some(Seq::empty())
    } else {
        match spec_canon_dir(fm, path.drop_last(), 0) {
            Option::Some(cp) => Option::Some(cp.push(path.last())),
            Option::None => Option::None,
        }
    }
}

/// Canonicalize the parent directory of a path by resolving symlinks.
///
/// Only directory components are resolved; the final component is kept
/// verbatim, so that a symlink leaf is not claimed as the file it points
/// to. The root canonicalizes to itself.
pub fn canonicalize_parent_path(files: &FileMap, path: &Vec<String>) -> (r: Result<
    Vec<String>,
    CanonError,
>)
    requires
        files.wf(),
    ensures
        match r {
            Result::Ok(v) => spec_canon_parent(files@, path.deep_view()) == Option::Some(
                v.deep_view(),
            ) && (path.deep_view().len() > 0 ==> v.deep_view().len() > 0
                && v.deep_view().last() == path.deep_view().last()),
            Result::Err(_) => spec_canon_parent(files@, path.deep_view()) is None,
        },
{
    if path.len() == 0 {
        let r: Vec<String> = Vec::new();
        proof {
            assert(r.deep_view() =~= Seq::<Seq<char>>::empty());
        }
        return Result::Ok(r);
    }
    let mut parent = clone_path(path);
    let last = parent.pop().unwrap();
    proof {
        assert(parent.deep_view() =~= path.deep_view().drop_last());
        assert(last@ == path.deep_view().last());
    }
    match canonicalize_dir_path(files, &parent, 0) {
        Result::Ok(cp) => {
            let mut out = cp;
            out.push(last);
            proof {
                assert(out.deep_view() =~= out.deep_view().drop_last().push(
                    path.deep_view().last(),
                ));
            }
            Result::Ok(out)
        },
        Result::Err(e) => Result::Err(e),
    }
}

/// The OCI (Go) name of a machine architecture; unknown names pass through.
pub open spec fn spec_goarch(a: Seq<char>) -> Seq<char> {
    if a == "x86_64"@ {
        "amd64"@
    } else if a == "aarch64"@ {
        "arm64"@
    } else if a == "powerpc64"@ {
        "ppc64le"@
    } else {
        a
    }
}

/// Translate a machine architecture name to the OCI/Go convention.
pub fn get_goarch(arch: &str) -> (r: String)
    ensures
        r@ == spec_goarch(arch@),
{
    if str_eq(arch, "x86_64") {
        "amd64".to_owned()
    } else if str_eq(arch, "aarch64") {
        "arm64".to_owned()
    } else if str_eq(arch, "powerpc64") {
        "ppc64le".to_owned()
    } else {
        arch.to_owned()
    }
}

/// The system clock read before the UNIX epoch.
#[derive(Debug, Clone, Copy, PartialEq, Eq, Structural)]
pub struct TimeError;

#[verifier::external_type_specification]
#[verifier::external_body]
pub struct ExSystemTime(std::time::SystemTime);

/// Relies on std::time::SystemTime::now: reads the system clock.
#[verifier::external_body]
fn system_time_now() -> std::time::SystemTime {
    std::time::SystemTime::now()
}

/// Relies on std::time::SystemTime::duration_since: returns the span from
/// the argument to `self`, or an error when `self` is earlier. Called with
/// the UNIX epoch; the error case is collapsed to `None`.
#[verifier::external_body]
fn duration_since_unix_epoch(t: &std::time::SystemTime) -> Option<core::time::Duration> {
    t.duration_since(std::time::UNIX_EPOCH).ok()
}

/// Relies on core::time::Duration::as_secs: the whole seconds of the span.
#[verifier::external_body]
fn duration_as_secs(d: &core::time::Duration) -> u64 {
    d.as_secs()
}

/// Current time as seconds since the UNIX epoch, from the system clock.
/// Fails only when the clock reads before the epoch.
pub fn get_current_epoch() -> Result<u64, TimeError> {
    let t = system_time_now();
    match duration_since_unix_epoch(&t) {
        Some(d) => Ok(duration_as_secs(&d)),
        None => Err(TimeError),
    }
}

} // verus!
