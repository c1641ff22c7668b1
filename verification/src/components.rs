//! Component providers and the component assembler.
//!
//! Each provider discovers logical file bundles in the rootfs and claims
//! paths on their behalf; the assembler reconciles the providers'
//! claims, routes every scanned path into the winning components, and
//! clamps file modification times to each component's bound.

pub mod alpm;
pub mod alpm_repo;
pub mod bigfiles;
pub mod rpm;

use vstd::prelude::*;

use crate::components::alpm_repo::{alpm_claim_find, AlpmComponentsRepo};
use crate::components::bigfiles::{big_claim_find, BigfilesRepo};
use crate::components::rpm::{spec_claims_filtered, spec_in_rpmdb, RpmRepo};
use crate::filemap::{clone_path, FileInfoV, FileMap};
use crate::strutil::str_eq;

verus! {

/// The assembled output of the providers for one logical unit: an mtime
/// clamp, a stability score, and the files the component owns.
#[derive(Debug)]
pub struct Component {
    /// Upper bound for any file's emitted mtime inside this component.
    pub mtime_clamp: u64,
    /// Probability the component does not change, in fixed point.
    pub stability: u64,
    /// The files this component owns.
    pub files: FileMap,
}

/// Mathematical value of a [`Component`].
pub ghost struct ComponentV {
    pub mtime_clamp: u64,
    pub stability: u64,
    pub files: Seq<(Seq<Seq<char>>, FileInfoV)>,
}

impl View for Component {
    type V = ComponentV;

    open spec fn view(&self) -> ComponentV {
        ComponentV {
            mtime_clamp: self.mtime_clamp,
            stability: self.stability,
            files: self.files@,
        }
    }
}

/// A provider handed out a component id it does not have: a programmer
/// error surfaced as a diagnostic instead of partial output.
#[derive(Debug, Clone, Copy, PartialEq, Eq, Structural)]
pub struct InvalidComponentId;

/// `info` with its mtime clamped to `clamp`.
pub open spec fn spec_clamped(info: FileInfoV, clamp: u64) -> FileInfoV {
    FileInfoV {
        mtime: if info.mtime > clamp {
            clamp
        } else {
            info.mtime
        },
        ..info
    }
}

/// Some component of `out` owns the path `k`.
pub open spec fn some_component_contains(out: Seq<(String, Component)>, k: Seq<Seq<char>>) -> bool {
    exists|j: int| 0 <= j < out.len() && (#[trigger] out[j].1).files.spec_contains(k)
}

/// Every file of the component respects its mtime clamp.
pub open spec fn component_clamped(c: ComponentV) -> bool {
    forall|k: Seq<Seq<char>>|
        (#[trigger] crate::filemap::spec_get_of(c.files, k)) matches Option::Some(v) ==> v.mtime
            <= c.mtime_clamp
}

/// The (name, mtime clamp, stability) rows of provider `comps` selected
/// by the claim ids `ids`.
pub open spec fn winner_rows(comps: Seq<(Seq<char>, u64, u64)>, ids: Seq<usize>) -> Seq<
    (Seq<char>, u64, u64),
> {
    ids.map_values(|id: usize| comps[id as int])
}

/// The components that win a path, in provider priority order: the RPM
/// provider's matching claims when it has any; else the ALPM provider's;
/// else the big-files provider's; else the synthetic unclaimed
/// component with the build epoch as clamp and zero stability.
pub open spec fn spec_winners(
    rpm: Option<RpmRepo>,
    alpm: Option<AlpmComponentsRepo>,
    big: Option<BigfilesRepo>,
    path: Seq<Seq<char>>,
    ft: crate::filemap::FileType,
    build_epoch: u64,
) -> Seq<(Seq<char>, u64, u64)> {
    let rpm_ids: Seq<usize> = match rpm {
        Option::Some(repo) => if spec_in_rpmdb(path) {
            Seq::empty()
        } else {
            spec_claims_filtered(repo@.1, path, ft)
        },
        Option::None => Seq::empty(),
    };
    if rpm_ids.len() > 0 {
        winner_rows(rpm->Some_0@.0, rpm_ids)
    } else {
        let alpm_ids: Seq<usize> = match alpm {
            Option::Some(repo) => {
                let j = alpm_claim_find(repo@.1, path);
                if j >= 0 {
                    repo@.1[j].1
                } else {
                    Seq::empty()
                }
            },
            Option::None => Seq::empty(),
        };
        if alpm_ids.len() > 0 {
            winner_rows(alpm->Some_0@.0, alpm_ids)
        } else {
            let big_hit: Option<usize> = match big {
                Option::Some(repo) => {
                    let j = big_claim_find(repo@.1, path);
                    if j >= 0 {
                        Option::Some(repo@.1[j].1)
                    } else {
                        Option::None
                    }
                },
                Option::None => Option::None,
            };
            match big_hit {
                Option::Some(id) => seq![
                    (big->Some_0@.0[id as int], big->Some_0@.2, 0u64),
                ],
                Option::None => seq![("unclaimed"@, build_epoch, 0u64)],
            }
        }
    }
}

/// Every id the RPM provider's claims hand out is a real component.
pub open spec fn rpm_ids_in_range(repo: RpmRepo) -> bool {
    forall|j: int, q: int|
        0 <= j < repo@.1.len() && 0 <= q < repo@.1[j].1.len() ==> (#[trigger] repo@.1[j].1[
        q]).0 < repo@.0.len()
}

/// Every id the ALPM provider's claims hand out is a real component.
pub open spec fn alpm_ids_in_range(repo: AlpmComponentsRepo) -> bool {
    forall|j: int, q: int|
        0 <= j < repo@.1.len() && 0 <= q < repo@.1[j].1.len() ==> (#[trigger] repo@.1[j].1[
        q]) < repo@.0.len()
}

/// Every id the big-files provider's claims hand out is a real component.
pub open spec fn big_ids_in_range(repo: BigfilesRepo) -> bool {
    forall|j: int| 0 <= j < repo@.1.len() ==> (#[trigger] repo@.1[j]).1 < repo@.0.len()
}

/// Every present provider only hands out ids it has components for.
pub open spec fn providers_in_range(
    rpm: Option<RpmRepo>,
    alpm: Option<AlpmComponentsRepo>,
    big: Option<BigfilesRepo>,
) -> bool {
    &&& (rpm matches Option::Some(r) ==> rpm_ids_in_range(r))
    &&& (alpm matches Option::Some(r) ==> alpm_ids_in_range(r))
    &&& (big matches Option::Some(r) ==> big_ids_in_range(r))
}

/// First index of the component named `name`, or -1.
pub open spec fn out_find(out: Seq<(String, Component)>, name: Seq<char>) -> int
    decreases out.len(),
{
    if out.len() == 0 {
        -1
    } else if out.first().0@ == name {
        0
    } else {
        let r = out_find(out.drop_first(), name);
        if r < 0 {
            -1
        } else {
            r + 1
        }
    }
}

proof fn lemma_out_find_at(out: Seq<(String, Component)>, name: Seq<char>, at: int)
    requires
        0 <= at < out.len(),
        out[at].0@ == name,
        forall|j: int| 0 <= j < at ==> out[j].0@ != name,
    ensures
        out_find(out, name) == at,
    decreases out.len(),
{
    if at > 0 {
        assert(out.drop_first()[at - 1] == out[at]);
        assert forall|j: int| 0 <= j < at - 1 implies out.drop_first()[j].0@ != name by {
            assert(out.drop_first()[j] == out[j + 1]);
        }
        lemma_out_find_at(out.drop_first(), name, at - 1);
    }
}

proof fn lemma_out_find_none(out: Seq<(String, Component)>, name: Seq<char>)
    requires
        forall|j: int| 0 <= j < out.len() ==> out[j].0@ != name,
    ensures
        out_find(out, name) == -1,
    decreases out.len(),
{
    if out.len() > 0 {
        assert forall|j: int|
            0 <= j < out.drop_first().len() implies out.drop_first()[j].0@ != name by {
            assert(out.drop_first()[j] == out[j + 1]);
        }
        lemma_out_find_none(out.drop_first(), name);
    }
}

/// The path at `idx` is routed: every winning component exists in `out`
/// and owns the path's record, mtime clamped to that component's bound.
pub open spec fn routed(
    out: Seq<(String, Component)>,
    files: Seq<(Seq<Seq<char>>, FileInfoV)>,
    rpm: Option<RpmRepo>,
    alpm: Option<AlpmComponentsRepo>,
    big: Option<BigfilesRepo>,
    build_epoch: u64,
    idx: int,
) -> bool {
    let ws = spec_winners(rpm, alpm, big, files[idx].0, files[idx].1.file_type, build_epoch);
    forall|w: int|
        0 <= w < ws.len() ==> {
            let j = out_find(out, (#[trigger] ws[w]).0);
            &&& j >= 0
            &&& out[j].1.files.spec_get(files[idx].0) == Option::Some(
                spec_clamped(files[idx].1, out[j].1.mtime_clamp),
            )
        }
}

/// Merge per-provider claims into named components.
///
/// For each scanned path the providers are asked in priority order
/// (RPM, then ALPM, then big files); the first provider with a claim
/// wins, and the path is copied into every component that provider
/// claims it for, with its mtime clamped to the component's bound.
/// Unclaimed paths fall into a synthetic component named `unclaimed`
/// with the build epoch as clamp and zero stability.
///
/// Fails only when a provider hands out an unknown component id.
pub fn into_components(
    files: &FileMap,
    rpm: &Option<RpmRepo>,
    alpm: &Option<AlpmComponentsRepo>,
    big: &Option<BigfilesRepo>,
    build_epoch: u64,
) -> (r: Result<Vec<(String, Component)>, InvalidComponentId>)
    requires
        files.wf(),
    ensures
        r matches Result::Ok(out) ==> {
            &&& forall|j: int| 0 <= j < out@.len() ==> (#[trigger] out@[j].1)@.files.len() > 0
            &&& forall|j: int|
                0 <= j < out@.len() ==> component_clamped((#[trigger] out@[j].1)@)
            &&& forall|p: int, q: int| 0 <= p < q < out@.len() ==> out@[p].0@ != out@[q].0@
            &&& forall|j: int| 0 <= j < out@.len() ==> (#[trigger] out@[j].1).files.wf()
            &&& forall|idx: int|
                0 <= idx < files@.len() ==> some_component_contains(
                    out@,
                    (#[trigger] files@[idx]).0,
                )
            &&& forall|idx: int|
                0 <= idx < files@.len() ==> routed(out@, files@, *rpm, *alpm, *big, build_epoch,
                idx)
        },
        providers_in_range(*rpm, *alpm, *big) ==> r is Ok,
        r is Err ==> !providers_in_range(*rpm, *alpm, *big),
{
    let ghost rpm_g = *rpm;
    let ghost alpm_g = *alpm;
    let ghost big_g = *big;
    let mut out: Vec<(String, Component)> = Vec::new();
    let n = files.len();
    let mut idx: usize = 0;
    while idx < n
        invariant
            files.wf(),
            n == files@.len(),
            idx <= n,
            rpm_g == *rpm,
            alpm_g == *alpm,
            big_g == *big,
            forall|j: int| 0 <= j < out@.len() ==> (#[trigger] out@[j].1)@.files.len() > 0,
            forall|j: int| 0 <= j < out@.len() ==> component_clamped((#[trigger] out@[j].1)@),
            forall|p: int, q: int| 0 <= p < q < out@.len() ==> out@[p].0@ != out@[q].0@,
            forall|j: int| 0 <= j < out@.len() ==> (#[trigger] out@[j].1).files.wf(),
            forall|p: int|
                0 <= p < idx ==> some_component_contains(out@, (#[trigger] files@[p]).0),
            forall|p: int|
                0 <= p < idx ==> routed(out@, files@, rpm_g, alpm_g, big_g, build_epoch, p),
        decreases n - idx,
    {
        let path = files.key_at(idx);
        let info = files.info_at(idx);
        let ghost ws = spec_winners(
            rpm_g,
            alpm_g,
            big_g,
            files@[idx as int].0,
            files@[idx as int].1.file_type,
            build_epoch,
        );

        // Ask the providers in priority order; first claimant wins.
        let mut winners: Vec<(String, u64, u64)> = Vec::new();
        let mut claimed = false;
        match rpm {
            Option::Some(repo) => {
                let ids = repo.claims_for_path(path, info.file_type);
                proof {
                    assert(ids@ =~= match rpm_g {
                        Option::Some(r) => if spec_in_rpmdb(files@[idx as int].0) {
                            Seq::<usize>::empty()
                        } else {
                            spec_claims_filtered(
                                r@.1,
                                files@[idx as int].0,
                                files@[idx as int].1.file_type,
                            )
                        },
                        Option::None => Seq::<usize>::empty(),
                    });
                }
                if ids.len() > 0 {
                    claimed = true;
                    proof {
                        assert(ids@ == spec_claims_filtered(
                            repo@.1,
                            files@[idx as int].0,
                            files@[idx as int].1.file_type,
                        ));
                    }
                    let mut w: usize = 0;
                    while w < ids.len()
                        invariant
                            w <= ids@.len(),
                            rpm_g == *rpm,
                            alpm_g == *alpm,
                            big_g == *big,
                            rpm_g == Option::Some(*repo),
                            0 <= idx < files@.len(),
                            ids@ == spec_claims_filtered(
                                repo@.1,
                                files@[idx as int].0,
                                files@[idx as int].1.file_type,
                            ),
                            winners.deep_view() =~= winner_rows(
                                repo@.0,
                                ids@.subrange(0, w as int),
                            ),
                        decreases ids@.len() - w,
                    {
                        let id = ids[w];
                        if id >= repo.component_count() {
                            proof {
                                let path_d = files@[idx as int].0;
                                let ft = files@[idx as int].1.file_type;
                                let jf = crate::components::rpm::claim_find(repo@.1, path_d);
                                assert(jf >= 0);
                                crate::components::rpm::lemma_claim_find_props(repo@.1, path_d);
                                assert(ids@ == crate::components::rpm::spec_filter_ids(
                                    repo@.1[jf].1,
                                    ft,
                                ));
                                assert(ids@[w as int] == id);
                                crate::components::rpm::lemma_filter_ids_member(
                                    repo@.1[jf].1,
                                    ft,
                                    w as int,
                                );
                                let q = choose|q: int|
                                    0 <= q < repo@.1[jf].1.len() && (#[trigger] repo@.1[jf].1[
                                    q]).0 == crate::components::rpm::spec_filter_ids(
                                        repo@.1[jf].1,
                                        ft,
                                    )[w as int];
                                assert(repo@.1[jf].1[q].0 == id);
                                assert(id >= repo@.0.len());
                                assert(!rpm_ids_in_range(rpm_g->Some_0));
                            }
                            return Result::Err(InvalidComponentId);
                        }
                        let ci = repo.component_info(id);
                        let ghost pre_w = winners.deep_view();
                        winners.push((ci.0.clone(), ci.1, ci.2));
                        proof {
                            assert(winners.deep_view() =~= pre_w.push(repo@.0[id as int]));
                            assert(ids@.subrange(0, w + 1).drop_last() =~= ids@.subrange(
                                0,
                                w as int,
                            ));
                            assert(winner_rows(repo@.0, ids@.subrange(0, w + 1)) =~= winner_rows(
                                repo@.0,
                                ids@.subrange(0, w as int),
                            ).push(repo@.0[ids@[w as int] as int]));
                        }
                        w = w + 1;
                    }
                    proof {
                        assert(ids@.subrange(0, ids@.len() as int) =~= ids@);
                        assert(winners.deep_view() =~= ws);
                    }
                }
            },
            Option::None => {},
        }
        if !claimed {
            match alpm {
                Option::Some(repo) => {
                    let ids = repo.claims_for_path(path);
                    proof {
                        let j = alpm_claim_find(repo@.1, files@[idx as int].0);
                        if j >= 0 {
                            assert(ids@ == repo@.1[j].1);
                        } else {
                            assert(ids@ =~= Seq::<usize>::empty());
                        }
                    }
                    if ids.len() > 0 {
                        claimed = true;
                        proof {
                            assert(alpm_claim_find(repo@.1, files@[idx as int].0) >= 0);
                        }
                        let mut w: usize = 0;
                        while w < ids.len()
                            invariant
                                w <= ids@.len(),
                                rpm_g == *rpm,
                                alpm_g == *alpm,
                                big_g == *big,
                                alpm_g == Option::Some(*repo),
                                0 <= idx < files@.len(),
                                alpm_claim_find(repo@.1, files@[idx as int].0) >= 0,
                                ids@ == repo@.1[alpm_claim_find(
                                    repo@.1,
                                    files@[idx as int].0,
                                )].1,
                                winners.deep_view() =~= winner_rows(
                                    repo@.0,
                                    ids@.subrange(0, w as int),
                                ),
                            decreases ids@.len() - w,
                        {
                            let id = ids[w];
                            if id >= repo.component_count() {
                                proof {
                                    let path_d = files@[idx as int].0;
                                    let jf = alpm_claim_find(repo@.1, path_d);
                                    crate::components::alpm_repo::lemma_alpm_claim_find_props(
                                        repo@.1,
                                        path_d,
                                    );
                                    assert(0 <= jf < repo@.1.len());
                                    assert(ids@ == repo@.1[jf].1);
                                    assert(repo@.1[jf].1[w as int] == id);
                                    assert(id >= repo@.0.len());
                                    assert(!alpm_ids_in_range(alpm_g->Some_0));
                                }
                                return Result::Err(InvalidComponentId);
                            }
                            let ci = repo.component_info(id);
                            let ghost pre_w = winners.deep_view();
                            winners.push((ci.0.clone(), ci.1, ci.2));
                            proof {
                                assert(winners.deep_view() =~= pre_w.push(repo@.0[id as int]));
                                assert(ids@.subrange(0, w + 1).drop_last() =~= ids@.subrange(
                                    0,
                                    w as int,
                                ));
                                assert(winner_rows(repo@.0, ids@.subrange(0, w + 1))
                                    =~= winner_rows(repo@.0, ids@.subrange(0, w as int)).push(
                                    repo@.0[ids@[w as int] as int],
                                ));
                            }
                            w = w + 1;
                        }
                        proof {
                            assert(ids@.subrange(0, ids@.len() as int) =~= ids@);
                            assert(winners.deep_view() =~= ws);
                        }
                    }
                },
                Option::None => {},
            }
        }
        if !claimed {
            match big {
                Option::Some(repo) => {
                    match repo.claims_for_path(path) {
                        Option::Some(id) => {
                            claimed = true;
                            if id >= repo.component_count() {
                                proof {
                                    let path_d = files@[idx as int].0;
                                    let jf = big_claim_find(repo@.1, path_d);
                                    assert(jf >= 0);
                                    crate::components::bigfiles::lemma_big_claim_find_props(
                                        repo@.1,
                                        path_d,
                                    );
                                    assert(0 <= jf < repo@.1.len());
                                    assert(repo@.1[jf].1 == id);
                                    assert(id >= repo@.0.len());
                                    assert(!big_ids_in_range(big_g->Some_0));
                                }
                                return Result::Err(InvalidComponentId);
                            }
                            let ci = repo.component_info(id);
                            winners.push((ci.0.clone(), ci.1, ci.2));
                            proof {
                                assert(winners.deep_view() =~= ws);
                            }
                        },
                        Option::None => {},
                    }
                },
                Option::None => {},
            }
        }
        if !claimed {
            winners.push(("unclaimed".to_owned(), build_epoch, 0));
            proof {
                assert(winners.deep_view() =~= ws);
            }
        }

        // Route the file into every winning component.
        let mut w: usize = 0;
        while w < winners.len()
            invariant
                files.wf(),
                n == files@.len(),
                idx < n,
                w <= winners@.len(),
                winners@.len() > 0,
                rpm_g == *rpm,
                alpm_g == *alpm,
                big_g == *big,
                winners.deep_view() == ws,
                ws == spec_winners(
                    rpm_g,
                    alpm_g,
                    big_g,
                    files@[idx as int].0,
                    files@[idx as int].1.file_type,
                    build_epoch,
                ),
                forall|j: int| 0 <= j < out@.len() ==> (#[trigger] out@[j].1)@.files.len() > 0,
                forall|j: int|
                    0 <= j < out@.len() ==> component_clamped((#[trigger] out@[j].1)@),
                forall|p: int, q: int| 0 <= p < q < out@.len() ==> out@[p].0@ != out@[q].0@,
                forall|j: int| 0 <= j < out@.len() ==> (#[trigger] out@[j].1).files.wf(),
                forall|p: int|
                    0 <= p < idx ==> some_component_contains(out@, (#[trigger] files@[p]).0),
                forall|p: int|
                    0 <= p < idx ==> routed(out@, files@, rpm_g, alpm_g, big_g, build_epoch, p),
                path.deep_view() == files@[idx as int].0,
                info@ == files@[idx as int].1,
                w > 0 ==> some_component_contains(out@, files@[idx as int].0),
                forall|w2: int|
                    0 <= w2 < w ==> claim_holds(
                        out@,
                        (#[trigger] ws[w2]).0,
                        files@[idx as int].0,
                        files@[idx as int].1,
                    ),
            decreases winners@.len() - w,
        {
            let name = &winners[w].0;
            let clamp = winners[w].1;
            let stab = winners[w].2;
            proof {
                assert(name@ == ws[w as int].0);
            }
            // Find or create the component with this name.
            let mut j: usize = 0;
            let mut found = false;
            loop
                invariant
                    j <= out@.len(),
                    forall|q: int| 0 <= q < j ==> out@[q].0@ != name@,
                    found ==> j < out@.len() && out@[j as int].0@ == name@,
                ensures
                    j <= out@.len(),
                    forall|q: int| 0 <= q < j ==> out@[q].0@ != name@,
                    found ==> j < out@.len() && out@[j as int].0@ == name@,
                    !found ==> forall|q: int| 0 <= q < out@.len() ==> out@[q].0@ != name@,
                decreases out@.len() - j + if found {
                    0int
                } else {
                    1int
                },
            {
                if found {
                    break;
                }
                if j >= out.len() {
                    break;
                }
                if str_eq(out[j].0.as_str(), name.as_str()) {
                    found = true;
                } else {
                    j = j + 1;
                }
            }
            if !found {
                j = out.len();
                let ghost pre = out@;
                out.push(
                    (
                        name.clone(),
                        Component { mtime_clamp: clamp, stability: stab, files: FileMap::new() },
                    ),
                );
                proof {
                    assert forall|q: int| 0 <= q < pre.len() implies out@[q] == pre[q] by {}
                    assert forall|p: int, q: int|
                        0 <= p < q < out@.len() implies out@[p].0@ != out@[q].0@ by {
                        if q < pre.len() {
                            assert(out@[p] == pre[p] && out@[q] == pre[q]);
                        } else {
                            assert(out@[p] == pre[p]);
                        }
                    }
                    assert forall|p: int|
                        0 <= p < idx implies some_component_contains(
                        out@,
                        (#[trigger] files@[p]).0,
                    ) by {
                        assert(some_component_contains(pre, files@[p].0));
                        let jw = choose|j: int|
                            0 <= j < pre.len() && (#[trigger] pre[j].1).files.spec_contains(
                                files@[p].0,
                            );
                        assert(out@[jw] == pre[jw]);
                        assert(out@[jw].1.files.spec_contains(files@[p].0));
                    }
                    if w > 0 {
                        assert(some_component_contains(pre, files@[idx as int].0));
                        let jw = choose|j: int|
                            0 <= j < pre.len() && (#[trigger] pre[j].1).files.spec_contains(
                                files@[idx as int].0,
                            );
                        assert(out@[jw] == pre[jw]);
                        assert(out@[jw].1.files.spec_contains(files@[idx as int].0));
                        assert(some_component_contains(out@, files@[idx as int].0));
                    }
                    assert forall|p: int|
                        0 <= p < idx implies routed(
                        out@,
                        files@,
                        rpm_g,
                        alpm_g,
                        big_g,
                        build_epoch,
                        p,
                    ) by {
                        lemma_routed_stable(pre, out@, files@, rpm_g, alpm_g, big_g, build_epoch,
                            p, files@[p].0, files@[p].1);
                    }
                    assert forall|w2: int|
                        0 <= w2 < w implies claim_holds(
                        out@,
                        (#[trigger] ws[w2]).0,
                        files@[idx as int].0,
                        files@[idx as int].1,
                    ) by {
                        lemma_claim_stable(pre, out@, ws[w2].0, files@[idx as int].0,
                            files@[idx as int].1);
                    }
                }
            }
            // Insert the file, mtime clamped to the component's bound.
            let ghost before = out@;
            let mut entry = out.remove(j);
            proof {
                assert(out@ =~= before.remove(j as int));
                assert(entry == before[j as int]);
            }
            let ghost pre_entry = entry;
            let ghost name0 = entry.0@;
            let mut dup = info.duplicate();
            if dup.mtime > entry.1.mtime_clamp {
                dup.mtime = entry.1.mtime_clamp;
            }
            proof {
                assert(dup@ == spec_clamped(info@, entry.1.mtime_clamp));
            }
            let key = clone_path(path);
            entry.1.files.insert(key, dup);
            proof {
                assert(entry.1.files.spec_contains(files@[idx as int].0));
                assert(entry.1.files.spec_get(files@[idx as int].0) == Option::Some(
                    spec_clamped(info@, entry.1.mtime_clamp),
                ));
                assert(component_clamped(entry.1@)) by {
                    assert forall|k: Seq<Seq<char>>|
                        (#[trigger] crate::filemap::spec_get_of(entry.1@.files, k))
                            is Some implies crate::filemap::spec_get_of(
                        entry.1@.files,
                        k,
                    )->Some_0.mtime <= entry.1@.mtime_clamp by {
                        if k == files@[idx as int].0 {
                            assert(entry.1.files.spec_get(k) == Option::Some(
                                spec_clamped(info@, entry.1.mtime_clamp),
                            ));
                        } else {
                            assert(entry.1.files.spec_get(k) == pre_entry.1.files.spec_get(k));
                        }
                    }
                }
                assert forall|k: Seq<Seq<char>>|
                    pre_entry.1.files.spec_contains(k) implies entry.1.files.spec_contains(
                    k,
                ) by {
                    if k != files@[idx as int].0 {
                        assert(entry.1.files.spec_get(k) == pre_entry.1.files.spec_get(k));
                    }
                }
            }
            let ghost mid = out@;
            out.insert(j, entry);
            proof {
                assert(out@ =~= mid.insert(j as int, entry));
                before.remove_ensures(j as int);
                mid.insert_ensures(j as int, entry);
                assert forall|p: int|
                    0 <= p < out@.len() && p != j implies out@[p] == before[p] by {
                    if p < j {
                        assert(mid[p] == before[p]);
                        assert(out@[p] == mid[p]);
                    } else {
                        assert(mid[p - 1] == before[p]);
                        assert(out@[p] == mid[p - 1]);
                    }
                }
                assert(out@[j as int] == entry);
                assert(out@.len() == before.len());
                assert(entry.0@ == name0);
                assert(name0 == before[j as int].0@);
                assert(entry.1.mtime_clamp == before[j as int].1.mtime_clamp);
                assert forall|p: int, q: int|
                    0 <= p < q < out@.len() implies out@[p].0@ != out@[q].0@ by {
                    assert(out@[p].0@ == before[p].0@ && out@[q].0@ == before[q].0@);
                }
                assert forall|p: int|
                    0 <= p < idx + 1 implies some_component_contains(
                    out@,
                    (#[trigger] files@[p]).0,
                ) by {
                    if p < idx {
                        assert(some_component_contains(before, files@[p].0));
                        let jw = choose|j: int|
                            0 <= j < before.len() && (#[trigger] before[j].1).files.spec_contains(
                                files@[p].0,
                            );
                        if jw == j as int {
                            assert(pre_entry.1.files.spec_contains(files@[p].0));
                            assert(out@[j as int].1.files.spec_contains(files@[p].0));
                        } else {
                            assert(out@[jw] == before[jw]);
                            assert(out@[jw].1.files.spec_contains(files@[p].0));
                        }
                    } else {
                        assert(out@[j as int].1.files.spec_contains(files@[p].0));
                    }
                }
                // The inserted key is this path; every other path's record
                // in every component is untouched.
                assert forall|q: int, k: Seq<Seq<char>>|
                    0 <= q < out@.len() && k != files@[idx as int].0 implies #[trigger] crate::filemap::spec_get_of(
                    out@[q].1@.files,
                    k,
                ) == crate::filemap::spec_get_of(before[q].1@.files, k) by {
                    if q == j as int {
                        assert(entry.1.files.spec_get(k) == pre_entry.1.files.spec_get(k));
                    } else {
                        assert(out@[q] == before[q]);
                    }
                }
                assert forall|p: int|
                    0 <= p < idx implies routed(
                    out@,
                    files@,
                    rpm_g,
                    alpm_g,
                    big_g,
                    build_epoch,
                    p,
                ) by {
                    files.lemma_keys_distinct(p, idx as int);
                    lemma_routed_stable(before, out@, files@, rpm_g, alpm_g, big_g, build_epoch,
                        p, files@[p].0, files@[p].1);
                }
                assert(out_find(out@, ws[w as int].0) == j as int) by {
                    lemma_out_find_at(out@, ws[w as int].0, j as int);
                }
                assert forall|w2: int|
                    0 <= w2 < w + 1 implies claim_holds(
                    out@,
                    (#[trigger] ws[w2]).0,
                    files@[idx as int].0,
                    files@[idx as int].1,
                ) by {
                    if w2 < w {
                        lemma_out_find_props(before, ws[w2].0);
                        let jw = out_find(before, ws[w2].0);
                        lemma_out_find_at(out@, ws[w2].0, jw);
                        if jw == j as int {
                            assert(out@[j as int].1.files.spec_get(files@[idx as int].0)
                                == Option::Some(
                                spec_clamped(files@[idx as int].1, out@[j as int].1.mtime_clamp),
                            ));
                        } else {
                            assert(out@[jw] == before[jw]);
                        }
                    } else {
                        assert(out@[j as int].1.files.spec_get(files@[idx as int].0)
                            == Option::Some(
                            spec_clamped(files@[idx as int].1, out@[j as int].1.mtime_clamp),
                        ));
                    }
                }
            }
            w = w + 1;
        }
        proof {
            assert(routed(out@, files@, rpm_g, alpm_g, big_g, build_epoch, idx as int));
        }
        idx = idx + 1;
    }
    Result::Ok(out)
}

/// A claim fact survives appending a fresh component.
proof fn lemma_claim_stable(
    pre: Seq<(String, Component)>,
    post: Seq<(String, Component)>,
    name: Seq<char>,
    key: Seq<Seq<char>>,
    info: FileInfoV,
)
    requires
        claim_holds(pre, name, key, info),
        post.len() == pre.len() + 1,
        forall|q: int| 0 <= q < pre.len() ==> post[q] == pre[q],
    ensures
        claim_holds(post, name, key, info),
{
    lemma_out_find_props(pre, name);
    let jw = out_find(pre, name);
    assert forall|q: int| 0 <= q < jw implies post[q].0@ != name by {
        assert(post[q] == pre[q]);
    }
    lemma_out_find_at(post, name, jw);
}

/// A routing fact survives any reshaping of the component list that
/// keeps every old position's name and clamp, and the record under
/// `key`, unchanged.
proof fn lemma_routed_stable(
    pre: Seq<(String, Component)>,
    post: Seq<(String, Component)>,
    files: Seq<(Seq<Seq<char>>, FileInfoV)>,
    rpm: Option<RpmRepo>,
    alpm: Option<AlpmComponentsRepo>,
    big: Option<BigfilesRepo>,
    build_epoch: u64,
    idx: int,
    key: Seq<Seq<char>>,
    info: FileInfoV,
)
    requires
        routed(pre, files, rpm, alpm, big, build_epoch, idx),
        0 <= idx < files.len(),
        key == files[idx].0,
        info == files[idx].1,
        post.len() >= pre.len(),
        forall|q: int| 0 <= q < pre.len() ==> (#[trigger] post[q]).0@ == pre[q].0@,
        forall|q: int|
            0 <= q < pre.len() ==> (#[trigger] post[q]).1.mtime_clamp == pre[q].1.mtime_clamp,
        forall|q: int|
            0 <= q < pre.len() ==> crate::filemap::spec_get_of((#[trigger] post[q]).1@.files, key)
                == crate::filemap::spec_get_of(pre[q].1@.files, key),
    ensures
        routed(post, files, rpm, alpm, big, build_epoch, idx),
{
    let ws = spec_winners(rpm, alpm, big, files[idx].0, files[idx].1.file_type, build_epoch);
    assert forall|w: int| 0 <= w < ws.len() implies {
        let j = out_find(post, (#[trigger] ws[w]).0);
        &&& j >= 0
        &&& post[j].1.files.spec_get(files[idx].0) == Option::Some(
            spec_clamped(files[idx].1, post[j].1.mtime_clamp),
        )
    } by {
        lemma_out_find_props(pre, ws[w].0);
        let jw = out_find(pre, ws[w].0);
        assert forall|q: int| 0 <= q < jw implies post[q].0@ != ws[w].0 by {
            assert(pre[q].0@ != ws[w].0);
        }
        lemma_out_find_at(post, ws[w].0, jw);
    }
}

/// Where `out_find` lands: the first component with that name.
proof fn lemma_out_find_props(out: Seq<(String, Component)>, name: Seq<char>)
    ensures
        out_find(out, name) >= 0 ==> 0 <= out_find(out, name) < out.len() && out[out_find(
            out,
            name,
        )].0@ == name && forall|q: int| 0 <= q < out_find(out, name) ==> out[q].0@ != name,
        out_find(out, name) < 0 ==> forall|q: int| 0 <= q < out.len() ==> out[q].0@ != name,
    decreases out.len(),
{
    if out.len() > 0 {
        lemma_out_find_props(out.drop_first(), name);
        if out.first().0@ != name {
            let r = out_find(out.drop_first(), name);
            if r >= 0 {
                assert forall|q: int| 0 <= q < r + 1 implies out[q].0@ != name by {
                    if q > 0 {
                        assert(out.drop_first()[q - 1] == out[q]);
                    }
                }
                assert(out.drop_first()[r] == out[r + 1]);
            } else {
                assert forall|q: int| 0 <= q < out.len() implies out[q].0@ != name by {
                    if q > 0 {
                        assert(out.drop_first()[q - 1] == out[q]);
                    }
                }
            }
        }
    }
}

/// The component named `name` exists and owns `key`, clamped to its
/// bound.
pub open spec fn claim_holds(
    out: Seq<(String, Component)>,
    name: Seq<char>,
    key: Seq<Seq<char>>,
    info: FileInfoV,
) -> bool {
    let j = out_find(out, name);
    &&& j >= 0
    &&& out[j].1.files.spec_get(key) == Option::Some(spec_clamped(info, out[j].1.mtime_clamp))
}

} // verus!
