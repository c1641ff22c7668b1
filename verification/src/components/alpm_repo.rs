//! The ALPM component provider: folds a local database's per-package
//! `desc` and `files` texts into components keyed by `%BASE%` and a map
//! from canonicalized paths to claiming components.

use vstd::prelude::*;
use vstd::utf8::encode_utf8;

use crate::components::alpm::{spec_builddate, spec_files, spec_parse_db, AlpmError,
    AlpmValueError, LocalAlpmDbFile, ALPM_DBFILE_MAXIMUM_SIZE};
use crate::components::rpm::comp_find;
use crate::filemap::{clone_path, FileMap};
use crate::pathutil::{spec_segments, split_segments};
use crate::strutil::str_eq;
use crate::utils::{calculate_stability, canonicalize_parent_path, spec_canon_parent,
    spec_stability};

verus! {

/// Why an ALPM database could not be loaded.
#[derive(Debug, Clone, Copy, PartialEq, Eq, Structural)]
pub enum AlpmLoadError {
    /// A `desc` or `files` file is oversized or malformed.
    Db(AlpmError),
    /// `%BASE%` or `%BUILDDATE%` is missing or malformed.
    Value(AlpmValueError),
    /// A listed path begins with `/`: the specification mandates
    /// relative paths.
    AbsolutePath,
    /// Resolving a path hit the symlink depth cap.
    Canon,
}

/// The `%BASE%` name a `desc` file denotes, or the lookup error.
pub open spec fn spec_base(db: Seq<(Seq<char>, Seq<Seq<char>>)>) -> Result<
    Seq<char>,
    AlpmValueError,
> {
    if !crate::components::alpm::sec_has(db, "BASE"@) {
        Result::Err(AlpmValueError::SectionNotFound)
    } else {
        let v = crate::components::alpm::sec_get(db, "BASE"@);
        if v.len() == 0 {
            Result::Err(AlpmValueError::NoValue)
        } else if v.len() > 1 {
            Result::Err(AlpmValueError::ExtraData)
        } else {
            Result::Ok(v[0])
        }
    }
}

/// One claimed path folded into the claims: the component id is appended
/// to the canonicalized path's entry.
pub open spec fn spec_alpm_add_path(
    claims: Seq<(Seq<Seq<char>>, Seq<usize>)>,
    id: usize,
    canon: Seq<Seq<char>>,
) -> Seq<(Seq<Seq<char>>, Seq<usize>)> {
    let j = alpm_claim_find(claims, canon);
    if j >= 0 {
        claims.update(j, (claims[j].0, claims[j].1.push(id)))
    } else {
        claims.push((canon, seq![id]))
    }
}

/// First index with path `p` among the claims, or -1.
pub open spec fn alpm_claim_find(claims: Seq<(Seq<Seq<char>>, Seq<usize>)>, p: Seq<Seq<char>>)
    -> int
    decreases claims.len(),
{
    if claims.len() == 0 {
        -1
    } else if claims.first().0 == p {
        0
    } else {
        let r = alpm_claim_find(claims.drop_first(), p);
        if r < 0 {
            -1
        } else {
            r + 1
        }
    }
}

/// All paths of one package folded into the claims: each relative line
/// is split into segments, made absolute, and canonicalized; a line that
/// starts with `/` or fails to canonicalize stops the load.
pub open spec fn spec_alpm_add_paths(
    claims: Seq<(Seq<Seq<char>>, Seq<usize>)>,
    id: usize,
    lines: Seq<Seq<char>>,
    fm: Seq<(Seq<Seq<char>>, crate::filemap::FileInfoV)>,
) -> Result<Seq<(Seq<Seq<char>>, Seq<usize>)>, AlpmLoadError>
    decreases lines.len(),
{
    if lines.len() == 0 {
        Result::Ok(claims)
    } else {
        match spec_alpm_add_paths(claims, id, lines.drop_last(), fm) {
            Result::Err(e) => Result::Err(e),
            Result::Ok(c2) => {
                let line = lines.last();
                if line.len() > 0 && line[0] == '/' {
                    Result::Err(AlpmLoadError::AbsolutePath)
                } else {
                    match spec_canon_parent(fm, spec_segments(line)) {
                        Option::None => Result::Err(AlpmLoadError::Canon),
                        Option::Some(canon) => Result::Ok(spec_alpm_add_path(c2, id, canon)),
                    }
                }
            },
        }
    }
}

/// One package's `desc` and `files` texts folded into the state.
///
/// A new `%BASE%` opens a component with the package's build date and
/// stability; a further package of the same base raises the build date
/// clamp to the maximum and lowers the stability to the minimum.
pub open spec fn spec_alpm_add_package(
    state: (Seq<(Seq<char>, u64, u64)>, Seq<(Seq<Seq<char>>, Seq<usize>)>),
    desc_text: Seq<char>,
    files_text: Seq<char>,
    fm: Seq<(Seq<Seq<char>>, crate::filemap::FileInfoV)>,
    now: u64,
) -> Result<(Seq<(Seq<char>, u64, u64)>, Seq<(Seq<Seq<char>>, Seq<usize>)>), AlpmLoadError> {
    if encode_utf8(desc_text).len() > ALPM_DBFILE_MAXIMUM_SIZE {
        Result::Err(AlpmLoadError::Db(AlpmError::TooLarge))
    } else {
        match spec_parse_db(desc_text) {
            Result::Err(e) => Result::Err(AlpmLoadError::Db(e)),
            Result::Ok(desc) => if encode_utf8(files_text).len() > ALPM_DBFILE_MAXIMUM_SIZE {
                Result::Err(AlpmLoadError::Db(AlpmError::TooLarge))
            } else {
                match spec_parse_db(files_text) {
                    Result::Err(e) => Result::Err(AlpmLoadError::Db(e)),
                    Result::Ok(files_db) => match spec_base(desc) {
                        Result::Err(e) => Result::Err(AlpmLoadError::Value(e)),
                        Result::Ok(base) => match spec_builddate(desc) {
                            Result::Err(e) => Result::Err(AlpmLoadError::Value(e)),
                            Result::Ok(bd) => {
                                let stab = spec_stability(Seq::empty(), bd, now);
                                let comps = state.0;
                                let at = comp_find(comps, base);
                                let id = if at >= 0 {
                                    at
                                } else {
                                    comps.len() as int
                                };
                                let comps2 = if at >= 0 {
                                    let e = comps[at];
                                    let bd2 = if e.1 >= bd {
                                        e.1
                                    } else {
                                        bd
                                    };
                                    let st2 = if e.2 <= stab {
                                        e.2
                                    } else {
                                        stab
                                    };
                                    comps.update(at, (e.0, bd2, st2))
                                } else {
                                    comps.push((base, bd, stab))
                                };
                                match spec_alpm_add_paths(
                                    state.1,
                                    id as usize,
                                    spec_files(files_db),
                                    fm,
                                ) {
                                    Result::Err(e) => Result::Err(e),
                                    Result::Ok(claims2) => Result::Ok((comps2, claims2)),
                                }
                            },
                        },
                    },
                }
            },
        }
    }
}

/// All packages folded, in order.
pub open spec fn spec_alpm_load(
    pkgs: Seq<(Seq<char>, Seq<char>)>,
    fm: Seq<(Seq<Seq<char>>, crate::filemap::FileInfoV)>,
    now: u64,
) -> Result<(Seq<(Seq<char>, u64, u64)>, Seq<(Seq<Seq<char>>, Seq<usize>)>), AlpmLoadError>
    decreases pkgs.len(),
{
    if pkgs.len() == 0 {
        Result::Ok((Seq::empty(), Seq::empty()))
    } else {
        match spec_alpm_load(pkgs.drop_last(), fm, now) {
            Result::Err(e) => Result::Err(e),
            Result::Ok(state) => spec_alpm_add_package(
                state,
                pkgs.last().0,
                pkgs.last().1,
                fm,
                now,
            ),
        }
    }
}

/// ALPM component provider: components keyed by package base name,
/// paths claimed for any file type (ALPM records no type per entry).
#[derive(Debug)]
pub struct AlpmComponentsRepo {
    /// Component records: (base name, build date clamp, stability),
    /// indexed by component id.
    components: Vec<(String, u64, u64)>,
    /// Claims: canonicalized path -> component ids, in package order.
    claims: Vec<(Vec<String>, Vec<usize>)>,
}

impl View for AlpmComponentsRepo {
    type V = (Seq<(Seq<char>, u64, u64)>, Seq<(Seq<Seq<char>>, Seq<usize>)>);

    closed spec fn view(&self) -> (
        Seq<(Seq<char>, u64, u64)>,
        Seq<(Seq<Seq<char>>, Seq<usize>)>,
    ) {
        (self.components.deep_view(), self.claims.deep_view())
    }
}

impl AlpmComponentsRepo {
    /// Fold the packages of a local database (each its `desc` and
    /// `files` texts) into components and claims, in order: exactly
    /// [`spec_alpm_load`] against the scanned inventory.
    pub fn load_from_db(packages: &Vec<(String, String)>, image_files: &FileMap, now: u64) -> (r:
        Result<AlpmComponentsRepo, AlpmLoadError>)
        requires
            image_files.wf(),
        ensures
            match r {
                Result::Ok(repo) => spec_alpm_load(packages.deep_view(), image_files@, now)
                    == Result::<
                    (Seq<(Seq<char>, u64, u64)>, Seq<(Seq<Seq<char>>, Seq<usize>)>),
                    AlpmLoadError,
                >::Ok(repo@),
                Result::Err(e) => spec_alpm_load(packages.deep_view(), image_files@, now)
                    == Result::<
                    (Seq<(Seq<char>, u64, u64)>, Seq<(Seq<Seq<char>>, Seq<usize>)>),
                    AlpmLoadError,
                >::Err(e),
            },
    {
        let ghost pv = packages.deep_view();
        let mut components: Vec<(String, u64, u64)> = Vec::new();
        let mut claims: Vec<(Vec<String>, Vec<usize>)> = Vec::new();
        proof {
            assert(pv.subrange(0, 0) =~= Seq::<(Seq<char>, Seq<char>)>::empty());
            assert(components.deep_view() =~= Seq::<(Seq<char>, u64, u64)>::empty());
            assert(claims.deep_view() =~= Seq::<(Seq<Seq<char>>, Seq<usize>)>::empty());
        }
        let n = packages.len();
        let mut i: usize = 0;
        while i < n
            invariant
                i <= n,
                n == packages@.len(),
                pv == packages.deep_view(),
                image_files.wf(),
                spec_alpm_load(pv.subrange(0, i as int), image_files@, now) == Result::<
                    (Seq<(Seq<char>, u64, u64)>, Seq<(Seq<Seq<char>>, Seq<usize>)>),
                    AlpmLoadError,
                >::Ok((components.deep_view(), claims.deep_view())),
            decreases n - i,
        {
            proof {
                assert(pv.subrange(0, i + 1).drop_last() =~= pv.subrange(0, i as int));
                assert(pv.subrange(0, i + 1).last() == pv[i as int]);
                assert(packages@[i as int].0@ == pv[i as int].0);
                assert(packages@[i as int].1@ == pv[i as int].1);
            }
            let ghost state = (components.deep_view(), claims.deep_view());
            let desc_db = match LocalAlpmDbFile::parse(packages[i].0.as_str()) {
                Result::Ok(db) => db,
                Result::Err(e) => {
                    proof {
                        lemma_alpm_load_extend_err(pv, image_files@, now, i as int);
                    }
                    return Result::Err(AlpmLoadError::Db(e));
                },
            };
            let files_db = match LocalAlpmDbFile::parse(packages[i].1.as_str()) {
                Result::Ok(db) => db,
                Result::Err(e) => {
                    proof {
                        lemma_alpm_load_extend_err(pv, image_files@, now, i as int);
                    }
                    return Result::Err(AlpmLoadError::Db(e));
                },
            };
            let base = match desc_db.base() {
                Result::Ok(b) => b.to_owned(),
                Result::Err(e) => {
                    proof {
                        lemma_alpm_load_extend_err(pv, image_files@, now, i as int);
                    }
                    return Result::Err(AlpmLoadError::Value(e));
                },
            };
            let bd = match desc_db.builddate() {
                Result::Ok(v) => v,
                Result::Err(e) => {
                    proof {
                        lemma_alpm_load_extend_err(pv, image_files@, now, i as int);
                    }
                    return Result::Err(AlpmLoadError::Value(e));
                },
            };
            let empty_times: Vec<u64> = Vec::new();
            let stab = calculate_stability(&empty_times, bd, now);
            let ghost pre_comps = components.deep_view();
            // Find or create the component for this base name.
            let mut at: usize = 0;
            let mut found = false;
            loop
                invariant
                    at <= pre_comps.len(),
                    pre_comps == components.deep_view(),
                    !found ==> forall|q: int| 0 <= q < at ==> pre_comps[q].0 != base@,
                    found ==> at < pre_comps.len() && pre_comps[at as int].0 == base@ && forall|
                        q: int,
                    | 0 <= q < at ==> pre_comps[q].0 != base@,
                ensures
                    pre_comps == components.deep_view(),
                    found ==> at < pre_comps.len() && comp_find(pre_comps, base@) == at,
                    !found ==> comp_find(pre_comps, base@) == -1,
                decreases pre_comps.len() - at + if found {
                    0int
                } else {
                    1int
                },
            {
                if found {
                    proof {
                        crate::components::rpm::lemma_comp_find_at(
                            pre_comps,
                            base@,
                            at as int,
                        );
                    }
                    break;
                }
                if at >= components.len() {
                    proof {
                        crate::components::rpm::lemma_comp_find_none(pre_comps, base@);
                    }
                    break;
                }
                proof {
                    assert(pre_comps[at as int].0 == components@[at as int].0@);
                }
                if str_eq(components[at].0.as_str(), base.as_str()) {
                    found = true;
                } else {
                    at = at + 1;
                }
            }
            let id: usize;
            if found {
                id = at;
                let old_bt = components[at].1;
                let old_st = components[at].2;
                let bt = if old_bt >= bd {
                    old_bt
                } else {
                    bd
                };
                let st = if old_st <= stab {
                    old_st
                } else {
                    stab
                };
                components[at] = (base, bt, st);
                proof {
                    assert(components.deep_view() =~= pre_comps.update(
                        at as int,
                        (pre_comps[at as int].0, bt, st),
                    ));
                }
            } else {
                id = components.len();
                components.push((base, bd, stab));
                proof {
                    assert(components.deep_view() =~= pre_comps.push((base@, bd, stab)));
                }
            }
            // Fold the claimed paths.
            let file_lines = files_db.files();
            let ghost lv = file_lines.deep_view();
            proof {
                assert(lv.subrange(0, 0) =~= Seq::<Seq<char>>::empty());
                assert(spec_alpm_add_paths(claims.deep_view(), id, lv.subrange(0, 0),
                    image_files@) == Result::<
                    Seq<(Seq<Seq<char>>, Seq<usize>)>,
                    AlpmLoadError,
                >::Ok(claims.deep_view()));
            }
            let ghost claims0 = claims.deep_view();
            proof {
                assert(spec_alpm_add_package(state, pv[i as int].0, pv[i as int].1, image_files@,
                    now) == (match spec_alpm_add_paths(claims0, id, lv, image_files@) {
                    Result::Err(e) => Result::Err(e),
                    Result::Ok(c) => Result::Ok((components.deep_view(), c)),
                }));
            }
            let mut k: usize = 0;
            while k < file_lines.len()
                invariant
                    k <= lv.len(),
                    lv == file_lines.deep_view(),
                    image_files.wf(),
                    spec_alpm_add_paths(claims0, id, lv.subrange(0, k as int), image_files@)
                        == Result::<
                        Seq<(Seq<Seq<char>>, Seq<usize>)>,
                        AlpmLoadError,
                    >::Ok(claims.deep_view()),
                    pv == packages.deep_view(),
                    i < n,
                    n == packages@.len(),
                    spec_alpm_load(pv.subrange(0, i as int), image_files@, now) == Result::<
                        (Seq<(Seq<char>, u64, u64)>, Seq<(Seq<Seq<char>>, Seq<usize>)>),
                        AlpmLoadError,
                    >::Ok(state),
                    claims0 == state.1,
                    spec_alpm_add_package(state, pv[i as int].0, pv[i as int].1, image_files@, now)
                        == (match spec_alpm_add_paths(claims0, id, lv, image_files@) {
                        Result::Err(e) => Result::Err(e),
                        Result::Ok(c) => Result::Ok((components.deep_view(), c)),
                    }),
                decreases lv.len() - k,
            {
                proof {
                    assert(lv.subrange(0, k + 1).drop_last() =~= lv.subrange(0, k as int));
                    assert(lv.subrange(0, k + 1).last() == lv[k as int]);
                    assert(file_lines@[k as int]@ == lv[k as int]);
                }
                let line = &file_lines[k];
                let llen = line.as_str().unicode_len();
                if llen > 0 && line.as_str().get_char(0) == '/' {
                    proof {
                        assert(lv[k as int][0] == '/');
                        assert(spec_alpm_add_paths(claims0, id, lv.subrange(0, k + 1),
                            image_files@) is Err);
                        lemma_add_paths_extend_err(claims0, id, lv, image_files@, k + 1);
                        assert(pv.subrange(0, i + 1).drop_last() =~= pv.subrange(0, i as int));
                        assert(pv.subrange(0, i + 1).last() == pv[i as int]);
                        assert(spec_alpm_load(pv.subrange(0, i + 1), image_files@, now)
                            is Err);
                        lemma_alpm_load_extend_err(pv, image_files@, now, i as int);
                    }
                    return Result::Err(AlpmLoadError::AbsolutePath);
                }
                let segs = split_segments(line.as_str());
                let canon = match canonicalize_parent_path(image_files, &segs) {
                    Result::Ok(v) => v,
                    Result::Err(_) => {
                        proof {
                            assert(spec_alpm_add_paths(claims0, id, lv.subrange(0, k + 1),
                                image_files@) is Err);
                            lemma_add_paths_extend_err(claims0, id, lv, image_files@, k + 1);
                            assert(pv.subrange(0, i + 1).drop_last() =~= pv.subrange(
                                0,
                                i as int,
                            ));
                            assert(pv.subrange(0, i + 1).last() == pv[i as int]);
                            assert(spec_alpm_load(pv.subrange(0, i + 1), image_files@, now)
                                is Err);
                            lemma_alpm_load_extend_err(pv, image_files@, now, i as int);
                        }
                        return Result::Err(AlpmLoadError::Canon);
                    },
                };
                let ghost pre_claims = claims.deep_view();
                // Append the id to the canonical path's claim entry.
                let mut j: usize = 0;
                let mut cfound = false;
                loop
                    invariant
                        j <= pre_claims.len(),
                        pre_claims == claims.deep_view(),
                        !cfound ==> forall|q: int|
                            0 <= q < j ==> pre_claims[q].0 != canon.deep_view(),
                        cfound ==> j < pre_claims.len() && pre_claims[j as int].0
                            == canon.deep_view() && forall|q: int|
                            0 <= q < j ==> pre_claims[q].0 != canon.deep_view(),
                    ensures
                        pre_claims == claims.deep_view(),
                        cfound ==> j < pre_claims.len() && alpm_claim_find(
                            pre_claims,
                            canon.deep_view(),
                        ) == j,
                        !cfound ==> alpm_claim_find(pre_claims, canon.deep_view()) == -1,
                    decreases pre_claims.len() - j + if cfound {
                        0int
                    } else {
                        1int
                    },
                {
                    if cfound {
                        proof {
                            lemma_alpm_claim_find_at(pre_claims, canon.deep_view(), j as int);
                        }
                        break;
                    }
                    if j >= claims.len() {
                        proof {
                            lemma_alpm_claim_find_none(pre_claims, canon.deep_view());
                        }
                        break;
                    }
                    proof {
                        assert(pre_claims[j as int].0 == claims@[j as int].0.deep_view());
                    }
                    if crate::pathutil::path_eq(&claims[j].0, &canon) {
                        cfound = true;
                    } else {
                        j = j + 1;
                    }
                }
                if cfound {
                    let mut newids = clone_usize_vec(&claims[j].1);
                    newids.push(id);
                    proof {
                        assert(newids@ =~= pre_claims[j as int].1.push(id));
                    }
                    let key = clone_path(&claims[j].0);
                    proof {
                        assert(key.deep_view() == pre_claims[j as int].0);
                    }
                    claims[j] = (key, newids);
                    proof {
                        assert(claims.deep_view()[j as int] == (
                            pre_claims[j as int].0,
                            pre_claims[j as int].1.push(id),
                        ));
                        assert(claims.deep_view() =~= pre_claims.update(
                            j as int,
                            (pre_claims[j as int].0, pre_claims[j as int].1.push(id)),
                        ));
                    }
                } else {
                    let mut fresh: Vec<usize> = Vec::new();
                    fresh.push(id);
                    proof {
                        assert(fresh@ =~= seq![id]);
                    }
                    let ghost canon_d = canon.deep_view();
                    claims.push((canon, fresh));
                    proof {
                        assert(claims.deep_view()[pre_claims.len() as int] == (
                            canon_d,
                            seq![id],
                        ));
                        assert(claims.deep_view() =~= pre_claims.push((canon_d, seq![id])));
                    }
                }
                k = k + 1;
            }
            proof {
                assert(lv.subrange(0, lv.len() as int) =~= lv);
                assert(spec_alpm_add_package(
                    state,
                    pv[i as int].0,
                    pv[i as int].1,
                    image_files@,
                    now,
                ) == Result::<
                    (Seq<(Seq<char>, u64, u64)>, Seq<(Seq<Seq<char>>, Seq<usize>)>),
                    AlpmLoadError,
                >::Ok((components.deep_view(), claims.deep_view())));
            }
            i = i + 1;
        }
        proof {
            assert(pv.subrange(0, n as int) =~= pv);
        }
        Result::Ok(AlpmComponentsRepo { components, claims })
    }

    /// Number of components.
    pub fn component_count(&self) -> (r: usize)
        ensures
            r == self@.0.len(),
    {
        self.components.len()
    }

    /// The (name, mtime clamp, stability) of a component.
    pub fn component_info(&self, id: usize) -> (r: (&String, u64, u64))
        requires
            id < self@.0.len(),
        ensures
            r.0@ == self@.0[id as int].0,
            r.1 == self@.0[id as int].1,
            r.2 == self@.0[id as int].2,
    {
        let c = &self.components[id];
        (&c.0, c.1, c.2)
    }

    /// The components that claim `path`, whatever the file type: ALPM
    /// does not record a type per entry.
    pub fn claims_for_path(&self, path: &Vec<String>) -> (r: Vec<usize>)
        ensures
            alpm_claim_find(self@.1, path.deep_view()) >= 0 ==> r@ == self@.1[alpm_claim_find(
                self@.1,
                path.deep_view(),
            )].1,
            alpm_claim_find(self@.1, path.deep_view()) < 0 ==> r@ =~= Seq::<usize>::empty(),
    {
        let ghost cv = self@.1;
        let mut j: usize = 0;
        loop
            invariant
                j <= cv.len(),
                cv == self@.1,
                forall|q: int| 0 <= q < j ==> cv[q].0 != path.deep_view(),
            ensures
                cv == self@.1,
                j <= cv.len(),
                j < cv.len() ==> alpm_claim_find(cv, path.deep_view()) == j,
                j >= cv.len() ==> alpm_claim_find(cv, path.deep_view()) == -1,
            decreases cv.len() - j,
        {
            if j >= self.claims.len() {
                proof {
                    lemma_alpm_claim_find_none(cv, path.deep_view());
                }
                break;
            }
            proof {
                assert(cv[j as int].0 == self.claims@[j as int].0.deep_view());
            }
            if crate::pathutil::path_eq(&self.claims[j].0, path) {
                proof {
                    lemma_alpm_claim_find_at(cv, path.deep_view(), j as int);
                }
                break;
            }
            j = j + 1;
        }
        if j >= self.claims.len() {
            let r: Vec<usize> = Vec::new();
            return r;
        }
        let r = clone_usize_vec(&self.claims[j].1);
        proof {
            assert(r@ == cv[j as int].1);
        }
        r
    }
}

fn clone_usize_vec(v: &Vec<usize>) -> (r: Vec<usize>)
    ensures
        r@ == v@,
{
    let mut out: Vec<usize> = Vec::new();
    let mut i: usize = 0;
    while i < v.len()
        invariant
            i <= v@.len(),
            out@ =~= v@.subrange(0, i as int),
        decreases v@.len() - i,
    {
        out.push(v[i]);
        proof {
            assert(out@ =~= v@.subrange(0, i + 1));
        }
        i = i + 1;
    }
    proof {
        assert(out@ =~= v@);
    }
    out
}

/// A successful claim lookup lands in range, on the queried path.
pub proof fn lemma_alpm_claim_find_props(claims: Seq<(Seq<Seq<char>>, Seq<usize>)>, p: Seq<
    Seq<char>,
>)
    ensures
        alpm_claim_find(claims, p) >= 0 ==> 0 <= alpm_claim_find(claims, p) < claims.len()
            && claims[alpm_claim_find(claims, p)].0 == p,
    decreases claims.len(),
{
    if claims.len() > 0 && claims.first().0 != p {
        lemma_alpm_claim_find_props(claims.drop_first(), p);
        let r = alpm_claim_find(claims.drop_first(), p);
        if r >= 0 {
            assert(claims.drop_first()[r] == claims[r + 1]);
        }
    }
}

proof fn lemma_alpm_claim_find_at(
    claims: Seq<(Seq<Seq<char>>, Seq<usize>)>,
    p: Seq<Seq<char>>,
    at: int,
)
    requires
        0 <= at < claims.len(),
        claims[at].0 == p,
        forall|j: int| 0 <= j < at ==> claims[j].0 != p,
    ensures
        alpm_claim_find(claims, p) == at,
    decreases claims.len(),
{
    if at > 0 {
        assert(claims.drop_first()[at - 1] == claims[at]);
        assert forall|j: int| 0 <= j < at - 1 implies claims.drop_first()[j].0 != p by {
            assert(claims.drop_first()[j] == claims[j + 1]);
        }
        lemma_alpm_claim_find_at(claims.drop_first(), p, at - 1);
    }
}

proof fn lemma_alpm_claim_find_none(claims: Seq<(Seq<Seq<char>>, Seq<usize>)>, p: Seq<Seq<char>>)
    requires
        forall|j: int| 0 <= j < claims.len() ==> claims[j].0 != p,
    ensures
        alpm_claim_find(claims, p) == -1,
    decreases claims.len(),
{
    if claims.len() > 0 {
        assert forall|j: int|
            0 <= j < claims.drop_first().len() implies claims.drop_first()[j].0 != p by {
            assert(claims.drop_first()[j] == claims[j + 1]);
        }
        lemma_alpm_claim_find_none(claims.drop_first(), p);
    }
}

proof fn lemma_add_paths_extend_err(
    claims: Seq<(Seq<Seq<char>>, Seq<usize>)>,
    id: usize,
    lines: Seq<Seq<char>>,
    fm: Seq<(Seq<Seq<char>>, crate::filemap::FileInfoV)>,
    n: int,
)
    requires
        0 <= n <= lines.len(),
        spec_alpm_add_paths(claims, id, lines.subrange(0, n), fm) is Err,
    ensures
        spec_alpm_add_paths(claims, id, lines, fm) == spec_alpm_add_paths(
            claims,
            id,
            lines.subrange(0, n),
            fm,
        ),
    decreases lines.len() - n,
{
    if n < lines.len() {
        assert(lines.subrange(0, n + 1).drop_last() =~= lines.subrange(0, n));
        lemma_add_paths_extend_err(claims, id, lines, fm, n + 1);
    } else {
        assert(lines.subrange(0, n) =~= lines);
    }
}

proof fn lemma_alpm_load_extend_err(
    pkgs: Seq<(Seq<char>, Seq<char>)>,
    fm: Seq<(Seq<Seq<char>>, crate::filemap::FileInfoV)>,
    now: u64,
    n: int,
)
    requires
        0 <= n < pkgs.len(),
        spec_alpm_load(pkgs.subrange(0, n + 1), fm, now) is Err,
    ensures
        spec_alpm_load(pkgs, fm, now) == spec_alpm_load(pkgs.subrange(0, n + 1), fm, now),
    decreases pkgs.len() - n,
{
    if n + 1 < pkgs.len() {
        assert(pkgs.subrange(0, n + 2).drop_last() =~= pkgs.subrange(0, n + 1));
        assert(spec_alpm_load(pkgs.subrange(0, n + 2), fm, now) == spec_alpm_load(
            pkgs.subrange(0, n + 1),
            fm,
            now,
        ));
        lemma_alpm_load_extend_err(pkgs, fm, now, n + 1);
    } else {
        assert(pkgs.subrange(0, n + 1) =~= pkgs);
    }
}

} // verus!
