//! RPM-based component provider: uses the RPM database records to
//! determine file ownership and groups files by their source package.

use vstd::prelude::*;

use crate::filemap::{clone_path, FileMap, FileType};
use crate::pathutil::path_eq;
use crate::strutil::str_eq;
use crate::utils::{calculate_stability, canonicalize_parent_path, spec_canon_parent,
    spec_stability, CanonError};

verus! {

/// Relative prefixes under which an RPM database may live; paths below
/// them are never claimed.
pub open spec fn spec_rpmdb_prefixes() -> Seq<Seq<Seq<char>>> {
    seq![
        seq!["usr"@, "lib"@, "sysimage"@, "rpm"@],
        seq!["usr"@, "share"@, "rpm"@],
        seq!["var"@, "lib"@, "rpm"@],
    ]
}

/// Whether `path` (absolute, as segments) starts with `prefix`.
pub open spec fn spec_starts_with(path: Seq<Seq<char>>, prefix: Seq<Seq<char>>) -> bool {
    path.len() >= prefix.len() && path.subrange(0, prefix.len() as int) == prefix
}

/// Whether `path` lies under one of the RPM database directories.
pub open spec fn spec_in_rpmdb(path: Seq<Seq<char>>) -> bool {
    exists|i: int|
        0 <= i < spec_rpmdb_prefixes().len() && spec_starts_with(
            path,
            #[trigger] spec_rpmdb_prefixes()[i],
        )
}

/// The file type a raw mode word encodes, by its format bits.
pub open spec fn spec_mode_file_type(mode: u32) -> Option<FileType> {
    if mode & 0xF000 == 0x4000 {
        Option::Some(FileType::Directory)
    } else if mode & 0xF000 == 0x8000 {
        Option::Some(FileType::File)
    } else if mode & 0xF000 == 0xA000 {
        Option::Some(FileType::Symlink)
    } else {
        Option::None
    }
}

/// Decode the file type of a raw mode word (the POSIX `S_IFMT` bits:
/// directory, regular file or symlink; anything else is unsupported).
pub fn file_info_to_file_type(mode: u32) -> (r: Option<FileType>)
    ensures
        r == spec_mode_file_type(mode),
{
    let fmt = mode & 0xF000;
    if fmt == 0x4000 {
        Option::Some(FileType::Directory)
    } else if fmt == 0x8000 {
        Option::Some(FileType::File)
    } else if fmt == 0xA000 {
        Option::Some(FileType::Symlink)
    } else {
        Option::None
    }
}

/// Whether `s` ends in `.src.rpm`.
pub open spec fn spec_ends_src_rpm(s: Seq<char>) -> bool {
    let n = s.len();
    &&& n >= 8
    &&& s[n - 8] == '.'
    &&& s[n - 7] == 's'
    &&& s[n - 6] == 'r'
    &&& s[n - 5] == 'c'
    &&& s[n - 4] == '.'
    &&& s[n - 3] == 'r'
    &&& s[n - 2] == 'p'
    &&& s[n - 1] == 'm'
}

/// Index of the last `c` in `s`, or -1.
pub open spec fn spec_last_idx(s: Seq<char>, c: char) -> int
    decreases s.len(),
{
    if s.len() == 0 {
        -1
    } else if s.last() == c {
        s.len() - 1
    } else {
        spec_last_idx(s.drop_last(), c)
    }
}

/// The source package name an SRPM file name denotes: the `.src.rpm`
/// suffix removed, then everything before the last two dashes
/// (name-version-release); with fewer than two dashes, the whole rest.
pub open spec fn spec_parse_srpm_name(s: Seq<char>) -> Seq<char> {
    let w = if spec_ends_src_rpm(s) {
        s.take(s.len() - 8)
    } else {
        s
    };
    let l1 = spec_last_idx(w, '-');
    if l1 < 0 {
        w
    } else {
        let l2 = spec_last_idx(w.take(l1), '-');
        if l2 < 0 {
            w
        } else {
            w.take(l2)
        }
    }
}

proof fn lemma_last_idx_at(s: Seq<char>, c: char, at: int)
    requires
        0 <= at < s.len(),
        s[at] == c,
        forall|j: int| at < j < s.len() ==> s[j] != c,
    ensures
        spec_last_idx(s, c) == at,
    decreases s.len(),
{
    if at < s.len() - 1 {
        lemma_last_idx_at(s.drop_last(), c, at);
    }
}

proof fn lemma_last_idx_none(s: Seq<char>, c: char)
    requires
        forall|j: int| 0 <= j < s.len() ==> s[j] != c,
    ensures
        spec_last_idx(s, c) == -1,
    decreases s.len(),
{
    if s.len() > 0 {
        lemma_last_idx_none(s.drop_last(), c);
    }
}

/// Find the last `sep` at index below `hi` in `s`, as `Some(index)`.
fn rfind_before(s: &str, hi: usize, sep: char) -> (r: Option<usize>)
    requires
        hi <= s@.len(),
    ensures
        match r {
            Option::Some(at) => at < hi && spec_last_idx(s@.take(hi as int), sep) == at,
            Option::None => spec_last_idx(s@.take(hi as int), sep) == -1,
        },
{
    let mut j: usize = hi;
    loop
        invariant
            j <= hi <= s@.len(),
            forall|p: int| j <= p < hi ==> s@[p] != sep,
        ensures
            j <= hi,
            forall|p: int| j <= p < hi ==> s@[p] != sep,
            j > 0 ==> s@[j - 1] == sep,
        decreases j,
    {
        if j == 0 {
            break;
        }
        if s.get_char(j - 1) == sep {
            break;
        }
        j = j - 1;
    }
    let ghost w = s@.take(hi as int);
    if j == 0 {
        proof {
            assert forall|p: int| 0 <= p < w.len() implies w[p] != sep by {
                assert(w[p] == s@[p]);
            }
            lemma_last_idx_none(w, sep);
        }
        Option::None
    } else {
        proof {
            assert(w[j - 1] == s@[j - 1]);
            assert forall|p: int| j - 1 < p < w.len() implies w[p] != sep by {
                assert(w[p] == s@[p]);
            }
            lemma_last_idx_at(w, sep, j - 1);
        }
        Option::Some(j - 1)
    }
}

/// Parse the source package name from a full SRPM file name,
/// e.g. `bash-5.2.15-5.fc40.src.rpm` -> `bash`.
pub fn parse_srpm_name(srpm: &str) -> (r: &str)
    ensures
        r@ == spec_parse_srpm_name(srpm@),
{
    let n = srpm.unicode_len();
    // Remove the .src.rpm suffix when present.
    let has_suffix = n >= 8 && srpm.get_char(n - 8) == '.' && srpm.get_char(n - 7) == 's'
        && srpm.get_char(n - 6) == 'r' && srpm.get_char(n - 5) == 'c' && srpm.get_char(n - 4)
        == '.' && srpm.get_char(n - 3) == 'r' && srpm.get_char(n - 2) == 'p' && srpm.get_char(
        n - 1,
    ) == 'm';
    let m = if has_suffix {
        n - 8
    } else {
        n
    };
    let without_suffix = srpm.substring_char(0, m);
    let ghost w = srpm@.take(m as int);
    proof {
        assert(without_suffix@ =~= w);
        assert(without_suffix@.take(m as int) =~= without_suffix@);
        if has_suffix {
            assert(spec_ends_src_rpm(srpm@));
        } else {
            assert(!spec_ends_src_rpm(srpm@));
        }
        assert(srpm@.take(n as int) =~= srpm@);
    }
    // The name is everything before the last two dashes.
    let l1 = match rfind_before(without_suffix, m, '-') {
        Option::Some(v) => v,
        Option::None => {
            return without_suffix;
        },
    };
    proof {
        assert(without_suffix@.take(m as int) =~= without_suffix@);
    }
    let l2 = match rfind_before(without_suffix, l1, '-') {
        Option::Some(v) => v,
        Option::None => {
            return without_suffix;
        },
    };
    let name = srpm.substring_char(0, l2);
    proof {
        assert(without_suffix@.take(l1 as int) =~= w.take(l1 as int));
        assert(name@ =~= w.take(l2 as int));
    }
    name
}

/// One package record extracted from an RPM database: its name, source
/// package, build time, changelog timestamps, and owned paths with
/// their recorded mode words.
#[derive(Debug)]
pub struct RpmPackage {
    pub name: String,
    pub sourcerpm: Option<String>,
    pub buildtime: u64,
    pub changelog_times: Vec<u64>,
    /// Owned paths (absolute, as segments) with the package's recorded
    /// mode word for each.
    pub files: Vec<(Vec<String>, u32)>,
}

/// Mathematical value of an [`RpmPackage`].
pub ghost struct RpmPackageV {
    pub name: Seq<char>,
    pub sourcerpm: Option<Seq<char>>,
    pub buildtime: u64,
    pub changelog_times: Seq<u64>,
    pub files: Seq<(Seq<Seq<char>>, u32)>,
}

impl View for RpmPackage {
    type V = RpmPackageV;

    open spec fn view(&self) -> RpmPackageV {
        RpmPackageV {
            name: self.name@,
            sourcerpm: match self.sourcerpm {
                Option::Some(s) => Option::Some(s@),
                Option::None => Option::None,
            },
            buildtime: self.buildtime,
            changelog_times: self.changelog_times@,
            files: self.files.deep_view(),
        }
    }
}

impl DeepView for RpmPackage {
    type V = RpmPackageV;

    open spec fn deep_view(&self) -> RpmPackageV {
        self@
    }
}

/// The component a package folds into: its source package name, or the
/// package name when no source package is recorded.
pub open spec fn spec_component_name(pkg: RpmPackageV) -> Seq<char> {
    match pkg.sourcerpm {
        Option::Some(s) => spec_parse_srpm_name(s),
        Option::None => pkg.name,
    }
}

/// First index with component name `name`, or -1.
pub open spec fn comp_find(comps: Seq<(Seq<char>, u64, u64)>, name: Seq<char>) -> int
    decreases comps.len(),
{
    if comps.len() == 0 {
        -1
    } else if comps.first().0 == name {
        0
    } else {
        let r = comp_find(comps.drop_first(), name);
        if r < 0 {
            -1
        } else {
            r + 1
        }
    }
}

/// First index with path `p` among the claims, or -1.
pub open spec fn claim_find(claims: Seq<(Seq<Seq<char>>, Seq<(usize, u32)>)>, p: Seq<Seq<char>>)
    -> int
    decreases claims.len(),
{
    if claims.len() == 0 {
        -1
    } else if claims.first().0 == p {
        0
    } else {
        let r = claim_find(claims.drop_first(), p);
        if r < 0 {
            -1
        } else {
            r + 1
        }
    }
}

/// Whether some claim entry carries component `id`.
pub open spec fn claim_has_id(entries: Seq<(usize, u32)>, id: usize) -> bool {
    exists|i: int| 0 <= i < entries.len() && entries[i].0 == id
}

/// One file of a package folded into the claims: appended to its path's
/// entry unless the component already owns that path.
pub open spec fn spec_add_file(
    claims: Seq<(Seq<Seq<char>>, Seq<(usize, u32)>)>,
    id: usize,
    file: (Seq<Seq<char>>, u32),
) -> Seq<(Seq<Seq<char>>, Seq<(usize, u32)>)> {
    let j = claim_find(claims, file.0);
    if j >= 0 {
        if claim_has_id(claims[j].1, id) {
            claims
        } else {
            claims.update(j, (claims[j].0, claims[j].1.push((id, file.1))))
        }
    } else {
        claims.push((file.0, seq![(id, file.1)]))
    }
}

/// All files of a package folded into the claims, in order.
pub open spec fn spec_add_files(
    claims: Seq<(Seq<Seq<char>>, Seq<(usize, u32)>)>,
    id: usize,
    files: Seq<(Seq<Seq<char>>, u32)>,
) -> Seq<(Seq<Seq<char>>, Seq<(usize, u32)>)>
    decreases files.len(),
{
    if files.len() == 0 {
        claims
    } else {
        spec_add_file(spec_add_files(claims, id, files.drop_last()), id, files.last())
    }
}

/// One package folded into the component and claim state: a new source
/// package opens a component with its build time and stability; a
/// further subpackage of a known source package only raises the build
/// time clamp (the first subpackage's stability is kept).
pub open spec fn spec_add_package(
    state: (Seq<(Seq<char>, u64, u64)>, Seq<(Seq<Seq<char>>, Seq<(usize, u32)>)>),
    pkg: RpmPackageV,
    now: u64,
) -> (Seq<(Seq<char>, u64, u64)>, Seq<(Seq<Seq<char>>, Seq<(usize, u32)>)>) {
    let comps = state.0;
    let cname = spec_component_name(pkg);
    let at = comp_find(comps, cname);
    let id = if at >= 0 {
        at
    } else {
        comps.len() as int
    };
    let comps2 = if at >= 0 {
        let old_entry = comps[at];
        let bt = if old_entry.1 >= pkg.buildtime {
            old_entry.1
        } else {
            pkg.buildtime
        };
        comps.update(at, (old_entry.0, bt, old_entry.2))
    } else {
        comps.push(
            (cname, pkg.buildtime, spec_stability(pkg.changelog_times, pkg.buildtime, now)),
        )
    };
    (comps2, spec_add_files(state.1, id as usize, pkg.files))
}

/// All packages folded, in order.
pub open spec fn spec_rpm_load(pkgs: Seq<RpmPackageV>, now: u64) -> (
    Seq<(Seq<char>, u64, u64)>,
    Seq<(Seq<Seq<char>>, Seq<(usize, u32)>)>,
)
    decreases pkgs.len(),
{
    if pkgs.len() == 0 {
        (Seq::empty(), Seq::empty())
    } else {
        spec_add_package(spec_rpm_load(pkgs.drop_last(), now), pkgs.last(), now)
    }
}

/// RPM-based component provider: components are keyed by source
/// package, collapsing subpackages; claims record the package-declared
/// mode word so lookups can be filtered by file type.
#[derive(Debug)]
pub struct RpmRepo {
    /// Component records: (source package name, build time clamp,
    /// stability), indexed by component id.
    components: Vec<(String, u64, u64)>,
    /// Claims: path -> list of (component id, recorded mode word).
    claims: Vec<(Vec<String>, Vec<(usize, u32)>)>,
}

impl View for RpmRepo {
    type V = (Seq<(Seq<char>, u64, u64)>, Seq<(Seq<Seq<char>>, Seq<(usize, u32)>)>);

    closed spec fn view(&self) -> (
        Seq<(Seq<char>, u64, u64)>,
        Seq<(Seq<Seq<char>>, Seq<(usize, u32)>)>,
    ) {
        (self.components.deep_view(), self.claims.deep_view())
    }
}

impl RpmRepo {
    /// Build the component and claim state from package records, in
    /// order: exactly [`spec_rpm_load`].
    pub fn load_from_packages(packages: Vec<RpmPackage>, now: u64) -> (r: RpmRepo)
        ensures
            r@ == spec_rpm_load(packages.deep_view(), now),
    {
        let ghost pv = packages.deep_view();
        let mut components: Vec<(String, u64, u64)> = Vec::new();
        let mut claims: Vec<(Vec<String>, Vec<(usize, u32)>)> = Vec::new();
        proof {
            assert(pv.subrange(0, 0) =~= Seq::<RpmPackageV>::empty());
            assert(components.deep_view() =~= Seq::<(Seq<char>, u64, u64)>::empty());
            assert(claims.deep_view() =~= Seq::<(Seq<Seq<char>>, Seq<(usize, u32)>)>::empty());
        }
        let n = packages.len();
        let mut i: usize = 0;
        while i < n
            invariant
                i <= n,
                n == packages@.len(),
                pv == packages.deep_view(),
                (components.deep_view(), claims.deep_view()) == spec_rpm_load(
                    pv.subrange(0, i as int),
                    now,
                ),
            decreases n - i,
        {
            proof {
                assert(pv.subrange(0, i + 1).drop_last() =~= pv.subrange(0, i as int));
                assert(pv.subrange(0, i + 1).last() == pv[i as int]);
                assert(packages@[i as int]@ == pv[i as int]);
            }
            let pkg = &packages[i];
            // Component name: the source package, or the package name.
            let cname: String = match &pkg.sourcerpm {
                Option::Some(s) => parse_srpm_name(s.as_str()).to_owned(),
                Option::None => pkg.name.clone(),
            };
            proof {
                assert(cname@ == spec_component_name(pv[i as int]));
            }
            let ghost pre_comps = components.deep_view();
            // Find or create the component.
            let mut at: usize = 0;
            let mut found = false;
            loop
                invariant
                    at <= pre_comps.len(),
                    pre_comps == components.deep_view(),
                    !found ==> forall|q: int| 0 <= q < at ==> pre_comps[q].0 != cname@,
                    found ==> at < pre_comps.len() && pre_comps[at as int].0 == cname@
                        && forall|q: int| 0 <= q < at ==> pre_comps[q].0 != cname@,
                ensures
                    pre_comps == components.deep_view(),
                    found ==> at < pre_comps.len() && comp_find(pre_comps, cname@) == at,
                    !found ==> comp_find(pre_comps, cname@) == -1,
                decreases pre_comps.len() - at + if found {
                    0int
                } else {
                    1int
                },
            {
                if found {
                    proof {
                        lemma_comp_find_at(pre_comps, cname@, at as int);
                    }
                    break;
                }
                if at >= components.len() {
                    proof {
                        lemma_comp_find_none(pre_comps, cname@);
                    }
                    break;
                }
                proof {
                    assert(pre_comps[at as int].0 == components@[at as int].0@);
                }
                if str_eq(components[at].0.as_str(), cname.as_str()) {
                    found = true;
                } else {
                    at = at + 1;
                }
            }
            let id: usize;
            if found {
                id = at;
                let old_bt = components[at].1;
                let bt = if old_bt >= pkg.buildtime {
                    old_bt
                } else {
                    pkg.buildtime
                };
                let old_st = components[at].2;
                components[at] = (cname, bt, old_st);
                proof {
                    assert(components.deep_view() =~= pre_comps.update(
                        at as int,
                        (pre_comps[at as int].0, bt, pre_comps[at as int].2),
                    ));
                }
            } else {
                id = components.len();
                let stability = calculate_stability(&pkg.changelog_times, pkg.buildtime, now);
                components.push((cname, pkg.buildtime, stability));
                proof {
                    assert(components.deep_view() =~= pre_comps.push(
                        (
                            spec_component_name(pv[i as int]),
                            pv[i as int].buildtime,
                            spec_stability(
                                pv[i as int].changelog_times,
                                pv[i as int].buildtime,
                                now,
                            ),
                        ),
                    ));
                }
            }
            // Fold the package's files into the claims.
            let ghost fv = pkg.files.deep_view();
            proof {
                assert(fv.subrange(0, 0) =~= Seq::<(Seq<Seq<char>>, u32)>::empty());
                assert(spec_add_files(claims.deep_view(), id, fv.subrange(0, 0))
                    == claims.deep_view());
            }
            let mut k: usize = 0;
            while k < pkg.files.len()
                invariant
                    k <= fv.len(),
                    fv == pkg.files.deep_view(),
                    pkg == &packages[i as int],
                    0 <= i < packages@.len(),
                    pv == packages.deep_view(),
                    claims.deep_view() == spec_add_files(
                        spec_rpm_load(pv.subrange(0, i as int), now).1,
                        id,
                        fv.subrange(0, k as int),
                    ),
                decreases fv.len() - k,
            {
                proof {
                    assert(fv.subrange(0, k + 1).drop_last() =~= fv.subrange(0, k as int));
                    assert(fv.subrange(0, k + 1).last() == fv[k as int]);
                    assert(pkg.files@[k as int].0.deep_view() == fv[k as int].0);
                    assert(pkg.files@[k as int].1 == fv[k as int].1);
                }
                let ghost pre_claims = claims.deep_view();
                let fpath = &pkg.files[k].0;
                let fmode = pkg.files[k].1;
                // Find this path among the claims.
                let mut j: usize = 0;
                let mut cfound = false;
                loop
                    invariant
                        j <= pre_claims.len(),
                        pre_claims == claims.deep_view(),
                        !cfound ==> forall|q: int|
                            0 <= q < j ==> pre_claims[q].0 != fpath.deep_view(),
                        cfound ==> j < pre_claims.len() && pre_claims[j as int].0
                            == fpath.deep_view() && forall|q: int|
                            0 <= q < j ==> pre_claims[q].0 != fpath.deep_view(),
                    ensures
                        pre_claims == claims.deep_view(),
                        cfound ==> j < pre_claims.len() && claim_find(
                            pre_claims,
                            fpath.deep_view(),
                        ) == j,
                        !cfound ==> claim_find(pre_claims, fpath.deep_view()) == -1,
                    decreases pre_claims.len() - j + if cfound {
                        0int
                    } else {
                        1int
                    },
                {
                    if cfound {
                        proof {
                            lemma_claim_find_at(pre_claims, fpath.deep_view(), j as int);
                        }
                        break;
                    }
                    if j >= claims.len() {
                        proof {
                            lemma_claim_find_none(pre_claims, fpath.deep_view());
                        }
                        break;
                    }
                    proof {
                        assert(pre_claims[j as int].0 == claims@[j as int].0.deep_view());
                    }
                    if path_eq(&claims[j].0, fpath) {
                        cfound = true;
                    } else {
                        j = j + 1;
                    }
                }
                if cfound {
                    // Skip when this component already owns the path.
                    let entries = &claims[j].1;
                    let mut q: usize = 0;
                    let mut has_id = false;
                    loop
                        invariant
                            q <= entries@.len(),
                            entries == &claims@[j as int].1,
                            j < claims@.len(),
                            pre_claims == claims.deep_view(),
                            !has_id ==> forall|p: int| 0 <= p < q ==> entries@[p].0 != id,
                            has_id ==> q < entries@.len() && entries@[q as int].0 == id,
                        ensures
                            pre_claims == claims.deep_view(),
                            has_id == claim_has_id(pre_claims[j as int].1, id),
                        decreases entries@.len() - q + if has_id {
                            0int
                        } else {
                            1int
                        },
                    {
                        if has_id {
                            proof {
                                assert(pre_claims[j as int].1[q as int].0 == id);
                            }
                            break;
                        }
                        if q >= entries.len() {
                            proof {
                                assert(forall|p: int|
                                    0 <= p < pre_claims[j as int].1.len()
                                        ==> pre_claims[j as int].1[p].0 != id);
                            }
                            break;
                        }
                        if entries[q].0 == id {
                            has_id = true;
                        } else {
                            q = q + 1;
                        }
                    }
                    if !has_id {
                        let mut newvals = clone_id_modes(&claims[j].1);
                        newvals.push((id, fmode));
                        proof {
                            assert(newvals@ =~= pre_claims[j as int].1.push((id, fmode)));
                        }
                        let key = clone_path(&claims[j].0);
                        proof {
                            assert(key.deep_view() == pre_claims[j as int].0);
                        }
                        claims[j] = (key, newvals);
                        proof {
                            assert(claims.deep_view()[j as int] == (
                                pre_claims[j as int].0,
                                pre_claims[j as int].1.push((id, fmode)),
                            ));
                            assert(claims.deep_view() =~= pre_claims.update(
                                j as int,
                                (
                                    pre_claims[j as int].0,
                                    pre_claims[j as int].1.push((id, fmode)),
                                ),
                            ));
                        }
                    }
                } else {
                    let mut fresh: Vec<(usize, u32)> = Vec::new();
                    fresh.push((id, fmode));
                    proof {
                        assert(fresh@ =~= seq![(id, fmode)]);
                    }
                    let key = clone_path(fpath);
                    let ghost key_d = key.deep_view();
                    claims.push((key, fresh));
                    proof {
                        assert(claims.deep_view()[pre_claims.len() as int] == (
                            key_d,
                            seq![(id, fmode)],
                        ));
                        assert(claims.deep_view() =~= pre_claims.push(
                            (fpath.deep_view(), seq![(id, fmode)]),
                        ));
                    }
                }
                k = k + 1;
            }
            proof {
                assert(fv.subrange(0, fv.len() as int) =~= fv);
                assert((components.deep_view(), claims.deep_view()) == spec_add_package(
                    spec_rpm_load(pv.subrange(0, i as int), now),
                    pv[i as int],
                    now,
                ));
            }
            i = i + 1;
        }
        proof {
            assert(pv.subrange(0, n as int) =~= pv);
        }
        RpmRepo { components, claims }
    }

    /// Number of components.
    pub fn component_count(&self) -> (r: usize)
        ensures
            r == self@.0.len(),
    {
        self.components.len()
    }

    /// The (name, mtime clamp, stability) of a component.
    pub fn component_info(&self, id: usize) -> (r: (&String, u64, u64))
        requires
            id < self@.0.len(),
        ensures
            r.0@ == self@.0[id as int].0,
            r.1 == self@.0[id as int].1,
            r.2 == self@.0[id as int].2,
    {
        let c = &self.components[id];
        (&c.0, c.1, c.2)
    }

    /// The components that claim `path` with a recorded file type equal
    /// to `file_type`. Paths inside the RPM database directories are
    /// never claimed, so that the database itself stays unclaimed.
    pub fn claims_for_path(&self, path: &Vec<String>, file_type: FileType) -> (r: Vec<usize>)
        ensures
            spec_in_rpmdb(path.deep_view()) ==> r@ =~= Seq::<usize>::empty(),
            !spec_in_rpmdb(path.deep_view()) ==> r@ == spec_claims_filtered(
                self@.1,
                path.deep_view(),
                file_type,
            ),
    {
        if self.path_in_rpmdb(path) {
            let r: Vec<usize> = Vec::new();
            return r;
        }
        let ghost cv = self@.1;
        let mut j: usize = 0;
        let mut out: Vec<usize> = Vec::new();
        loop
            invariant
                j <= cv.len(),
                cv == self@.1,
                out@.len() == 0,
                forall|q: int| 0 <= q < j ==> cv[q].0 != path.deep_view(),
            ensures
                cv == self@.1,
                j <= cv.len(),
                out@.len() == 0,
                j < cv.len() ==> claim_find(cv, path.deep_view()) == j && cv[j as int].0
                    == path.deep_view(),
                j >= cv.len() ==> claim_find(cv, path.deep_view()) == -1,
            decreases cv.len() - j,
        {
            if j >= self.claims.len() {
                proof {
                    lemma_claim_find_none(cv, path.deep_view());
                }
                break;
            }
            proof {
                assert(cv[j as int].0 == self.claims@[j as int].0.deep_view());
            }
            if path_eq(&self.claims[j].0, path) {
                proof {
                    lemma_claim_find_at(cv, path.deep_view(), j as int);
                }
                break;
            }
            j = j + 1;
        }
        if j >= self.claims.len() {
            proof {
                assert(spec_claims_filtered(cv, path.deep_view(), file_type) =~= Seq::<
                    usize,
                >::empty());
            }
            return out;
        }
        let entries = &self.claims[j].1;
        let ghost ev = entries@;
        proof {
            assert(ev.skip(0) =~= ev);
            assert(out@ + spec_filter_ids(ev, file_type) =~= spec_filter_ids(ev, file_type));
        }
        let mut q: usize = 0;
        while q < entries.len()
            invariant
                q <= ev.len(),
                ev == entries@,
                j < self.claims@.len(),
                entries == &self.claims@[j as int].1,
                spec_filter_ids(ev, file_type) =~= out@ + spec_filter_ids(
                    ev.skip(q as int),
                    file_type,
                ),
            decreases ev.len() - q,
        {
            let ghost pre = out@;
            proof {
                let tail = ev.skip(q as int);
                assert(tail.first() == ev[q as int]);
                assert(tail.drop_first() =~= ev.skip(q + 1));
            }
            let (eid, emode) = entries[q];
            let matches_type = match file_info_to_file_type(emode) {
                Option::Some(ft) => ft == file_type,
                Option::None => false,
            };
            if matches_type {
                out.push(eid);
                proof {
                    let rest = spec_filter_ids(ev.skip(q + 1), file_type);
                    assert(pre + (seq![eid] + rest) =~= (pre + seq![eid]) + rest);
                    assert(out@ =~= pre + seq![eid]);
                }
            }
            q = q + 1;
        }
        proof {
            assert(ev.skip(ev.len() as int) =~= Seq::<(usize, u32)>::empty());
            assert(out@ + spec_filter_ids(ev.skip(ev.len() as int), file_type) =~= out@);
            assert(cv[claim_find(cv, path.deep_view())].1 == ev);
        }
        out
    }

    /// Whether `path` lies under one of the RPM database directories.
    fn path_in_rpmdb(&self, path: &Vec<String>) -> (r: bool)
        ensures
            r == spec_in_rpmdb(path.deep_view()),
    {
        let r1 = Self::check_prefix3(path, "usr", "lib", "sysimage", Some("rpm"));
        let r2 = Self::check_prefix3(path, "usr", "share", "rpm", None);
        let r3 = Self::check_prefix3(path, "var", "lib", "rpm", None);
        proof {
            let pv = path.deep_view();
            let ps = spec_rpmdb_prefixes();
            assert(ps[0] == seq!["usr"@, "lib"@, "sysimage"@, "rpm"@]);
            assert(ps[1] == seq!["usr"@, "share"@, "rpm"@]);
            assert(ps[2] == seq!["var"@, "lib"@, "rpm"@]);
            if r1 || r2 || r3 {
                assert(spec_in_rpmdb(pv));
            } else {
                assert forall|i: int| 0 <= i < ps.len() implies !spec_starts_with(
                    pv,
                    #[trigger] ps[i],
                ) by {
                    if i == 0 {
                    } else if i == 1 {
                    } else {
                        assert(ps[i] == ps[2]);
                    }
                }
            }
        }
        r1 || r2 || r3
    }

    /// Whether `path` starts with the three (or four) given segments.
    fn check_prefix3(
        path: &Vec<String>,
        a: &str,
        b: &str,
        c: &str,
        d: Option<&str>,
    ) -> (r: bool)
        ensures
            match d {
                Option::Some(dd) => r == spec_starts_with(
                    path.deep_view(),
                    seq![a@, b@, c@, dd@],
                ),
                Option::None => r == spec_starts_with(path.deep_view(), seq![a@, b@, c@]),
            },
    {
        let pv_len = path.len();
        match d {
            Option::Some(dd) => {
                let ghost pre = seq![a@, b@, c@, dd@];
                if pv_len < 4 {
                    return false;
                }
                let r = str_eq(path[0].as_str(), a) && str_eq(path[1].as_str(), b) && str_eq(
                    path[2].as_str(),
                    c,
                ) && str_eq(path[3].as_str(), dd);
                proof {
                    if r {
                        assert(path.deep_view().subrange(0, 4) =~= pre);
                    } else {
                        if path.deep_view().len() >= 4 {
                            assert(path.deep_view().subrange(0, 4)[0] == path.deep_view()[0]);
                            assert(path.deep_view().subrange(0, 4)[1] == path.deep_view()[1]);
                            assert(path.deep_view().subrange(0, 4)[2] == path.deep_view()[2]);
                            assert(path.deep_view().subrange(0, 4)[3] == path.deep_view()[3]);
                        }
                    }
                }
                r
            },
            Option::None => {
                let ghost pre = seq![a@, b@, c@];
                if pv_len < 3 {
                    return false;
                }
                let r = str_eq(path[0].as_str(), a) && str_eq(path[1].as_str(), b) && str_eq(
                    path[2].as_str(),
                    c,
                );
                proof {
                    if r {
                        assert(path.deep_view().subrange(0, 3) =~= pre);
                    } else {
                        if path.deep_view().len() >= 3 {
                            assert(path.deep_view().subrange(0, 3)[0] == path.deep_view()[0]);
                            assert(path.deep_view().subrange(0, 3)[1] == path.deep_view()[1]);
                            assert(path.deep_view().subrange(0, 3)[2] == path.deep_view()[2]);
                        }
                    }
                }
                r
            },
        }
    }
}

/// The component ids among `entries` whose recorded mode decodes to
/// `file_type`, in order.
pub open spec fn spec_filter_ids(entries: Seq<(usize, u32)>, file_type: FileType) -> Seq<usize>
    decreases entries.len(),
{
    if entries.len() == 0 {
        Seq::empty()
    } else {
        let rest = spec_filter_ids(entries.drop_first(), file_type);
        if spec_mode_file_type(entries.first().1) == Option::Some(file_type) {
            seq![entries.first().0] + rest
        } else {
            rest
        }
    }
}

/// What a claim lookup yields for `path` outside the RPM database
/// directories: the ids recorded for it whose mode matches `file_type`.
pub open spec fn spec_claims_filtered(
    claims: Seq<(Seq<Seq<char>>, Seq<(usize, u32)>)>,
    path: Seq<Seq<char>>,
    file_type: FileType,
) -> Seq<usize> {
    let j = claim_find(claims, path);
    if j >= 0 {
        spec_filter_ids(claims[j].1, file_type)
    } else {
        Seq::empty()
    }
}

pub proof fn lemma_comp_find_at(comps: Seq<(Seq<char>, u64, u64)>, name: Seq<char>, at: int)
    requires
        0 <= at < comps.len(),
        comps[at].0 == name,
        forall|j: int| 0 <= j < at ==> comps[j].0 != name,
    ensures
        comp_find(comps, name) == at,
    decreases comps.len(),
{
    if at > 0 {
        assert(comps.drop_first()[at - 1] == comps[at]);
        assert forall|j: int| 0 <= j < at - 1 implies comps.drop_first()[j].0 != name by {
            assert(comps.drop_first()[j] == comps[j + 1]);
        }
        lemma_comp_find_at(comps.drop_first(), name, at - 1);
    }
}

pub proof fn lemma_comp_find_none(comps: Seq<(Seq<char>, u64, u64)>, name: Seq<char>)
    requires
        forall|j: int| 0 <= j < comps.len() ==> comps[j].0 != name,
    ensures
        comp_find(comps, name) == -1,
    decreases comps.len(),
{
    if comps.len() > 0 {
        assert forall|j: int|
            0 <= j < comps.drop_first().len() implies comps.drop_first()[j].0 != name by {
            assert(comps.drop_first()[j] == comps[j + 1]);
        }
        lemma_comp_find_none(comps.drop_first(), name);
    }
}

/// A successful claim lookup lands in range, on the queried path.
pub proof fn lemma_claim_find_props(claims: Seq<(Seq<Seq<char>>, Seq<(usize, u32)>)>, p: Seq<
    Seq<char>,
>)
    ensures
        claim_find(claims, p) >= 0 ==> 0 <= claim_find(claims, p) < claims.len() && claims[
        claim_find(claims, p)].0 == p,
    decreases claims.len(),
{
    if claims.len() > 0 && claims.first().0 != p {
        lemma_claim_find_props(claims.drop_first(), p);
        let r = claim_find(claims.drop_first(), p);
        if r >= 0 {
            assert(claims.drop_first()[r] == claims[r + 1]);
        }
    }
}

/// Every id in a filtered claim list is one of the entry list's ids.
pub proof fn lemma_filter_ids_member(entries: Seq<(usize, u32)>, file_type: FileType, k: int)
    requires
        0 <= k < spec_filter_ids(entries, file_type).len(),
    ensures
        exists|q: int|
            0 <= q < entries.len() && (#[trigger] entries[q]).0 == spec_filter_ids(
                entries,
                file_type,
            )[k],
    decreases entries.len(),
{
    if entries.len() > 0 {
        let rest = spec_filter_ids(entries.drop_first(), file_type);
        if spec_mode_file_type(entries.first().1) == Option::Some(file_type) {
            if k == 0 {
                assert(entries[0].0 == spec_filter_ids(entries, file_type)[k]);
            } else {
                lemma_filter_ids_member(entries.drop_first(), file_type, k - 1);
                let q = choose|q: int|
                    0 <= q < entries.drop_first().len() && (#[trigger] entries.drop_first()[
                    q]).0 == rest[k - 1];
                assert(entries[q + 1].0 == spec_filter_ids(entries, file_type)[k]);
            }
        } else {
            lemma_filter_ids_member(entries.drop_first(), file_type, k);
            let q = choose|q: int|
                0 <= q < entries.drop_first().len() && (#[trigger] entries.drop_first()[q]).0
                    == rest[k];
            assert(entries[q + 1].0 == spec_filter_ids(entries, file_type)[k]);
        }
    }
}

proof fn lemma_claim_find_at(
    claims: Seq<(Seq<Seq<char>>, Seq<(usize, u32)>)>,
    p: Seq<Seq<char>>,
    at: int,
)
    requires
        0 <= at < claims.len(),
        claims[at].0 == p,
        forall|j: int| 0 <= j < at ==> claims[j].0 != p,
    ensures
        claim_find(claims, p) == at,
    decreases claims.len(),
{
    if at > 0 {
        assert(claims.drop_first()[at - 1] == claims[at]);
        assert forall|j: int| 0 <= j < at - 1 implies claims.drop_first()[j].0 != p by {
            assert(claims.drop_first()[j] == claims[j + 1]);
        }
        lemma_claim_find_at(claims.drop_first(), p, at - 1);
    }
}

proof fn lemma_claim_find_none(claims: Seq<(Seq<Seq<char>>, Seq<(usize, u32)>)>, p: Seq<Seq<char>>)
    requires
        forall|j: int| 0 <= j < claims.len() ==> claims[j].0 != p,
    ensures
        claim_find(claims, p) == -1,
    decreases claims.len(),
{
    if claims.len() > 0 {
        assert forall|j: int|
            0 <= j < claims.drop_first().len() implies claims.drop_first()[j].0 != p by {
            assert(claims.drop_first()[j] == claims[j + 1]);
        }
        lemma_claim_find_none(claims.drop_first(), p);
    }
}

/// Canonicalize every file path of every package by resolving directory
/// symlinks against the scanned inventory; the leaf stays verbatim.
pub fn canonicalize_package_paths(files: &FileMap, packages: Vec<RpmPackage>) -> (r: Result<
    Vec<RpmPackage>,
    CanonError,
>)
    requires
        files.wf(),
    ensures
        r is Err ==> exists|i: int, k: int|
            0 <= i < packages@.len() && 0 <= k < packages@[i]@.files.len() && spec_canon_parent(
                files@,
                (#[trigger] packages@[i]@.files[k]).0,
            ) is None,
        r matches Result::Ok(v) ==> v@.len() == packages@.len() && forall|i: int|
            0 <= i < v@.len() ==> (#[trigger] v@[i]@).name == packages@[i]@.name && v@[i]@.sourcerpm
                == packages@[i]@.sourcerpm && v@[i]@.buildtime == packages@[i]@.buildtime
                && v@[i]@.changelog_times == packages@[i]@.changelog_times
                && v@[i]@.files.len() == packages@[i]@.files.len() && (forall|k: int|
                0 <= k < v@[i]@.files.len() ==> (#[trigger] v@[i]@.files[k]).0
                    == spec_canon_parent(files@, packages@[i]@.files[k].0)->Some_0
                    && v@[i]@.files[k].1 == packages@[i]@.files[k].1),
{
    let mut out: Vec<RpmPackage> = Vec::new();
    let mut i: usize = 0;
    while i < packages.len()
        invariant
            files.wf(),
            i <= packages@.len(),
            out@.len() == i,
            forall|p: int|
                0 <= p < i ==> (#[trigger] out@[p]@).name == packages@[p]@.name && out@[p]@.sourcerpm
                    == packages@[p]@.sourcerpm && out@[p]@.buildtime == packages@[p]@.buildtime
                    && out@[p]@.changelog_times == packages@[p]@.changelog_times
                    && out@[p]@.files.len() == packages@[p]@.files.len() && (forall|k: int|
                    0 <= k < out@[p]@.files.len() ==> (#[trigger] out@[p]@.files[k]).0
                        == spec_canon_parent(files@, packages@[p]@.files[k].0)->Some_0
                        && out@[p]@.files[k].1 == packages@[p]@.files[k].1),
        decreases packages@.len() - i,
    {
        let pkg = &packages[i];
        let mut new_files: Vec<(Vec<String>, u32)> = Vec::new();
        let mut k: usize = 0;
        while k < pkg.files.len()
            invariant
                files.wf(),
                pkg == &packages[i as int],
                0 <= i < packages@.len(),
                k <= pkg.files@.len(),
                new_files@.len() == k,
                forall|q: int|
                    0 <= q < k ==> (#[trigger] new_files@[q]).0.deep_view() == spec_canon_parent(
                        files@,
                        packages@[i as int]@.files[q].0,
                    )->Some_0 && new_files@[q].1 == packages@[i as int]@.files[q].1,
            decreases pkg.files@.len() - k,
        {
            proof {
                assert(pkg.files@[k as int].0.deep_view() == packages@[i as int]@.files[
                    k as int].0);
            }
            let canonical = match canonicalize_parent_path(files, &pkg.files[k].0) {
                Result::Ok(v) => v,
                Result::Err(e) => {
                    proof {
                        assert(spec_canon_parent(
                            files@,
                            packages@[i as int]@.files[k as int].0,
                        ) is None);
                    }
                    return Result::Err(e);
                },
            };
            new_files.push((canonical, pkg.files[k].1));
            k = k + 1;
        }
        let new_pkg = RpmPackage {
            name: pkg.name.clone(),
            sourcerpm: match &pkg.sourcerpm {
                Option::Some(s) => Option::Some(s.clone()),
                Option::None => Option::None,
            },
            buildtime: pkg.buildtime,
            changelog_times: clone_u64_vec(&pkg.changelog_times),
            files: new_files,
        };
        proof {
            assert(new_pkg@.files.len() == new_files@.len());
            assert forall|q: int| 0 <= q < new_pkg@.files.len() implies (
            #[trigger] new_pkg@.files[q]).0 == spec_canon_parent(
                files@,
                packages@[i as int]@.files[q].0,
            )->Some_0 && new_pkg@.files[q].1 == packages@[i as int]@.files[q].1 by {
                assert(new_pkg@.files[q] == (new_files@[q].0.deep_view(), new_files@[q].1));
            }
        }
        out.push(new_pkg);
        i = i + 1;
    }
    Result::Ok(out)
}

fn clone_id_modes(v: &Vec<(usize, u32)>) -> (r: Vec<(usize, u32)>)
    ensures
        r@ == v@,
{
    let mut out: Vec<(usize, u32)> = Vec::new();
    let mut i: usize = 0;
    while i < v.len()
        invariant
            i <= v@.len(),
            out@ =~= v@.subrange(0, i as int),
        decreases v@.len() - i,
    {
        out.push(v[i]);
        proof {
            assert(out@ =~= v@.subrange(0, i + 1));
        }
        i = i + 1;
    }
    proof {
        assert(out@ =~= v@);
    }
    out
}

fn clone_u64_vec(v: &Vec<u64>) -> (r: Vec<u64>)
    ensures
        r@ == v@,
{
    let mut out: Vec<u64> = Vec::new();
    let mut i: usize = 0;
    while i < v.len()
        invariant
            i <= v@.len(),
            out@ =~= v@.subrange(0, i as int),
        decreases v@.len() - i,
    {
        out.push(v[i]);
        proof {
            assert(out@ =~= v@.subrange(0, i + 1));
        }
        i = i + 1;
    }
    proof {
        assert(out@ =~= v@);
    }
    out
}

} // verus!
