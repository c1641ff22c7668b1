//! Big-files component provider: claims every regular file of at least
//! [`BIGFILE_MIN_SIZE`] bytes as its own standalone component, so the
//! packer can place each large unclaimed file freely. Hardlinked files
//! sharing an inode form one component.

use vstd::prelude::*;

use crate::filemap::{clone_path, FileInfoV, FileMap};
use crate::pathutil::path_eq;
use crate::strutil::str_eq;

verus! {

/// Minimum file size in bytes to be considered a "big file" (1 MiB).
pub const BIGFILE_MIN_SIZE: u64 = 1048576;

/// Whether the inventory entry at `i` is a big regular file.
pub open spec fn big_qualifies(fm: Seq<(Seq<Seq<char>>, FileInfoV)>, i: int) -> bool {
    &&& 0 <= i < fm.len()
    &&& fm[i].1.file_type is File
    &&& fm[i].1.size >= BIGFILE_MIN_SIZE
    &&& fm[i].0.len() > 0
}

/// Whether the entry at `i` takes part in hardlink grouping.
pub open spec fn big_grouped(fm: Seq<(Seq<Seq<char>>, FileInfoV)>, i: int) -> bool {
    big_qualifies(fm, i) && fm[i].1.nlink > 1
}

/// First index below `n` of a grouped big file with inode `ino`, or -1.
pub open spec fn first_grouped_idx(fm: Seq<(Seq<Seq<char>>, FileInfoV)>, ino: u64, n: int) -> int
    decreases n,
{
    if n <= 0 {
        -1
    } else {
        let r = first_grouped_idx(fm, ino, n - 1);
        if r >= 0 {
            r
        } else if big_grouped(fm, n - 1) && fm[n - 1].1.ino == ino {
            n - 1
        } else {
            -1
        }
    }
}

/// The component name for a leader: the basename, or, when that name is
/// already used, the full path without the leading slash.
pub open spec fn spec_pick_name(names: Seq<Seq<char>>, path: Seq<Seq<char>>) -> Seq<char> {
    if names.contains(path.last()) {
        crate::pathutil::spec_rel_string(path)
    } else {
        path.last()
    }
}

/// All later hardlink group members of inode `ino`, from index `from`
/// on, folded into the claims with component `id`.
pub open spec fn big_members(
    fm: Seq<(Seq<Seq<char>>, FileInfoV)>,
    ino: u64,
    from: int,
    id: usize,
    claims: Seq<(Seq<Seq<char>>, usize)>,
) -> Seq<(Seq<Seq<char>>, usize)>
    decreases fm.len() - from,
{
    if from >= fm.len() || from < 0 {
        claims
    } else {
        let c2 = if big_grouped(fm, from) && fm[from].1.ino == ino {
            claims.push((fm[from].0, id))
        } else {
            claims
        };
        big_members(fm, ino, from + 1, id, c2)
    }
}

/// One inventory entry folded into the provider state: a qualifying
/// file that is not a later hardlink of an already-seen inode opens a
/// component and claims itself and all its hardlinks.
pub open spec fn big_step(
    fm: Seq<(Seq<Seq<char>>, FileInfoV)>,
    i: int,
    state: (Seq<Seq<char>>, Seq<(Seq<Seq<char>>, usize)>),
) -> (Seq<Seq<char>>, Seq<(Seq<Seq<char>>, usize)>) {
    if !big_qualifies(fm, i) {
        state
    } else if fm[i].1.nlink > 1 && first_grouped_idx(fm, fm[i].1.ino, i) >= 0 {
        state
    } else {
        let nm = spec_pick_name(state.0, fm[i].0);
        let id = state.0.len() as usize;
        let claims2 = state.1.push((fm[i].0, id));
        let claims3 = if fm[i].1.nlink > 1 {
            big_members(fm, fm[i].1.ino, i + 1, id, claims2)
        } else {
            claims2
        };
        (state.0.push(nm), claims3)
    }
}

/// The provider state after the first `n` inventory entries.
pub open spec fn spec_big_load(fm: Seq<(Seq<Seq<char>>, FileInfoV)>, n: int) -> (
    Seq<Seq<char>>,
    Seq<(Seq<Seq<char>>, usize)>,
)
    decreases n,
{
    if n <= 0 {
        (Seq::empty(), Seq::empty())
    } else {
        big_step(fm, n - 1, spec_big_load(fm, n - 1))
    }
}

/// Big files component provider. Every component is one big file, or
/// one hardlink group of big files; stability is always zero and the
/// mtime clamp is the caller-supplied build epoch.
#[derive(Debug)]
pub struct BigfilesRepo {
    /// Component names, indexed by component id.
    components: Vec<String>,
    /// Claims: path -> component id.
    claims: Vec<(Vec<String>, usize)>,
    /// Mtime clamp for every component.
    default_mtime_clamp: u64,
}

/// First index with path `p` among the claims, or -1.
pub open spec fn big_claim_find(claims: Seq<(Seq<Seq<char>>, usize)>, p: Seq<Seq<char>>) -> int
    decreases claims.len(),
{
    if claims.len() == 0 {
        -1
    } else if claims.first().0 == p {
        0
    } else {
        let r = big_claim_find(claims.drop_first(), p);
        if r < 0 {
            -1
        } else {
            r + 1
        }
    }
}

/// A successful claim lookup lands in range, on the queried path.
pub proof fn lemma_big_claim_find_props(claims: Seq<(Seq<Seq<char>>, usize)>, p: Seq<Seq<char>>)
    ensures
        big_claim_find(claims, p) >= 0 ==> 0 <= big_claim_find(claims, p) < claims.len()
            && claims[big_claim_find(claims, p)].0 == p,
    decreases claims.len(),
{
    if claims.len() > 0 && claims.first().0 != p {
        lemma_big_claim_find_props(claims.drop_first(), p);
        let r = big_claim_find(claims.drop_first(), p);
        if r >= 0 {
            assert(claims.drop_first()[r] == claims[r + 1]);
        }
    }
}

proof fn lemma_big_claim_find_at(claims: Seq<(Seq<Seq<char>>, usize)>, p: Seq<Seq<char>>, at: int)
    requires
        0 <= at < claims.len(),
        claims[at].0 == p,
        forall|j: int| 0 <= j < at ==> claims[j].0 != p,
    ensures
        big_claim_find(claims, p) == at,
    decreases claims.len(),
{
    if at > 0 {
        assert(claims.drop_first()[at - 1] == claims[at]);
        assert forall|j: int| 0 <= j < at - 1 implies claims.drop_first()[j].0 != p by {
            assert(claims.drop_first()[j] == claims[j + 1]);
        }
        lemma_big_claim_find_at(claims.drop_first(), p, at - 1);
    }
}

proof fn lemma_big_claim_find_none(claims: Seq<(Seq<Seq<char>>, usize)>, p: Seq<Seq<char>>)
    requires
        forall|j: int| 0 <= j < claims.len() ==> claims[j].0 != p,
    ensures
        big_claim_find(claims, p) == -1,
    decreases claims.len(),
{
    if claims.len() > 0 {
        assert forall|j: int|
            0 <= j < claims.drop_first().len() implies claims.drop_first()[j].0 != p by {
            assert(claims.drop_first()[j] == claims[j + 1]);
        }
        lemma_big_claim_find_none(claims.drop_first(), p);
    }
}

impl View for BigfilesRepo {
    type V = (Seq<Seq<char>>, Seq<(Seq<Seq<char>>, usize)>, u64);

    closed spec fn view(&self) -> (Seq<Seq<char>>, Seq<(Seq<Seq<char>>, usize)>, u64) {
        (self.components.deep_view(), self.claims.deep_view(), self.default_mtime_clamp)
    }
}

proof fn lemma_first_grouped_at(fm: Seq<(Seq<Seq<char>>, FileInfoV)>, ino: u64, n: int, at: int)
    requires
        0 <= at < n,
        big_grouped(fm, at) && fm[at].1.ino == ino,
        forall|j: int| 0 <= j < at ==> !(big_grouped(fm, j) && fm[j].1.ino == ino),
    ensures
        first_grouped_idx(fm, ino, n) == at,
    decreases n,
{
    if at < n - 1 {
        lemma_first_grouped_at(fm, ino, n - 1, at);
    } else {
        lemma_first_grouped_none(fm, ino, n - 1);
    }
}

proof fn lemma_first_grouped_none(fm: Seq<(Seq<Seq<char>>, FileInfoV)>, ino: u64, n: int)
    requires
        forall|j: int| 0 <= j < n ==> !(big_grouped(fm, j) && fm[j].1.ino == ino),
    ensures
        first_grouped_idx(fm, ino, n) == -1,
    decreases n,
{
    if n > 0 {
        lemma_first_grouped_none(fm, ino, n - 1);
    }
}

impl BigfilesRepo {
    /// Scan the inventory for big files and build the provider state:
    /// exactly [`spec_big_load`] over the whole inventory. Yields
    /// nothing when no file qualifies.
    pub fn load(files: &FileMap, default_mtime_clamp: u64) -> (r: Option<BigfilesRepo>)
        ensures
            match r {
                Option::Some(repo) => spec_big_load(files@, files@.len() as int).0.len() > 0
                    && repo@.0 == spec_big_load(files@, files@.len() as int).0 && repo@.1
                    == spec_big_load(files@, files@.len() as int).1 && repo@.2
                    == default_mtime_clamp,
                Option::None => spec_big_load(files@, files@.len() as int).0.len() == 0,
            },
    {
        let ghost fm = files@;
        let mut components: Vec<String> = Vec::new();
        let mut claims: Vec<(Vec<String>, usize)> = Vec::new();
        proof {
            assert(components.deep_view() =~= Seq::<Seq<char>>::empty());
            assert(claims.deep_view() =~= Seq::<(Seq<Seq<char>>, usize)>::empty());
        }
        let n = files.len();
        let mut i: usize = 0;
        while i < n
            invariant
                i <= n,
                n == fm.len(),
                fm == files@,
                (components.deep_view(), claims.deep_view()) == spec_big_load(fm, i as int),
            decreases n - i,
        {
            let info = files.info_at(i);
            let is_file = matches!(info.file_type, crate::filemap::FileType::File);
            let path = files.key_at(i);
            if !(is_file && info.size >= BIGFILE_MIN_SIZE && path.len() > 0) {
                proof {
                    assert(!big_qualifies(fm, i as int));
                }
                i = i + 1;
                continue ;
            }
            proof {
                assert(big_qualifies(fm, i as int));
            }
            let ino = info.ino;
            if info.nlink > 1 {
                // Skip when an earlier hardlink already opened the group.
                let mut j: usize = 0;
                let mut seen = false;
                loop
                    invariant
                        j <= i < n,
                        n == fm.len(),
                        fm == files@,
                        !seen ==> forall|q: int|
                            0 <= q < j ==> !(big_grouped(fm, q) && fm[q].1.ino == ino),
                        seen ==> j < i && big_grouped(fm, j as int) && fm[j as int].1.ino == ino
                            && forall|q: int|
                            0 <= q < j ==> !(big_grouped(fm, q) && fm[q].1.ino == ino),
                    ensures
                        fm == files@,
                        seen ==> first_grouped_idx(fm, ino, i as int) >= 0,
                        !seen ==> first_grouped_idx(fm, ino, i as int) == -1,
                    decreases i - j + if seen {
                        0int
                    } else {
                        1int
                    },
                {
                    if seen {
                        proof {
                            lemma_first_grouped_at(fm, ino, i as int, j as int);
                        }
                        break;
                    }
                    if j >= i {
                        proof {
                            lemma_first_grouped_none(fm, ino, i as int);
                        }
                        break;
                    }
                    let jinfo = files.info_at(j);
                    let jpath = files.key_at(j);
                    if matches!(jinfo.file_type, crate::filemap::FileType::File) && jinfo.size
                        >= BIGFILE_MIN_SIZE && jpath.len() > 0 && jinfo.nlink > 1 && jinfo.ino
                        == ino {
                        seen = true;
                    } else {
                        proof {
                            assert(!(big_grouped(fm, j as int) && fm[j as int].1.ino == ino));
                        }
                        j = j + 1;
                    }
                }
                if seen {
                    i = i + 1;
                    continue ;
                }
            }
            // This entry leads a new component.
            let ghost pre_names = components.deep_view();
            let ghost pre_claims = claims.deep_view();
            let basename = path[path.len() - 1].clone();
            proof {
                assert(basename@ == fm[i as int].0.last());
            }
            // Use the basename unless it is already taken.
            let mut q: usize = 0;
            let mut taken = false;
            loop
                invariant
                    q <= pre_names.len(),
                    pre_names == components.deep_view(),
                    basename@ == fm[i as int].0.last(),
                    0 <= i < fm.len(),
                    fm == files@,
                    !taken ==> forall|p: int| 0 <= p < q ==> pre_names[p] != basename@,
                    taken ==> pre_names.contains(basename@),
                ensures
                    pre_names == components.deep_view(),
                    taken == pre_names.contains(fm[i as int].0.last()),
                decreases pre_names.len() - q + if taken {
                    0int
                } else {
                    1int
                },
            {
                if taken {
                    break;
                }
                if q >= components.len() {
                    proof {
                        assert(!pre_names.contains(basename@));
                    }
                    break;
                }
                proof {
                    assert(pre_names[q as int] == components@[q as int]@);
                }
                if str_eq(components[q].as_str(), basename.as_str()) {
                    proof {
                        assert(pre_names[q as int] == basename@);
                    }
                    taken = true;
                } else {
                    q = q + 1;
                }
            }
            let name = if taken {
                crate::pathutil::rel_path_to_string(path)
            } else {
                basename
            };
            proof {
                assert(name@ == spec_pick_name(pre_names, fm[i as int].0));
            }
            let id = components.len();
            components.push(name);
            proof {
                assert(components.deep_view() =~= pre_names.push(
                    spec_pick_name(pre_names, fm[i as int].0),
                ));
            }
            let ghost claims_self = pre_claims.push((fm[i as int].0, id));
            let key = clone_path(path);
            claims.push((key, id));
            proof {
                assert(claims.deep_view() =~= claims_self);
            }
            if info.nlink > 1 {
                // Claim every later hardlink of this inode too.
                let mut k: usize = i + 1;
                proof {
                    assert(big_members(fm, ino, i + 1, id, claims_self) == big_members(
                        fm,
                        ino,
                        k as int,
                        id,
                        claims.deep_view(),
                    ));
                }
                while k < n
                    invariant
                        i < k <= n,
                        n == fm.len(),
                        fm == files@,
                        big_members(fm, ino, i + 1, id, claims_self) == big_members(
                            fm,
                            ino,
                            k as int,
                            id,
                            claims.deep_view(),
                        ),
                    decreases n - k,
                {
                    let kinfo = files.info_at(k);
                    let kpath = files.key_at(k);
                    let ghost prev = claims.deep_view();
                    if matches!(kinfo.file_type, crate::filemap::FileType::File) && kinfo.size
                        >= BIGFILE_MIN_SIZE && kpath.len() > 0 && kinfo.nlink > 1 && kinfo.ino
                        == ino {
                        proof {
                            assert(big_grouped(fm, k as int) && fm[k as int].1.ino == ino);
                        }
                        let kkey = clone_path(kpath);
                        claims.push((kkey, id));
                        proof {
                            assert(claims.deep_view() =~= prev.push((fm[k as int].0, id)));
                        }
                    } else {
                        proof {
                            assert(!(big_grouped(fm, k as int) && fm[k as int].1.ino == ino));
                        }
                    }
                    k = k + 1;
                }
                proof {
                    assert(big_members(fm, ino, n as int, id, claims.deep_view())
                        == claims.deep_view());
                }
            }
            proof {
                assert((components.deep_view(), claims.deep_view()) == big_step(
                    fm,
                    i as int,
                    (pre_names, pre_claims),
                ));
            }
            i = i + 1;
        }
        if components.len() == 0 {
            return Option::None;
        }
        Option::Some(BigfilesRepo { components, claims, default_mtime_clamp })
    }

    /// Number of components.
    pub fn component_count(&self) -> (r: usize)
        ensures
            r == self@.0.len(),
    {
        self.components.len()
    }

    /// The (name, mtime clamp, stability) of a component: the clamp is
    /// the build epoch and the stability is always zero.
    pub fn component_info(&self, id: usize) -> (r: (&String, u64, u64))
        requires
            id < self@.0.len(),
        ensures
            r.0@ == self@.0[id as int],
            r.1 == self@.2,
            r.2 == 0,
    {
        (&self.components[id], self.default_mtime_clamp, 0)
    }

    /// The component claiming `path`, if any: the first claim entry
    /// with that path.
    pub fn claims_for_path(&self, path: &Vec<String>) -> (r: Option<usize>)
        ensures
            big_claim_find(self@.1, path.deep_view()) >= 0 ==> r == Option::Some(
                self@.1[big_claim_find(self@.1, path.deep_view())].1,
            ),
            big_claim_find(self@.1, path.deep_view()) < 0 ==> r is None,
    {
        let ghost cv = self@.1;
        let mut j: usize = 0;
        while j < self.claims.len()
            invariant
                j <= cv.len(),
                cv == self@.1,
                forall|q: int| 0 <= q < j ==> (#[trigger] cv[q]).0 != path.deep_view(),
            decreases cv.len() - j,
        {
            proof {
                assert(cv[j as int].0 == self.claims@[j as int].0.deep_view());
            }
            if path_eq(&self.claims[j].0, path) {
                proof {
                    lemma_big_claim_find_at(cv, path.deep_view(), j as int);
                }
                return Option::Some(self.claims[j].1);
            }
            j = j + 1;
        }
        proof {
            lemma_big_claim_find_none(cv, path.deep_view());
        }
        Option::None
    }
}

} // verus!
