//! The file inventory: an ordered mapping from absolute paths to file
//! metadata, sorted by path. Sorted order is an invariant the layer
//! builder relies on for reproducible output.

use vstd::prelude::*;

use crate::pathutil::{lemma_path_lt_trans, lemma_path_lt_trichotomy, path_cmp_lt, path_eq,
    path_lt};

verus! {

/// Supported file kinds; special files (sockets, devices, FIFOs) are
/// either skipped or rejected before this type is formed.
#[derive(Debug, Clone, Copy, PartialEq, Eq, Structural)]
pub enum FileType {
    Directory,
    File,
    Symlink,
}

/// A symlink's raw target: absolute or relative, split into segments
/// that may still contain `.` and `..`.
#[derive(Debug)]
pub struct SymlinkTarget {
    pub absolute: bool,
    pub segments: Vec<String>,
}

/// Per-path metadata recorded by the scanner.
#[derive(Debug)]
pub struct FileInfo {
    pub file_type: FileType,
    /// Size in bytes; 0 for non-regular files.
    pub size: u64,
    /// Modification time, seconds since the UNIX epoch.
    pub mtime: u64,
    /// Permission and type bits.
    pub mode: u32,
    pub uid: u32,
    pub gid: u32,
    /// Inode number, for hardlink detection.
    pub ino: u64,
    /// Hardlink count.
    pub nlink: u64,
    /// Target, for symlinks only.
    pub target: Option<SymlinkTarget>,
    /// Extended attributes as ordered (key, value) pairs.
    pub xattrs: Vec<(String, Vec<u8>)>,
}

/// Mathematical value of a [`FileInfo`].
pub ghost struct FileInfoV {
    pub file_type: FileType,
    pub size: u64,
    pub mtime: u64,
    pub mode: u32,
    pub uid: u32,
    pub gid: u32,
    pub ino: u64,
    pub nlink: u64,
    pub target: Option<(bool, Seq<Seq<char>>)>,
    pub xattrs: Seq<(Seq<char>, Seq<u8>)>,
}

impl View for FileInfo {
    type V = FileInfoV;

    open spec fn view(&self) -> FileInfoV {
        FileInfoV {
            file_type: self.file_type,
            size: self.size,
            mtime: self.mtime,
            mode: self.mode,
            uid: self.uid,
            gid: self.gid,
            ino: self.ino,
            nlink: self.nlink,
            target: match self.target {
                Option::None => Option::None,
                Option::Some(t) => Option::Some((t.absolute, t.segments.deep_view())),
            },
            xattrs: self.xattrs.deep_view(),
        }
    }
}

impl FileInfo {
    /// An exact copy; unlike a derived clone, the relation to the
    /// original is part of the contract.
    pub fn duplicate(&self) -> (r: FileInfo)
        ensures
            r@ == self@,
    {
        let target = match &self.target {
            Option::None => Option::None,
            Option::Some(t) => Option::Some(
                SymlinkTarget { absolute: t.absolute, segments: clone_path(&t.segments) },
            ),
        };
        let r = FileInfo {
            file_type: self.file_type,
            size: self.size,
            mtime: self.mtime,
            mode: self.mode,
            uid: self.uid,
            gid: self.gid,
            ino: self.ino,
            nlink: self.nlink,
            target,
            xattrs: clone_xattrs(&self.xattrs),
        };
        proof {
            assert(r@.xattrs =~= self@.xattrs);
            if self.target is Some {
                let t1 = r@.target->Some_0;
                let t2 = self@.target->Some_0;
                assert(t1.1 =~= t2.1);
            }
        }
        r
    }
}

/// Copy a segment path; the copy has the same view.
pub fn clone_path(p: &Vec<String>) -> (r: Vec<String>)
    ensures
        r.deep_view() == p.deep_view(),
{
    let mut out: Vec<String> = Vec::new();
    proof {
        assert(out.deep_view() =~= p.deep_view().subrange(0, 0));
    }
    let mut i: usize = 0;
    while i < p.len()
        invariant
            i <= p@.len(),
            out@.len() == i,
            out.deep_view() == p.deep_view().subrange(0, i as int),
        decreases p@.len() - i,
    {
        let ghost pre = out.deep_view();
        let c = p[i].clone();
        proof {
            assert(c == p@[i as int]);
        }
        out.push(c);
        proof {
            assert(out.deep_view() =~= pre.push(c.deep_view()));
            assert(p.deep_view().subrange(0, i + 1) =~= p.deep_view().subrange(0, i as int).push(
                p.deep_view()[i as int],
            ));
        }
        i = i + 1;
    }
    proof {
        assert(p.deep_view().subrange(0, p@.len() as int) =~= p.deep_view());
    }
    out
}

fn clone_bytes(b: &Vec<u8>) -> (r: Vec<u8>)
    ensures
        r@ == b@,
{
    let mut out: Vec<u8> = Vec::new();
    let mut i: usize = 0;
    while i < b.len()
        invariant
            i <= b@.len(),
            out@ =~= b@.subrange(0, i as int),
        decreases b@.len() - i,
    {
        out.push(b[i]);
        proof {
            assert(out@ =~= b@.subrange(0, i + 1));
        }
        i = i + 1;
    }
    proof {
        assert(out@ =~= b@);
    }
    out
}

fn clone_xattrs(xs: &Vec<(String, Vec<u8>)>) -> (r: Vec<(String, Vec<u8>)>)
    ensures
        r.deep_view() == xs.deep_view(),
{
    let mut out: Vec<(String, Vec<u8>)> = Vec::new();
    proof {
        assert(out.deep_view() =~= xs.deep_view().subrange(0, 0));
    }
    let mut i: usize = 0;
    while i < xs.len()
        invariant
            i <= xs@.len(),
            out@.len() == i,
            out.deep_view() == xs.deep_view().subrange(0, i as int),
        decreases xs@.len() - i,
    {
        let ghost pre = out.deep_view();
        let (k, v) = &xs[i];
        let kc = k.clone();
        let vc = clone_bytes(v);
        proof {
            assert((kc, vc).deep_view() =~= xs@[i as int].deep_view());
        }
        out.push((kc, vc));
        proof {
            assert(out.deep_view() =~= pre.push(xs@[i as int].deep_view()));
            assert(xs.deep_view().subrange(0, i + 1) =~= xs.deep_view().subrange(
                0,
                i as int,
            ).push(xs.deep_view()[i as int]));
        }
        i = i + 1;
    }
    proof {
        assert(xs.deep_view().subrange(0, xs@.len() as int) =~= xs.deep_view());
    }
    out
}

/// Ordered mapping path -> FileInfo, sorted by path.
#[derive(Debug)]
pub struct FileMap {
    entries: Vec<(Vec<String>, FileInfo)>,
}

impl View for FileMap {
    type V = Seq<(Seq<Seq<char>>, FileInfoV)>;

    closed spec fn view(&self) -> Seq<(Seq<Seq<char>>, FileInfoV)> {
        Seq::new(self.entries@.len(), |i: int| (self.entries@[i].0.deep_view(),
        self.entries@[i].1@))
    }
}

impl FileMap {
    /// Keys strictly ascending in path order.
    pub open spec fn wf(self) -> bool {
        forall|i: int, j: int| 0 <= i < j < self@.len() ==> path_lt(self@[i].0, self@[j].0)
    }

    /// Whether some entry has key `k`.
    pub open spec fn spec_contains(self, k: Seq<Seq<char>>) -> bool {
        spec_contains_of(self@, k)
    }

    /// The value mapped to `k`, if any.
    pub open spec fn spec_get(self, k: Seq<Seq<char>>) -> Option<FileInfoV> {
        spec_get_of(self@, k)
    }

    /// Distinct positions hold distinct keys.
    pub proof fn lemma_keys_distinct(&self, i: int, j: int)
        requires
            self.wf(),
            0 <= i < self@.len(),
            0 <= j < self@.len(),
            i != j,
        ensures
            self@[i].0 != self@[j].0,
    {
        if i < j {
            lemma_path_lt_trichotomy(self@[i].0, self@[j].0);
        } else {
            lemma_path_lt_trichotomy(self@[j].0, self@[i].0);
        }
    }

    /// Sorted keys are pairwise distinct.
    pub proof fn lemma_wf_unique(&self)
        requires
            self.wf(),
        ensures
            keys_unique(self@),
    {
        assert forall|p: int, q: int|
            0 <= p < q < self@.len() implies self@[p].0 != self@[q].0 by {
            lemma_path_lt_trichotomy(self@[p].0, self@[q].0);
        }
    }

    /// An entry's value is what `spec_get` returns for its key.
    pub proof fn lemma_get_at(&self, at: int)
        requires
            self.wf(),
            0 <= at < self@.len(),
        ensures
            self.spec_get(self@[at].0) == Option::Some(self@[at].1),
    {
        self.lemma_wf_unique();
        lemma_get_unique(self@, self@[at].0, at);
    }

    pub fn new() -> (r: FileMap)
        ensures
            r@ =~= Seq::<(Seq<Seq<char>>, FileInfoV)>::empty(),
            r.wf(),
    {
        FileMap { entries: Vec::new() }
    }

    pub fn len(&self) -> (r: usize)
        ensures
            r == self@.len(),
    {
        self.entries.len()
    }

    /// The key at position `i`, in ascending path order.
    pub fn key_at(&self, i: usize) -> (r: &Vec<String>)
        requires
            i < self@.len(),
        ensures
            r.deep_view() == self@[i as int].0,
    {
        &self.entries[i].0
    }

    /// The value at position `i`.
    pub fn info_at(&self, i: usize) -> (r: &FileInfo)
        requires
            i < self@.len(),
        ensures
            r@ == self@[i as int].1,
    {
        &self.entries[i].1
    }

    /// Look up a path.
    pub fn get(&self, k: &Vec<String>) -> (r: Option<&FileInfo>)
        requires
            self.wf(),
        ensures
            match r {
                Option::Some(v) => self.spec_get(k.deep_view()) == Option::Some(v@),
                Option::None => self.spec_get(k.deep_view()) is None,
            },
    {
        let mut i: usize = 0;
        while i < self.entries.len()
            invariant
                self.wf(),
                i <= self@.len(),
                forall|j: int| 0 <= j < i ==> self@[j].0 != k.deep_view(),
            decreases self@.len() - i,
        {
            if path_eq(&self.entries[i].0, k) {
                proof {
                    self.lemma_get_at(i as int);
                }
                return Option::Some(&self.entries[i].1);
            }
            i = i + 1;
        }
        proof {
            assert(!self.spec_contains(k.deep_view()));
        }
        Option::None
    }

    /// Insert an entry, replacing any entry with an equal path. Other
    /// entries keep their values; order stays ascending.
    pub fn insert(&mut self, k: Vec<String>, v: FileInfo)
        requires
            old(self).wf(),
        ensures
            final(self).wf(),
            final(self).spec_get(k.deep_view()) == Option::Some(v@),
            forall|k2: Seq<Seq<char>>|
                k2 != k.deep_view() ==> final(self).spec_get(k2) == old(self).spec_get(k2),
            final(self)@.len() == old(self)@.len() + if old(self).spec_contains(k.deep_view()) {
                0int
            } else {
                1int
            },
    {
        let ghost pre = self@;
        let ghost kd = k.deep_view();
        let mut i: usize = 0;
        loop
            invariant
                self@ == pre,
                self.wf(),
                i <= self@.len(),
                forall|j: int| 0 <= j < i ==> path_lt(self@[j].0, kd),
                kd == k.deep_view(),
            ensures
                self@ == pre,
                i <= self@.len(),
                forall|j: int| 0 <= j < i ==> path_lt(self@[j].0, kd),
                i < self@.len() ==> !path_lt(self@[i as int].0, kd),
            decreases self@.len() - i,
        {
            if i >= self.entries.len() {
                break;
            }
            if !path_cmp_lt(&self.entries[i].0, &k) {
                break;
            }
            i = i + 1;
        }
        // `i` is the first position not below `k`.
        if i < self.entries.len() && path_eq(&self.entries[i].0, &k) {
            self.entries[i] = (k, v);
            proof {
                assert(self@[i as int].0 == kd && self@[i as int].1 == v@);
                assert forall|j: int| 0 <= j < pre.len() && j != i implies self@[j] == pre[j] by {}
                assert forall|p: int, q: int| 0 <= p < q < self@.len() implies path_lt(
                    self@[p].0,
                    self@[q].0,
                ) by {
                    assert(self@[p].0 == pre[p].0 && self@[q].0 == pre[q].0);
                }
                self.lemma_wf_unique();
                assert(keys_unique(pre)) by {
                    assert forall|p: int, q: int|
                        0 <= p < q < pre.len() implies pre[p].0 != pre[q].0 by {
                        lemma_path_lt_trichotomy(pre[p].0, pre[q].0);
                    }
                }
                lemma_get_unique(self@, kd, i as int);
                lemma_frame_replace(pre, self@, i as int, kd);
                assert(spec_contains_of(pre, kd)) by {
                    assert(pre[i as int].0 == kd);
                }
            }
        } else {
            proof {
                if i < self@.len() {
                    lemma_path_lt_trichotomy(self@[i as int].0, kd);
                    assert(path_lt(kd, self@[i as int].0));
                }
            }
            self.entries.insert(i, (k, v));
            proof {
                assert(self@ =~= pre.insert(i as int, (kd, v@)));
                pre.insert_ensures(i as int, (kd, v@));
                assert forall|j: int| 0 <= j < i implies self@[j] == pre[j] by {}
                assert forall|j: int| i < j < self@.len() implies self@[j] == pre[j - 1] by {
                    assert(pre.insert(i as int, (kd, v@))[j - 1 + 1] == pre[j - 1]);
                }
                assert forall|j: int| i < j < self@.len() implies path_lt(kd, self@[j].0) by {
                    assert(self@[j] == pre[j - 1]);
                    if j - 1 == i as int {
                        assert(path_lt(kd, pre[i as int].0));
                    } else {
                        lemma_path_lt_trans(kd, pre[i as int].0, pre[j - 1].0);
                    }
                }
                assert forall|p: int, q: int| 0 <= p < q < self@.len() implies path_lt(
                    self@[p].0,
                    self@[q].0,
                ) by {
                    if q < i as int {
                    } else if q == i as int {
                        assert(self@[p] == pre[p]);
                        assert(path_lt(pre[p].0, kd));
                    } else if p < i as int {
                        assert(self@[p] == pre[p]);
                        lemma_path_lt_trans(pre[p].0, kd, self@[q].0);
                    } else if p == i as int {
                    } else {
                        assert(self@[p] == pre[p - 1] && self@[q] == pre[q - 1]);
                    }
                }
                assert(self@[i as int].0 == kd && self@[i as int].1 == v@);
                self.lemma_wf_unique();
                assert(keys_unique(pre)) by {
                    assert forall|p: int, q: int|
                        0 <= p < q < pre.len() implies pre[p].0 != pre[q].0 by {
                        lemma_path_lt_trichotomy(pre[p].0, pre[q].0);
                    }
                }
                lemma_get_unique(self@, kd, i as int);
                lemma_frame_insert(pre, self@, i as int, kd);
                assert(!spec_contains_of(pre, kd)) by {
                    assert forall|j: int| 0 <= j < pre.len() implies pre[j].0 != kd by {
                        if j < i as int {
                            lemma_path_lt_trichotomy(pre[j].0, kd);
                        } else if i < pre.len() {
                            if j == i as int {
                                lemma_path_lt_trichotomy(pre[j].0, kd);
                            } else {
                                lemma_path_lt_trans(kd, pre[i as int].0, pre[j].0);
                                lemma_path_lt_trichotomy(pre[j].0, kd);
                            }
                        }
                    }
                }
            }
        }
    }
}

/// Pairwise distinct keys.
pub open spec fn keys_unique(v: Seq<(Seq<Seq<char>>, FileInfoV)>) -> bool {
    forall|p: int, q: int| 0 <= p < q < v.len() ==> v[p].0 != v[q].0
}

/// With distinct keys, looking up the key at position `at` yields that
/// entry's value.
pub proof fn lemma_get_unique(v: Seq<(Seq<Seq<char>>, FileInfoV)>, k: Seq<Seq<char>>, at: int)
    requires
        keys_unique(v),
        0 <= at < v.len(),
        v[at].0 == k,
    ensures
        spec_get_of(v, k) == Option::Some(v[at].1),
{
    assert(spec_contains_of(v, k));
    let i = choose|i: int| 0 <= i < v.len() && v[i].0 == k;
    if i < at {
        assert(v[i].0 != v[at].0);
    } else if at < i {
        assert(v[at].0 != v[i].0);
    }
}

/// Replacing the entry at `at` (key unchanged) leaves every other key's
/// lookup unchanged.
proof fn lemma_frame_replace(
    pre: Seq<(Seq<Seq<char>>, FileInfoV)>,
    post: Seq<(Seq<Seq<char>>, FileInfoV)>,
    at: int,
    kd: Seq<Seq<char>>,
)
    requires
        0 <= at < post.len(),
        post.len() == pre.len(),
        forall|j: int| 0 <= j < pre.len() && j != at ==> post[j] == pre[j],
        post[at].0 == kd,
        pre[at].0 == kd,
        keys_unique(pre),
        keys_unique(post),
    ensures
        forall|k2: Seq<Seq<char>>| k2 != kd ==> spec_get_of(post, k2) == spec_get_of(pre, k2),
{
    assert forall|k2: Seq<Seq<char>>| k2 != kd implies spec_get_of(post, k2) == spec_get_of(
        pre,
        k2,
    ) by {
        if spec_contains_of(pre, k2) {
            let i = choose|i: int| 0 <= i < pre.len() && pre[i].0 == k2;
            assert(i != at);
            assert(post[i] == pre[i]);
            lemma_get_unique(pre, k2, i);
            lemma_get_unique(post, k2, i);
        } else {
            assert forall|j: int| 0 <= j < post.len() implies post[j].0 != k2 by {
                if j != at {
                    assert(post[j] == pre[j]);
                    assert(pre[j].0 != k2);
                }
            }
            assert(!spec_contains_of(post, k2));
        }
    }
}

/// Inserting a fresh key at `at` leaves every other key's lookup
/// unchanged.
proof fn lemma_frame_insert(
    pre: Seq<(Seq<Seq<char>>, FileInfoV)>,
    post: Seq<(Seq<Seq<char>>, FileInfoV)>,
    at: int,
    kd: Seq<Seq<char>>,
)
    requires
        0 <= at < post.len(),
        post.len() == pre.len() + 1,
        forall|j: int| 0 <= j < at ==> post[j] == pre[j],
        forall|j: int| at < j < post.len() ==> post[j] == pre[j - 1],
        post[at].0 == kd,
        keys_unique(pre),
        keys_unique(post),
    ensures
        forall|k2: Seq<Seq<char>>| k2 != kd ==> spec_get_of(post, k2) == spec_get_of(pre, k2),
{
    assert forall|k2: Seq<Seq<char>>| k2 != kd implies spec_get_of(post, k2) == spec_get_of(
        pre,
        k2,
    ) by {
        if spec_contains_of(pre, k2) {
            let i = choose|i: int| 0 <= i < pre.len() && pre[i].0 == k2;
            let at2 = if i < at {
                i
            } else {
                i + 1
            };
            assert(post[at2] == pre[i]);
            lemma_get_unique(pre, k2, i);
            lemma_get_unique(post, k2, at2);
        } else {
            assert forall|j: int| 0 <= j < post.len() implies post[j].0 != k2 by {
                if j < at {
                    assert(post[j] == pre[j]);
                    assert(pre[j].0 != k2);
                } else if j > at {
                    assert(post[j] == pre[j - 1]);
                    assert(pre[j - 1].0 != k2);
                }
            }
            assert(!spec_contains_of(post, k2));
        }
    }
}

/// Whether entry `i` of the map view is a hardlinked regular file.
pub open spec fn spec_hardlinked(fm: Seq<(Seq<Seq<char>>, FileInfoV)>, i: int) -> bool {
    0 <= i < fm.len() && fm[i].1.file_type is File && fm[i].1.nlink > 1
}

/// First index below `n` of a hardlinked regular file with inode `ino`,
/// or -1.
pub open spec fn first_link_idx(fm: Seq<(Seq<Seq<char>>, FileInfoV)>, ino: u64, n: int) -> int
    decreases n,
{
    if n <= 0 {
        -1
    } else {
        let r = first_link_idx(fm, ino, n - 1);
        if r >= 0 {
            r
        } else if spec_hardlinked(fm, n - 1) && fm[n - 1].1.ino == ino {
            n - 1
        } else {
            -1
        }
    }
}

proof fn lemma_first_link_at(fm: Seq<(Seq<Seq<char>>, FileInfoV)>, ino: u64, n: int, at: int)
    requires
        0 <= at < n,
        spec_hardlinked(fm, at) && fm[at].1.ino == ino,
        forall|j: int| 0 <= j < at ==> !(spec_hardlinked(fm, j) && fm[j].1.ino == ino),
    ensures
        first_link_idx(fm, ino, n) == at,
    decreases n,
{
    if at < n - 1 {
        lemma_first_link_at(fm, ino, n - 1, at);
    } else {
        lemma_first_link_none(fm, ino, n - 1);
    }
}

proof fn lemma_first_link_none(fm: Seq<(Seq<Seq<char>>, FileInfoV)>, ino: u64, n: int)
    requires
        forall|j: int| 0 <= j < n ==> !(spec_hardlinked(fm, j) && fm[j].1.ino == ino),
    ensures
        first_link_idx(fm, ino, n) == -1,
    decreases n,
{
    if n > 0 {
        lemma_first_link_none(fm, ino, n - 1);
    }
}

/// The entry's emission plan: the position of the earlier entry it
/// should be emitted as a hardlink of, or `None` for a full copy.
pub open spec fn spec_hardlink_target(fm: Seq<(Seq<Seq<char>>, FileInfoV)>, i: int) -> Option<
    usize,
> {
    if spec_hardlinked(fm, i) && first_link_idx(fm, fm[i].1.ino, i) >= 0 {
        Option::Some(first_link_idx(fm, fm[i].1.ino, i) as usize)
    } else {
        Option::None
    }
}

/// The hardlink emission plan for one layer's files, in map order: a
/// hardlinked regular file whose inode already appeared is emitted as a
/// link to the first such entry; everything else is emitted in full.
/// Within one layer this reproduces hardlinks; across layers tar cannot
/// express them, so each layer gets full copies.
pub fn hardlink_plan(files: &FileMap) -> (r: Vec<Option<usize>>)
    ensures
        r@.len() == files@.len(),
        forall|i: int| 0 <= i < r@.len() ==> r@[i] == spec_hardlink_target(files@, i),
{
    let ghost fm = files@;
    let n = files.len();
    let mut out: Vec<Option<usize>> = Vec::new();
    let mut i: usize = 0;
    while i < n
        invariant
            i <= n,
            n == fm.len(),
            fm == files@,
            out@.len() == i,
            forall|p: int| 0 <= p < i ==> out@[p] == spec_hardlink_target(fm, p),
        decreases n - i,
    {
        let info = files.info_at(i);
        let plan: Option<usize>;
        if matches!(info.file_type, FileType::File) && info.nlink > 1 {
            let ino = info.ino;
            let mut j: usize = 0;
            let mut found = false;
            loop
                invariant
                    j <= i < n,
                    n == fm.len(),
                    fm == files@,
                    !found ==> forall|q: int|
                        0 <= q < j ==> !(spec_hardlinked(fm, q) && fm[q].1.ino == ino),
                    found ==> j < i && spec_hardlinked(fm, j as int) && fm[j as int].1.ino == ino
                        && forall|q: int|
                        0 <= q < j ==> !(spec_hardlinked(fm, q) && fm[q].1.ino == ino),
                ensures
                    fm == files@,
                    j <= i,
                    found ==> first_link_idx(fm, ino, i as int) == j,
                    !found ==> first_link_idx(fm, ino, i as int) == -1,
                decreases i - j + if found {
                    0int
                } else {
                    1int
                },
            {
                if found {
                    proof {
                        lemma_first_link_at(fm, ino, i as int, j as int);
                    }
                    break;
                }
                if j >= i {
                    proof {
                        lemma_first_link_none(fm, ino, i as int);
                    }
                    break;
                }
                let jinfo = files.info_at(j);
                if matches!(jinfo.file_type, FileType::File) && jinfo.nlink > 1 && jinfo.ino
                    == ino {
                    found = true;
                } else {
                    proof {
                        assert(!(spec_hardlinked(fm, j as int) && fm[j as int].1.ino == ino));
                    }
                    j = j + 1;
                }
            }
            if found {
                plan = Option::Some(j);
            } else {
                plan = Option::None;
            }
        } else {
            plan = Option::None;
            proof {
                assert(!spec_hardlinked(fm, i as int));
            }
        }
        out.push(plan);
        i = i + 1;
    }
    out
}

/// `spec_get` over a raw view.
pub open spec fn spec_contains_of(v: Seq<(Seq<Seq<char>>, FileInfoV)>, k: Seq<Seq<char>>) -> bool {
    exists|i: int| 0 <= i < v.len() && v[i].0 == k
}

/// `spec_get` over a raw view.
pub open spec fn spec_get_of(
    v: Seq<(Seq<Seq<char>>, FileInfoV)>,
    k: Seq<Seq<char>>,
) -> Option<FileInfoV> {
    if spec_contains_of(v, k) {
        let i = choose|i: int| 0 <= i < v.len() && v[i].0 == k;
        Option::Some(v[i].1)
    } else {
        Option::None
    }
}

} // verus!
