//! The scanner's pure half: turn raw directory-walk records into the
//! ordered file inventory, applying the prune list, dropping SELinux
//! attributes, and rejecting or skipping special files.
//!
//! The walk itself (directory enumeration, `lstat`, xattr reads) happens
//! outside; it hands in one record per visited path.

use vstd::prelude::*;

use crate::filemap::{clone_path, FileInfo, FileInfoV, FileMap, FileType, SymlinkTarget};
use crate::pathutil::{path_is_prefix, path_prefix};
use crate::strutil::str_eq;

verus! {

/// What the walk reports for a path's kind; anything beyond the three
/// supported kinds (sockets, FIFOs, devices) is `Special`.
#[derive(Debug, Clone, Copy, PartialEq, Eq, Structural)]
pub enum RawFileType {
    Directory,
    File,
    Symlink,
    Special,
}

/// One raw record from the directory walk.
#[derive(Debug)]
pub struct ScanEntry {
    /// Absolute path, as segments; the root is the empty path.
    pub path: Vec<String>,
    pub file_type: RawFileType,
    pub size: u64,
    pub mtime: u64,
    pub mode: u32,
    pub uid: u32,
    pub gid: u32,
    pub ino: u64,
    pub nlink: u64,
    pub target: Option<SymlinkTarget>,
    pub xattrs: Vec<(String, Vec<u8>)>,
}

/// Mathematical value of a [`ScanEntry`].
pub ghost struct ScanEntryV {
    pub path: Seq<Seq<char>>,
    pub file_type: RawFileType,
    pub size: u64,
    pub mtime: u64,
    pub mode: u32,
    pub uid: u32,
    pub gid: u32,
    pub ino: u64,
    pub nlink: u64,
    pub target: Option<(bool, Seq<Seq<char>>)>,
    pub xattrs: Seq<(Seq<char>, Seq<u8>)>,
}

impl View for ScanEntry {
    type V = ScanEntryV;

    open spec fn view(&self) -> ScanEntryV {
        ScanEntryV {
            path: self.path.deep_view(),
            file_type: self.file_type,
            size: self.size,
            mtime: self.mtime,
            mode: self.mode,
            uid: self.uid,
            gid: self.gid,
            ino: self.ino,
            nlink: self.nlink,
            target: match self.target {
                Option::None => Option::None,
                Option::Some(t) => Option::Some((t.absolute, t.segments.deep_view())),
            },
            xattrs: self.xattrs.deep_view(),
        }
    }
}

impl DeepView for ScanEntry {
    type V = ScanEntryV;

    open spec fn deep_view(&self) -> ScanEntryV {
        self@
    }
}

/// An unsupported (special) file was encountered and skipping is off.
#[derive(Debug)]
pub struct ScanError {
    /// The offending path.
    pub path: Vec<String>,
}

/// Whether the prune list excludes `p`: an entry with `contents_only`
/// (a trailing slash) excludes strictly deeper paths; one without
/// excludes the entry itself and its subtree.
pub open spec fn spec_pruned(prune: Seq<(Seq<Seq<char>>, bool)>, p: Seq<Seq<char>>) -> bool {
    exists|i: int|
        0 <= i < prune.len() && path_prefix((#[trigger] prune[i]).0, p) && (prune[i].1 ==> p.len()
            > prune[i].0.len())
}

/// The supported file kind a raw kind maps to (`Special` never reaches
/// the inventory).
pub open spec fn spec_raw_to_ft(t: RawFileType) -> FileType {
    match t {
        RawFileType::Directory => FileType::Directory,
        RawFileType::File => FileType::File,
        RawFileType::Symlink => FileType::Symlink,
        RawFileType::Special => FileType::File,
    }
}

/// The xattr pairs with the SELinux label dropped.
pub open spec fn spec_keep_xattrs(xs: Seq<(Seq<char>, Seq<u8>)>) -> Seq<(Seq<char>, Seq<u8>)>
    decreases xs.len(),
{
    if xs.len() == 0 {
        Seq::empty()
    } else {
        let rest = spec_keep_xattrs(xs.drop_first());
        if xs.first().0 == "security.selinux"@ {
            rest
        } else {
            seq![xs.first()] + rest
        }
    }
}

/// The inventory record a raw walk record becomes.
pub open spec fn spec_scan_info(e: ScanEntryV) -> FileInfoV {
    FileInfoV {
        file_type: spec_raw_to_ft(e.file_type),
        size: e.size,
        mtime: e.mtime,
        mode: e.mode,
        uid: e.uid,
        gid: e.gid,
        ino: e.ino,
        nlink: e.nlink,
        target: e.target,
        xattrs: spec_keep_xattrs(e.xattrs),
    }
}

/// Whether the walk record at `i` is emitted into the inventory.
pub open spec fn spec_emitted(
    entries: Seq<ScanEntryV>,
    skip_special_files: bool,
    prune: Seq<(Seq<Seq<char>>, bool)>,
    i: int,
) -> bool {
    &&& 0 <= i < entries.len()
    &&& entries[i].path.len() > 0
    &&& !spec_pruned(prune, entries[i].path)
    &&& !(entries[i].file_type is Special)
}

/// Build the ordered file inventory from raw walk records.
///
/// The root itself is not emitted; pruned paths are dropped; the
/// SELinux xattr is dropped from every record; special files are
/// silently skipped when `skip_special_files` is set and fatal (with
/// the offending path) otherwise. The result maps exactly the emitted
/// paths, each to its record's data.
pub fn build_file_map(
    entries: &Vec<ScanEntry>,
    skip_special_files: bool,
    prune: &Vec<(Vec<String>, bool)>,
) -> (r: Result<FileMap, ScanError>)
    ensures
        match r {
            Result::Ok(fm) => {
                &&& fm.wf()
                &&& forall|j: int| 0 <= j < fm@.len() ==> (#[trigger] fm@[j]).0.len() > 0
                &&& !skip_special_files ==> forall|i: int|
                    0 <= i < entries.deep_view().len() && (#[trigger] entries.deep_view()[
                    i]).path.len() > 0 && !spec_pruned(prune.deep_view(), entries.deep_view()[
                    i].path) ==> !(entries.deep_view()[i].file_type is Special)
                &&& forall|k: Seq<Seq<char>>|
                    #[trigger] fm.spec_contains(k) <==> exists|i: int|
                        spec_emitted(entries.deep_view(), skip_special_files, prune.deep_view(), i)
                            && (#[trigger] entries.deep_view()[i]).path == k
                &&& forall|k: Seq<Seq<char>>|
                    #[trigger] fm.spec_contains(k) ==> exists|i: int|
                        spec_emitted(entries.deep_view(), skip_special_files, prune.deep_view(), i)
                            && (#[trigger] entries.deep_view()[i]).path == k && fm.spec_get(k)
                            == Option::Some(spec_scan_info(entries.deep_view()[i]))
            },
            Result::Err(e) => {
                &&& !skip_special_files
                &&& exists|i: int|
                    0 <= i < entries.deep_view().len() && (#[trigger] entries.deep_view()[
                    i]).file_type is Special && entries.deep_view()[i].path.len() > 0
                        && !spec_pruned(prune.deep_view(), entries.deep_view()[i].path)
                        && e.path.deep_view() == entries.deep_view()[i].path
            },
        },
{
    let ghost ev = entries.deep_view();
    let ghost pv = prune.deep_view();
    let mut fm = FileMap::new();
    let mut i: usize = 0;
    while i < entries.len()
        invariant
            i <= ev.len(),
            ev == entries.deep_view(),
            pv == prune.deep_view(),
            fm.wf(),
            forall|j: int| 0 <= j < fm@.len() ==> (#[trigger] fm@[j]).0.len() > 0,
            !skip_special_files ==> forall|p: int|
                0 <= p < i && (#[trigger] ev[p]).path.len() > 0 && !spec_pruned(pv, ev[p].path)
                    ==> !(ev[p].file_type is Special),
            forall|k: Seq<Seq<char>>|
                #[trigger] fm.spec_contains(k) <==> exists|p: int|
                    p < i && spec_emitted(ev, skip_special_files, pv, p) && (#[trigger] ev[
                    p]).path == k,
            forall|k: Seq<Seq<char>>|
                #[trigger] fm.spec_contains(k) ==> exists|p: int|
                    p < i && spec_emitted(ev, skip_special_files, pv, p) && (#[trigger] ev[
                    p]).path == k && fm.spec_get(k) == Option::Some(spec_scan_info(ev[p])),
        decreases ev.len() - i,
    {
        let e = &entries[i];
        proof {
            assert(e@ == ev[i as int]);
        }
        // The root itself is not part of the inventory.
        if e.path.len() == 0 {
            proof {
                assert(!spec_emitted(ev, skip_special_files, pv, i as int));
            }
            i = i + 1;
            continue ;
        }
        // Prune list.
        let mut pruned = false;
        let mut pi: usize = 0;
        while pi < prune.len()
            invariant
                pi <= pv.len(),
                pv == prune.deep_view(),
                e == &entries[i as int],
                0 <= i < entries@.len(),
                ev == entries.deep_view(),
                !pruned ==> forall|q: int|
                    0 <= q < pi ==> !(path_prefix((#[trigger] pv[q]).0, ev[i as int].path) && (
                    pv[q].1 ==> ev[i as int].path.len() > pv[q].0.len())),
                pruned ==> spec_pruned(pv, ev[i as int].path),
            decreases pv.len() - pi,
        {
            proof {
                assert(pv[pi as int].0 == prune@[pi as int].0.deep_view());
                assert(pv[pi as int].1 == prune@[pi as int].1);
            }
            if path_is_prefix(&prune[pi].0, &e.path) {
                if !prune[pi].1 || e.path.len() > prune[pi].0.len() {
                    pruned = true;
                }
            }
            pi = pi + 1;
        }
        if pruned {
            proof {
                assert(!spec_emitted(ev, skip_special_files, pv, i as int));
            }
            i = i + 1;
            continue ;
        }
        proof {
            assert(!spec_pruned(pv, ev[i as int].path));
        }
        // Special files are skipped or fatal.
        if matches!(e.file_type, RawFileType::Special) {
            if skip_special_files {
                proof {
                    assert(!spec_emitted(ev, skip_special_files, pv, i as int));
                }
                i = i + 1;
                continue ;
            }
            return Result::Err(ScanError { path: clone_path(&e.path) });
        }
        // Convert and insert.
        let ft = match e.file_type {
            RawFileType::Directory => FileType::Directory,
            RawFileType::File => FileType::File,
            RawFileType::Symlink => FileType::Symlink,
            RawFileType::Special => FileType::File,
        };
        let target = match &e.target {
            Option::None => Option::None,
            Option::Some(t) => Option::Some(
                SymlinkTarget { absolute: t.absolute, segments: clone_path(&t.segments) },
            ),
        };
        let xattrs = filter_xattrs(&e.xattrs);
        let info = FileInfo {
            file_type: ft,
            size: e.size,
            mtime: e.mtime,
            mode: e.mode,
            uid: e.uid,
            gid: e.gid,
            ino: e.ino,
            nlink: e.nlink,
            target,
            xattrs,
        };
        proof {
            assert(info@.target == ev[i as int].target) by {
                if e.target is Some {
                    let t1 = info@.target->Some_0;
                    let t2 = ev[i as int].target->Some_0;
                    assert(t1.1 =~= t2.1);
                }
            }
            assert(info@ == spec_scan_info(ev[i as int]));
        }
        let key = clone_path(&e.path);
        let ghost pre = fm;
        fm.insert(key, info);
        proof {
            assert(fm.spec_contains(ev[i as int].path));
            assert forall|j: int| 0 <= j < fm@.len() implies (#[trigger] fm@[j]).0.len() > 0 by {
                fm.lemma_get_at(j);
                if fm@[j].0 != ev[i as int].path {
                    assert(fm.spec_get(fm@[j].0) == pre.spec_get(fm@[j].0));
                    assert(pre.spec_contains(fm@[j].0));
                    let w = choose|w: int| 0 <= w < pre@.len() && pre@[w].0 == fm@[j].0;
                    assert(pre@[w].0.len() > 0);
                }
            }
            assert forall|k: Seq<Seq<char>>| #[trigger] fm.spec_contains(k) implies exists|p: int|
                p < i + 1 && spec_emitted(ev, skip_special_files, pv, p) && (#[trigger] ev[
            p]).path == k && fm.spec_get(k) == Option::Some(spec_scan_info(ev[p])) by {
                if k == ev[i as int].path {
                    assert(spec_emitted(ev, skip_special_files, pv, i as int));
                    assert(fm.spec_get(k) == Option::Some(spec_scan_info(ev[i as int])));
                } else {
                    assert(fm.spec_get(k) == pre.spec_get(k));
                    assert(pre.spec_contains(k));
                }
            }
            assert forall|k: Seq<Seq<char>>| #[trigger] fm.spec_contains(k) implies exists|p: int|
                p < i + 1 && spec_emitted(ev, skip_special_files, pv, p) && (#[trigger] ev[
            p]).path == k by {}
            assert forall|k: Seq<Seq<char>>|
                (exists|p: int|
                    p < i + 1 && spec_emitted(ev, skip_special_files, pv, p) && (#[trigger] ev[
                    p]).path == k) implies #[trigger] fm.spec_contains(k) by {
                if k != ev[i as int].path {
                    assert(fm.spec_get(k) == pre.spec_get(k));
                    let p = choose|p: int|
                        p < i + 1 && spec_emitted(ev, skip_special_files, pv, p) && (#[trigger] ev[
                        p]).path == k;
                    assert(p < i);
                    assert(pre.spec_contains(k));
                }
            }
        }
        i = i + 1;
    }
    proof {
        assert forall|k: Seq<Seq<char>>| #[trigger] fm.spec_contains(k) implies exists|p: int|
            spec_emitted(ev, skip_special_files, pv, p) && (#[trigger] ev[p]).path == k by {}
        assert forall|k: Seq<Seq<char>>|
            (exists|p: int|
                spec_emitted(ev, skip_special_files, pv, p) && (#[trigger] ev[p]).path
                    == k) implies #[trigger] fm.spec_contains(k) by {
            let p = choose|p: int|
                spec_emitted(ev, skip_special_files, pv, p) && (#[trigger] ev[p]).path == k;
            assert(p < i);
        }
    }
    Result::Ok(fm)
}

/// Copy the xattr list with the SELinux label removed.
fn filter_xattrs(xs: &Vec<(String, Vec<u8>)>) -> (r: Vec<(String, Vec<u8>)>)
    ensures
        r.deep_view() == spec_keep_xattrs(xs.deep_view()),
{
    let ghost xv = xs.deep_view();
    let mut out: Vec<(String, Vec<u8>)> = Vec::new();
    proof {
        assert(xv.skip(0) =~= xv);
        assert(out.deep_view() + spec_keep_xattrs(xv) =~= spec_keep_xattrs(xv));
    }
    let mut i: usize = 0;
    while i < xs.len()
        invariant
            i <= xv.len(),
            xv == xs.deep_view(),
            spec_keep_xattrs(xv) =~= out.deep_view() + spec_keep_xattrs(xv.skip(i as int)),
        decreases xv.len() - i,
    {
        let ghost pre = out.deep_view();
        proof {
            let tail = xv.skip(i as int);
            assert(tail.first() == xv[i as int]);
            assert(tail.drop_first() =~= xv.skip(i + 1));
            assert(xs@[i as int].0@ == xv[i as int].0);
        }
        let (k, v) = &xs[i];
        if !str_eq(k.as_str(), "security.selinux") {
            let kc = k.clone();
            let vc = clone_bytes_vec(v);
            proof {
                assert((kc, vc).deep_view() =~= xv[i as int]);
            }
            out.push((kc, vc));
            proof {
                let rest = spec_keep_xattrs(xv.skip(i + 1));
                assert(pre + (seq![xv[i as int]] + rest) =~= (pre + seq![xv[i as int]]) + rest);
                assert(out.deep_view() =~= pre + seq![xv[i as int]]);
            }
        }
        i = i + 1;
    }
    proof {
        assert(xv.skip(xv.len() as int) =~= Seq::<(Seq<char>, Seq<u8>)>::empty());
        assert(out.deep_view() + spec_keep_xattrs(xv.skip(xv.len() as int)) =~= out.deep_view());
    }
    out
}

fn clone_bytes_vec(b: &Vec<u8>) -> (r: Vec<u8>)
    ensures
        r@ == b@,
{
    let mut out: Vec<u8> = Vec::new();
    let mut i: usize = 0;
    while i < b.len()
        invariant
            i <= b@.len(),
            out@ =~= b@.subrange(0, i as int),
        decreases b@.len() - i,
    {
        out.push(b[i]);
        proof {
            assert(out@ =~= b@.subrange(0, i + 1));
        }
        i = i + 1;
    }
    proof {
        assert(out@ =~= b@);
    }
    out
}

} // verus!
