use chunkah::cmd_build::{pack_components, PackComponentsError};
use chunkah::components::alpm_repo::AlpmComponentsRepo;
use chunkah::components::bigfiles::BigfilesRepo;
use chunkah::components::rpm::{canonicalize_package_paths, RpmPackage, RpmRepo};
use chunkah::components::{into_components, Component};
use chunkah::filemap::{hardlink_plan, FileInfo, FileMap, FileType, SymlinkTarget};
use chunkah::pathutil::{normalize_path, path_to_string, split_segments};
use chunkah::scan::{build_file_map, RawFileType, ScanEntry};
use chunkah::utils::{canonicalize_dir_path, canonicalize_parent_path};

fn p(s: &str) -> Vec<String> {
    split_segments(s)
}

fn fi(ft: FileType, size: u64, ino: u64, nlink: u64) -> FileInfo {
    FileInfo {
        file_type: ft,
        size,
        mtime: 100,
        mode: 0o644,
        uid: 0,
        gid: 0,
        ino,
        nlink,
        target: None,
        xattrs: Vec::new(),
    }
}

fn symlink(target: &str, ino: u64) -> FileInfo {
    let absolute = target.starts_with('/');
    FileInfo {
        file_type: FileType::Symlink,
        size: 0,
        mtime: 100,
        mode: 0o777,
        uid: 0,
        gid: 0,
        ino,
        nlink: 1,
        target: Some(SymlinkTarget {
            absolute,
            segments: split_segments(target),
        }),
        xattrs: Vec::new(),
    }
}

fn entry(path: &str, ft: RawFileType, size: u64, ino: u64, nlink: u64) -> ScanEntry {
    ScanEntry {
        path: p(path),
        file_type: ft,
        size,
        mtime: 100,
        mode: 0o644,
        uid: 0,
        gid: 0,
        ino,
        nlink,
        target: None,
        xattrs: Vec::new(),
    }
}

#[test]
fn test_normalize_path() {
    let cases = [
        ("/", "/"),
        ("/a/..", "/"),
        ("/a/b/../c", "/a/c"),
        ("/a/./b/c", "/a/b/c"),
        ("/a/b/c/..", "/a/b"),
    ];
    for (input, expected) in cases {
        assert_eq!(
            path_to_string(&normalize_path(&p(input))),
            expected,
            "normalize_path({input})"
        );
    }
}

fn symlink_fixture() -> FileMap {
    let mut files = FileMap::new();
    files.insert(p("/usr"), fi(FileType::Directory, 0, 1, 1));
    files.insert(p("/usr/lib"), fi(FileType::Directory, 0, 2, 1));
    files.insert(p("/usr/lib/modules"), fi(FileType::Directory, 0, 3, 1));
    files.insert(p("/usr/bar"), fi(FileType::Directory, 0, 4, 1));
    files.insert(p("/lib"), symlink("usr/lib", 5));
    files.insert(p("/foo"), symlink(".././../bar", 6));
    files.insert(p("/bar"), symlink("usr/bar", 7));
    files
}

#[test]
fn test_canonicalize_path() {
    let files = symlink_fixture();

    let dir_cases = [
        // No symlinks
        ("/usr/lib/modules", "/usr/lib/modules"),
        // Single symlink: /lib -> usr/lib
        ("/lib", "/usr/lib"),
        ("/lib/modules", "/usr/lib/modules"),
        // Symlink chain: /foo -> bar -> usr/bar
        ("/foo", "/usr/bar"),
        // Nonexistent path returns as-is
        ("/nonexistent/path", "/nonexistent/path"),
    ];
    for (input, expected) in dir_cases {
        let result = canonicalize_dir_path(&files, &p(input), 0).unwrap();
        assert_eq!(path_to_string(&result), expected, "dir path {input}");
    }

    // Parent canonicalization resolves directory symlinks but keeps the
    // final component verbatim.
    let parent_cases = [
        ("/lib/modules/vmlinuz", "/usr/lib/modules/vmlinuz"),
        ("/foo/baz", "/usr/bar/baz"),
    ];
    for (input, expected) in parent_cases {
        let result = canonicalize_parent_path(&files, &p(input)).unwrap();
        assert_eq!(path_to_string(&result), expected, "parent path {input}");
    }
}

#[test]
fn test_canonicalize_depth_cap() {
    // A chain of 42 symlinks exceeds the depth cap and is rejected.
    let mut files = FileMap::new();
    for i in 0..42u64 {
        let name = format!("/s{}", i);
        let target = format!("s{}", i + 1);
        files.insert(p(&name), symlink(&target, 100 + i));
    }
    assert!(canonicalize_dir_path(&files, &p("/s0"), 0).is_err());

    // A short chain is fine.
    let mut ok = FileMap::new();
    ok.insert(p("/a"), symlink("b", 1));
    ok.insert(p("/b"), fi(FileType::Directory, 0, 2, 1));
    let r = canonicalize_dir_path(&ok, &p("/a"), 0).unwrap();
    assert_eq!(path_to_string(&r), "/b");
}

#[test]
fn test_scan_rootfs_does_not_follow_symlinks() {
    let mut entries = Vec::new();
    entries.push(entry("/realdir", RawFileType::Directory, 0, 1, 1));
    entries.push(entry("/realdir/file.txt", RawFileType::File, 7, 2, 1));
    let mut link = entry("/linkdir", RawFileType::Symlink, 0, 3, 1);
    link.target = Some(SymlinkTarget {
        absolute: false,
        segments: p("realdir"),
    });
    entries.push(link);
    let mut broken = entry("/broken", RawFileType::Symlink, 0, 4, 1);
    broken.target = Some(SymlinkTarget {
        absolute: false,
        segments: p("enoent"),
    });
    entries.push(broken);
    let mut escape = entry("/escape", RawFileType::Symlink, 0, 5, 1);
    escape.target = Some(SymlinkTarget {
        absolute: false,
        segments: split_segments("../../../etc/passwd"),
    });
    entries.push(escape);

    let files = build_file_map(&entries, false, &Vec::new()).unwrap();

    let ft = |path: &str| files.get(&p(path)).map(|f| f.file_type);
    assert_eq!(ft("/realdir"), Some(FileType::Directory));
    assert_eq!(ft("/realdir/file.txt"), Some(FileType::File));
    assert_eq!(ft("/linkdir"), Some(FileType::Symlink));
    assert_eq!(ft("/broken"), Some(FileType::Symlink));
    assert_eq!(ft("/escape"), Some(FileType::Symlink));
}

#[test]
fn test_scan_rootfs_empty() {
    // Even the root directory is not included.
    let entries = vec![entry("/", RawFileType::Directory, 0, 1, 1)];
    let files = build_file_map(&entries, false, &Vec::new()).unwrap();
    assert_eq!(files.len(), 0);
}

#[test]
fn test_scan_rootfs_nested_structure() {
    let entries = vec![
        entry("/a", RawFileType::Directory, 0, 1, 1),
        entry("/a/b", RawFileType::Directory, 0, 2, 1),
        entry("/a/b/c", RawFileType::Directory, 0, 3, 1),
        entry("/a/b/c/file", RawFileType::File, 7, 4, 1),
    ];
    let files = build_file_map(&entries, false, &Vec::new()).unwrap();

    let ft = |path: &str| files.get(&p(path)).map(|f| f.file_type);
    assert_eq!(ft("/a"), Some(FileType::Directory));
    assert_eq!(ft("/a/b"), Some(FileType::Directory));
    assert_eq!(ft("/a/b/c"), Some(FileType::Directory));
    assert_eq!(ft("/a/b/c/file"), Some(FileType::File));
}

#[test]
fn test_scan_rootfs_special_file_type() {
    let entries = vec![
        entry("/regular.txt", RawFileType::File, 7, 1, 1),
        entry("/test.sock", RawFileType::Special, 0, 2, 1),
    ];

    // By default, special file types are an error naming the path.
    let err = build_file_map(&entries, false, &Vec::new()).unwrap_err();
    assert_eq!(path_to_string(&err.path), "/test.sock");

    // With skipping on, the socket is simply absent.
    let files = build_file_map(&entries, true, &Vec::new()).unwrap();
    assert!(files.get(&p("/regular.txt")).is_some());
    assert!(files.get(&p("/test.sock")).is_none());
}

#[test]
fn test_scan_prune_and_selinux() {
    let mut labelled = entry("/etc/passwd", RawFileType::File, 5, 3, 1);
    labelled.xattrs = vec![
        ("security.selinux".to_string(), b"label".to_vec()),
        ("user.x".to_string(), b"y".to_vec()),
    ];
    let entries = vec![
        entry("/etc", RawFileType::Directory, 0, 1, 1),
        entry("/var", RawFileType::Directory, 0, 2, 1),
        labelled,
        entry("/var/cache", RawFileType::Directory, 0, 4, 1),
    ];

    // Pruning /var without a trailing slash drops the entry and subtree;
    // with one, only the contents.
    let prune_subtree = vec![(p("/var"), false)];
    let files = build_file_map(&entries, false, &prune_subtree).unwrap();
    assert!(files.get(&p("/var")).is_none());
    assert!(files.get(&p("/var/cache")).is_none());
    assert!(files.get(&p("/etc")).is_some());

    let prune_contents = vec![(p("/var"), true)];
    let files = build_file_map(&entries, false, &prune_contents).unwrap();
    assert!(files.get(&p("/var")).is_some());
    assert!(files.get(&p("/var/cache")).is_none());

    // The SELinux label disappears; other xattrs stay.
    let info = files.get(&p("/etc/passwd")).unwrap();
    assert_eq!(info.xattrs.len(), 1);
    assert_eq!(info.xattrs[0].0, "user.x");
}

#[test]
fn test_bigfiles_claims_large_files() {
    let mib = 1024 * 1024;
    let mut files = FileMap::new();
    files.insert(p("/usr/bin"), fi(FileType::Directory, 0, 1, 1));
    files.insert(p("/usr/bin/small"), fi(FileType::File, 1, 2, 1));
    files.insert(p("/usr/lib/modules"), fi(FileType::Directory, 0, 3, 1));
    files.insert(
        p("/usr/lib/modules/initramfs.img"),
        fi(FileType::File, 118 * mib, 4, 1),
    );
    files.insert(
        p("/usr/lib/sysimage/rpm-ostree-base-db/rpmdb.sqlite"),
        fi(FileType::File, 26 * mib, 5, 2),
    );
    files.insert(
        p("/usr/share/rpm/rpmdb.sqlite"),
        fi(FileType::File, 26 * mib, 5, 2),
    );

    let repo = BigfilesRepo::load(&files, 12345).unwrap();

    // small file should not be claimed
    assert!(repo.claims_for_path(&p("/usr/bin/small")).is_none());

    // large files should be claimed with their filename
    let id = repo
        .claims_for_path(&p("/usr/lib/modules/initramfs.img"))
        .unwrap();
    assert_eq!(repo.component_info(id).0, "initramfs.img");
    assert_eq!(repo.component_info(id).1, 12345);

    // hardlinked files should be claimed by the same component
    let a = repo
        .claims_for_path(&p("/usr/lib/sysimage/rpm-ostree-base-db/rpmdb.sqlite"))
        .unwrap();
    let b = repo.claims_for_path(&p("/usr/share/rpm/rpmdb.sqlite")).unwrap();
    assert_eq!(a, b);
    assert_eq!(repo.component_info(a).0, "rpmdb.sqlite");

    // there should be exactly 2 components
    assert_eq!(repo.component_count(), 2);
}

#[test]
fn test_bigfiles_duplicate_filenames() {
    let mib = 1024 * 1024;
    let mut files = FileMap::new();
    files.insert(p("/a"), fi(FileType::Directory, 0, 1, 1));
    files.insert(p("/a/foobar"), fi(FileType::File, 4 * mib, 2, 1));
    files.insert(p("/b"), fi(FileType::Directory, 0, 3, 1));
    files.insert(p("/b/foobar"), fi(FileType::File, 4 * mib, 4, 1));

    let repo = BigfilesRepo::load(&files, 0).unwrap();

    // First one uses filename, second uses full path
    let a = repo.claims_for_path(&p("/a/foobar")).unwrap();
    assert_eq!(repo.component_info(a).0, "foobar");
    let b = repo.claims_for_path(&p("/b/foobar")).unwrap();
    assert_eq!(repo.component_info(b).0, "b/foobar");
}

fn rpm_fixture() -> Vec<RpmPackage> {
    vec![
        RpmPackage {
            name: "bash".to_string(),
            sourcerpm: Some("bash-5.2.15-5.fc40.src.rpm".to_string()),
            buildtime: 1753299195,
            changelog_times: vec![1753299195],
            files: vec![
                (p("/usr/bin/bash"), 0o100755),
                (p("/usr/bin/sh"), 0o120777),
                (p("/usr/lib/.build-id"), 0o040755),
            ],
        },
        RpmPackage {
            name: "glibc".to_string(),
            sourcerpm: Some("glibc-2.39-5.fc40.src.rpm".to_string()),
            buildtime: 1765791404,
            changelog_times: vec![1765791404],
            files: vec![
                (p("/usr/lib64/libc.so.6"), 0o100755),
                (p("/usr/lib/.build-id"), 0o040755),
            ],
        },
        RpmPackage {
            name: "coreutils".to_string(),
            sourcerpm: Some("coreutils-9.4-1.fc40.src.rpm".to_string()),
            buildtime: 1700000000,
            changelog_times: vec![1700000000],
            files: vec![
                (p("/usr/bin/ls"), 0o100755),
                (p("/usr/lib/.build-id"), 0o040755),
            ],
        },
    ]
}

#[test]
fn test_claims_for_path() {
    let now: u64 = 2_000_000_000;
    let repo = RpmRepo::load_from_packages(rpm_fixture(), now);

    // /usr/bin/bash is a file owned by bash
    let claims = repo.claims_for_path(&p("/usr/bin/bash"), FileType::File);
    assert_eq!(claims.len(), 1);
    let info = repo.component_info(claims[0]);
    assert_eq!(info.0, "bash");
    assert_eq!(info.1, 1753299195);

    // /usr/bin/sh is a symlink owned by bash
    let claims = repo.claims_for_path(&p("/usr/bin/sh"), FileType::Symlink);
    assert_eq!(claims.len(), 1);
    assert_eq!(repo.component_info(claims[0]).0, "bash");

    // /usr/lib64/libc.so.6 is a file owned by glibc
    let claims = repo.claims_for_path(&p("/usr/lib64/libc.so.6"), FileType::File);
    assert_eq!(claims.len(), 1);
    let info = repo.component_info(claims[0]);
    assert_eq!(info.0, "glibc");
    assert_eq!(info.1, 1765791404);

    // Unowned file should not be claimed
    let claims = repo.claims_for_path(&p("/some/unowned/file"), FileType::File);
    assert!(claims.is_empty());

    // RPMDB paths should not be claimed even if technically owned
    for rpmdb_path in [
        "/usr/lib/sysimage/rpm/rpmdb.sqlite",
        "/usr/share/rpm/macros",
        "/var/lib/rpm/Packages",
    ] {
        let claims = repo.claims_for_path(&p(rpmdb_path), FileType::File);
        assert!(
            claims.is_empty(),
            "RPMDB path {} should not be claimed",
            rpmdb_path
        );
    }
}

#[test]
fn test_claims_for_path_wrong_type() {
    let now: u64 = 2_000_000_000;
    let repo = RpmRepo::load_from_packages(rpm_fixture(), now);

    // /usr/bin/bash is a file in RPM, but we query as symlink
    let claims = repo.claims_for_path(&p("/usr/bin/bash"), FileType::Symlink);
    assert!(claims.is_empty());

    // /usr/bin/sh is a symlink in RPM, but we query as file
    let claims = repo.claims_for_path(&p("/usr/bin/sh"), FileType::File);
    assert!(claims.is_empty());
}

#[test]
fn test_shared_directories_claimed_by_multiple_components() {
    let now: u64 = 2_000_000_000;
    let repo = RpmRepo::load_from_packages(rpm_fixture(), now);

    let claims = repo.claims_for_path(&p("/usr/lib/.build-id"), FileType::Directory);
    assert!(
        claims.len() >= 2,
        "shared dir should be claimed by multiple components"
    );
    let names: Vec<&str> = claims
        .iter()
        .map(|&id| repo.component_info(id).0.as_str())
        .collect();
    for pkg in ["bash", "glibc", "coreutils"] {
        assert!(names.contains(&pkg), "{pkg} should claim /usr/lib/.build-id");
    }
}

#[test]
fn test_rpm_canonicalizes_against_symlinks() {
    // An RPM that lists /lib/modules/vmlinuz when /lib -> usr/lib.
    let files = symlink_fixture();
    let packages = vec![RpmPackage {
        name: "kernel".to_string(),
        sourcerpm: Some("kernel-6.1-1.fc40.src.rpm".to_string()),
        buildtime: 1700000000,
        changelog_times: vec![],
        files: vec![(p("/lib/modules/vmlinuz"), 0o100644)],
    }];
    let canonical = canonicalize_package_paths(&files, packages).unwrap();
    assert_eq!(
        path_to_string(&canonical[0].files[0].0),
        "/usr/lib/modules/vmlinuz"
    );
}

#[test]
fn claims_correct_files() {
    // Two packages, both claiming /usr; /etc/fstab belongs to one.
    let filesystem_desc = "%NAME%\nfilesystem\n\n%BASE%\nfilesystem\n\n%BUILDDATE%\n1760286101\n".to_string();
    let filesystem_files = "%FILES%\netc/\netc/fstab\nusr/\n".to_string();
    let iana_desc = "%NAME%\niana-etc\n\n%BASE%\niana-etc\n\n%BUILDDATE%\n1760286000\n".to_string();
    let iana_files = "%FILES%\nusr/\nusr/share/\n".to_string();

    let packages = vec![
        (filesystem_desc, filesystem_files),
        (iana_desc, iana_files),
    ];
    let image_files = FileMap::new();
    let now: u64 = 2_000_000_000;
    let alpm = AlpmComponentsRepo::load_from_db(&packages, &image_files, now).unwrap();

    let claims = alpm.claims_for_path(&p("/usr"));
    assert_eq!(claims.len(), 2);
    let mut names: Vec<&str> = claims
        .iter()
        .map(|&id| alpm.component_info(id).0.as_str())
        .collect();
    names.sort();
    assert_eq!(names, vec!["filesystem", "iana-etc"]);

    let claims = alpm.claims_for_path(&p("/etc/fstab"));
    assert_eq!(claims.len(), 1);
    assert_eq!(alpm.component_info(claims[0]).0, "filesystem");
}

#[test]
fn test_assembly_and_packing() {
    // Two big files, one unclaimed small file; pack to two layers.
    let mib = 1024 * 1024;
    let mut files = FileMap::new();
    let mut old = fi(FileType::File, 2 * mib, 1, 1);
    old.mtime = 99999;
    files.insert(p("/big/one"), old);
    files.insert(p("/big/two"), fi(FileType::File, 3 * mib, 2, 1));
    files.insert(p("/small"), fi(FileType::File, 10, 3, 1));

    let big = BigfilesRepo::load(&files, 500);
    assert!(big.is_some());

    let components = into_components(&files, &None, &None, &big, 500).unwrap();
    // Components: one, two, unclaimed.
    assert_eq!(components.len(), 3);

    // Every emitted mtime respects the component clamp (500 here).
    for (_, comp) in &components {
        for i in 0..comp.files.len() {
            assert!(comp.files.info_at(i).mtime <= comp.mtime_clamp);
        }
    }

    let packed = pack_components(components, 2).unwrap();
    assert_eq!(packed.len(), 2);
    let total: u64 = packed
        .iter()
        .map(|(_, c)| (0..c.files.len()).map(|i| c.files.info_at(i).size).sum::<u64>())
        .sum();
    assert_eq!(total, 5 * mib + 10);

    // Groups come sorted by stability descending.
    for w in 1..packed.len() {
        assert!(packed[w - 1].1.stability >= packed[w].1.stability);
    }
}

#[test]
fn test_hardlink_plan() {
    let mib = 1024 * 1024;
    let mut files = FileMap::new();
    files.insert(p("/a/data"), fi(FileType::File, 26 * mib, 5, 2));
    files.insert(p("/b/data"), fi(FileType::File, 26 * mib, 5, 2));
    files.insert(p("/c/other"), fi(FileType::File, 10, 6, 1));
    files.insert(p("/d"), fi(FileType::Directory, 0, 7, 1));

    // Map order is /a/data, /b/data, /c/other, /d; the second hardlink
    // is emitted as a link to the first, everything else in full.
    let plan = hardlink_plan(&files);
    assert_eq!(plan, vec![None, Some(0), None, None]);
}

#[test]
fn test_pack_components_rejects_invalid_stability() {
    let comp = Component {
        mtime_clamp: 0,
        stability: chunkah::utils::STABILITY_SCALE + 1,
        files: FileMap::new(),
    };
    let r = pack_components(vec![("bad".to_string(), comp)], 4);
    assert!(matches!(r, Err(PackComponentsError::InvalidStability)));
}

#[test]
fn test_pack_components_rejects_size_overflow() {
    let mut files_a = FileMap::new();
    files_a.insert(p("/a"), fi(FileType::File, u64::MAX, 1, 1));
    let mut files_b = FileMap::new();
    files_b.insert(p("/b"), fi(FileType::File, u64::MAX, 2, 1));
    let comps = vec![
        ("a".to_string(), Component { mtime_clamp: 0, stability: 0, files: files_a }),
        ("b".to_string(), Component { mtime_clamp: 0, stability: 0, files: files_b }),
    ];
    let r = pack_components(comps, 4);
    assert!(matches!(r, Err(PackComponentsError::SizeOverflow)));
}
