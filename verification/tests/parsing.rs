use chunkah::components::alpm::{match_valid_header, AlpmError, AlpmValueError, LocalAlpmDbFile,
    ALPM_DBFILE_MAXIMUM_SIZE};
use chunkah::components::rpm::parse_srpm_name;
use chunkah::strutil::{parse_u64, trim};

const DESC_CONTENTS: &str = "%NAME%\nfilesystem\n\n%VERSION%\n2025.10.12-1\n\n%BASE%\nfilesystem\n\n%DESC%\nBase Arch Linux files\n\n%URL%\nhttps://archlinux.org\n\n%ARCH%\nany\n\n%BUILDDATE%\n1760286101\n\n%INSTALLDATE%\n1770909753\n\n%PACKAGER%\nDavid Runge <dvzrv@archlinux.org>\n\n%SIZE%\n24551\n\n%LICENSE%\n0BSD\n\n%VALIDATION%\npgp\n\n%DEPENDS%\niana-etc\n\n%XDATA%\npkgtype=pkg\n";

const FILES_CONTENT: &str = "%FILES%\netc/\netc/protocols\netc/services\nusr/\nusr/share/\nusr/share/iana-etc/\nusr/share/iana-etc/port-numbers.iana\nusr/share/iana-etc/protocol-numbers.iana\nusr/share/licenses/\nusr/share/licenses/iana-etc/\nusr/share/licenses/iana-etc/LICENSE\n\n%BACKUP%\netc/protocols\tb9833a5373ef2f5df416f4f71ccb42eb\netc/services\tb80b33810d79289b09bac307a99b4b54\n";

#[test]
fn test_parse_desc() {
    let parsed_desc = LocalAlpmDbFile::parse(DESC_CONTENTS).unwrap();
    assert_eq!(parsed_desc.base().unwrap(), "filesystem");
    assert_eq!(parsed_desc.builddate().unwrap(), 1760286101);
    assert_eq!(
        parsed_desc.get_single_line_value("NAME").unwrap(),
        "filesystem"
    );
}

#[test]
fn test_parse_files() {
    let parsed_files = LocalAlpmDbFile::parse(FILES_CONTENT).unwrap();
    let files = parsed_files.files();
    let mut as_paths = files.iter();

    assert_eq!(as_paths.next().unwrap(), "etc/");
    assert_eq!(as_paths.next().unwrap(), "etc/protocols");
    assert_eq!(as_paths.next().unwrap(), "etc/services");
    assert_eq!(as_paths.next().unwrap(), "usr/");
    assert_eq!(as_paths.next().unwrap(), "usr/share/");
    assert_eq!(as_paths.next().unwrap(), "usr/share/iana-etc/");
    assert_eq!(
        as_paths.next().unwrap(),
        "usr/share/iana-etc/port-numbers.iana"
    );
    assert_eq!(
        as_paths.next().unwrap(),
        "usr/share/iana-etc/protocol-numbers.iana"
    );
    assert_eq!(as_paths.next().unwrap(), "usr/share/licenses/");
    assert_eq!(as_paths.next().unwrap(), "usr/share/licenses/iana-etc/");
    assert_eq!(
        as_paths.next().unwrap(),
        "usr/share/licenses/iana-etc/LICENSE"
    );
    assert_eq!(as_paths.next(), None);

    let backup = parsed_files.get_multi_line_value("BACKUP").unwrap();
    let mut other_section = backup.iter();
    assert_eq!(
        other_section.next().unwrap(),
        "etc/protocols\tb9833a5373ef2f5df416f4f71ccb42eb"
    );
    assert_eq!(
        other_section.next().unwrap(),
        "etc/services\tb80b33810d79289b09bac307a99b4b54"
    );
    assert_eq!(other_section.next(), None);
}

#[test]
fn test_parse_desc_errors() {
    // Duplicate section.
    let dup = "%NAME%\na\n%NAME%\nb\n";
    assert!(matches!(
        LocalAlpmDbFile::parse(dup),
        Err(AlpmError::DuplicateSection)
    ));

    // Content before any header.
    let headerless = "stray\n%NAME%\na\n";
    assert!(matches!(
        LocalAlpmDbFile::parse(headerless),
        Err(AlpmError::ContentBeforeHeader)
    ));

    // Missing and malformed values.
    let db = LocalAlpmDbFile::parse("%NAME%\nfilesystem\n%BUILDDATE%\nnotanumber\n").unwrap();
    assert!(matches!(db.base(), Err(AlpmValueError::SectionNotFound)));
    assert!(matches!(db.builddate(), Err(AlpmValueError::NotANumber)));

    let db = LocalAlpmDbFile::parse("%BASE%\na\nb\n%EMPTY%\n").unwrap();
    assert!(matches!(db.base(), Err(AlpmValueError::ExtraData)));
    assert!(matches!(
        db.get_single_line_value("EMPTY"),
        Err(AlpmValueError::NoValue)
    ));
}

#[test]
fn test_parse_oversized_alpm_file() {
    // One byte over the limit is rejected.
    let big = "x".repeat(ALPM_DBFILE_MAXIMUM_SIZE as usize + 1);
    assert!(matches!(
        LocalAlpmDbFile::parse(&big),
        Err(AlpmError::TooLarge)
    ));
}

#[test]
fn test_match_valid_header() {
    assert_eq!(match_valid_header("%NAME%"), Some("NAME"));
    assert_eq!(match_valid_header("%FILES%"), Some("FILES"));
    assert_eq!(match_valid_header("%%"), None);
    assert_eq!(match_valid_header("%name%"), None);
    assert_eq!(match_valid_header("NAME"), None);
    assert_eq!(match_valid_header("%NAME"), None);
    assert_eq!(match_valid_header(""), None);
}

#[test]
fn test_parse_srpm_name() {
    // Package names with no dashes in them
    assert_eq!(parse_srpm_name("bash-5.2.15-5.fc40.src.rpm"), "bash");
    assert_eq!(parse_srpm_name("systemd-256.4-1.fc41.src.rpm"), "systemd");
    assert_eq!(parse_srpm_name("python3-3.12.0-1.fc40.src.rpm"), "python3");
    assert_eq!(parse_srpm_name("glibc-2.39-5.fc40.src.rpm"), "glibc");

    // Package names with dashes in them
    assert_eq!(
        parse_srpm_name("python-dateutil-2.8.2-1.fc40.src.rpm"),
        "python-dateutil"
    );
    assert_eq!(
        parse_srpm_name("cairo-dock-plugins-3.4.1-1.fc40.src.rpm"),
        "cairo-dock-plugins"
    );
    assert_eq!(
        parse_srpm_name("xorg-x11-server-1.20.14-1.fc40.src.rpm"),
        "xorg-x11-server"
    );

    // Edge cases with malformed input
    // Only one dash (not enough for N-V-R pattern)
    assert_eq!(parse_srpm_name("name-version"), "name-version");

    // Missing .src.rpm suffix but valid N-V-R pattern
    assert_eq!(parse_srpm_name("bash-5.2.15-5.fc40"), "bash");

    // No dashes at all
    assert_eq!(parse_srpm_name("nodash"), "nodash");
}

#[test]
fn test_parse_u64_and_trim() {
    assert_eq!(parse_u64("0"), Some(0));
    assert_eq!(parse_u64("1760286101"), Some(1760286101));
    assert_eq!(parse_u64("18446744073709551615"), Some(u64::MAX));
    assert_eq!(parse_u64("18446744073709551616"), None);
    assert_eq!(parse_u64(""), None);
    assert_eq!(parse_u64("12a"), None);
    assert_eq!(trim("  12 \t\r\n"), "12");
    assert_eq!(trim(""), "");
    assert_eq!(trim("  \t "), "");
}
