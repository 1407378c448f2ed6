use pycors::{
    find_nearest_pinning_file, pinning_file_content, Error, Identifier, InstalledToolchain,
    SelectedVersion, Version, VersionOrPath,
};
use semver::VersionReq;

fn version(major: u64, minor: u64, patch: u64, pre: &str) -> Version {
    let pre = if pre.is_empty() {
        vec![]
    } else {
        pre.split('.')
            .map(|p| match p.parse::<u64>() {
                Ok(n) => Identifier::Numeric(n),
                Err(_) => Identifier::AlphaNumeric(p.to_string()),
            })
            .collect()
    };
    Version { major, minor, patch, pre }
}

#[test]
fn version_or_path_from_str_success_major_minor_patch() {
    let v = "3.7.4";
    let vop = VersionOrPath::parse(v, None).unwrap();
    assert_eq!(vop, VersionOrPath::VersionReq(VersionReq::parse(v).unwrap().to_string()));
}

#[test]
fn version_or_path_from_str_success_eq_major_minor_patch() {
    let v = "=3.7.4";
    let vop = VersionOrPath::parse(v, None).unwrap();
    assert_eq!(vop, VersionOrPath::VersionReq(VersionReq::parse(v).unwrap().to_string()));
}

#[test]
fn version_or_path_from_str_success_tilde_major_minor() {
    let v = "~3.7";
    let vop = VersionOrPath::parse(v, None).unwrap();
    assert_eq!(vop, VersionOrPath::VersionReq(VersionReq::parse(v).unwrap().to_string()));
}

#[test]
fn version_or_path_from_str_success_tilde_major() {
    let v = "~3";
    let vop = VersionOrPath::parse(v, None).unwrap();
    assert_eq!(vop, VersionOrPath::VersionReq(VersionReq::parse(v).unwrap().to_string()));
}

#[test]
fn parse_writes_requirement_in_semver_syntax() {
    assert_eq!(
        VersionOrPath::parse("3.7.4", None),
        Ok(VersionOrPath::VersionReq("^3.7.4".to_string()))
    );
}

#[test]
fn format_then_parse_round_trips() {
    for s in ["3.7.4", "=3.7.4", "~3.7", "~3", ">= 1.2, < 2", "1.*", "*", "^0.3.1-beta.2"] {
        let first = VersionOrPath::parse(s, None).unwrap();
        let again = VersionOrPath::parse(first.text().as_str(), None).unwrap();
        assert_eq!(first, again, "{}", s);
    }
}

#[test]
fn latest_means_wildcard() {
    assert_eq!(VersionOrPath::parse("latest", None), VersionOrPath::parse("*", None));
    assert!(VersionOrPath::parse("latest", None).is_ok());
}

#[test]
fn neither_range_nor_existing_path_is_not_found() {
    assert_eq!(VersionOrPath::parse("no/such/dir", None), Err(Error::NotFound));
}

#[test]
fn existing_path_becomes_its_canonical_form() {
    assert_eq!(
        VersionOrPath::parse("./py", Some("/opt/py".to_string())),
        Ok(VersionOrPath::Path("/opt/py".to_string()))
    );
}

#[test]
fn highest_release_wins_over_its_pre_release() {
    let found = vec![
        (version(1, 8, 0, ""), "/a/bin".to_string()),
        (version(1, 9, 5, ""), "/b/bin".to_string()),
        (version(1, 9, 5, "rc1"), "/c/bin".to_string()),
    ];
    let chosen = InstalledToolchain::from_path(found).unwrap();
    assert_eq!(chosen.version, version(1, 9, 5, ""));
    assert_eq!(chosen.location, "/b/bin");
}

#[test]
fn pre_releases_order_by_identifiers() {
    let found = vec![
        (version(2, 0, 0, "alpha.10"), "/x".to_string()),
        (version(2, 0, 0, "alpha.9"), "/y".to_string()),
        (version(2, 0, 0, "alpha"), "/z".to_string()),
        (version(1, 99, 99, ""), "/w".to_string()),
    ];
    let chosen = InstalledToolchain::from_path(found).unwrap();
    assert_eq!(chosen.location, "/x");
    assert_eq!(
        version(2, 0, 0, "alpha.beta").compare(&version(2, 0, 0, "alpha.1")),
        1
    );
    assert_eq!(version(1, 2, 3, "").compare(&version(1, 2, 3, "")), 0);
}

#[test]
fn no_installation_found() {
    assert_eq!(InstalledToolchain::from_path(vec![]), None);
}

#[test]
fn nearest_pinning_file_wins() {
    assert_eq!(find_nearest_pinning_file(&[false, true, true]), Some(1));
    assert_eq!(find_nearest_pinning_file(&[true, true]), Some(0));
    assert_eq!(find_nearest_pinning_file(&[false, false, false]), None);
    assert_eq!(find_nearest_pinning_file(&[]), None);
}

#[test]
fn save_version_then_load() {
    let toolchain = InstalledToolchain { location: "/b/bin".to_string(), version: version(1, 9, 5, "") };
    let content = toolchain.save_version();
    assert_eq!(content, "= 1.9.5\n");
    let loaded = SelectedVersion::from_file(&content, None).unwrap();
    let exact = VersionReq::exact(&semver::Version::parse("1.9.5").unwrap()).to_string();
    assert_eq!(loaded.version, VersionOrPath::VersionReq(exact));
}

#[test]
fn save_version_keeps_pre_release() {
    let toolchain =
        InstalledToolchain { location: "/c".to_string(), version: version(3, 8, 0, "rc.1") };
    assert_eq!(toolchain.save_version(), "= 3.8.0-rc.1\n");
}

#[test]
fn save_path_writes_location() {
    let toolchain = InstalledToolchain { location: "/opt/py/bin".to_string(), version: version(3, 7, 0, "") };
    assert_eq!(toolchain.save_path(), "/opt/py/bin\n");
    assert_eq!(pinning_file_content("~3.7"), "~3.7\n");
}

#[test]
fn load_reads_first_line_only() {
    let loaded = SelectedVersion::from_file("~3.7\nthis project needs 3.7\n", None).unwrap();
    assert_eq!(loaded.version, VersionOrPath::VersionReq("~3.7".to_string()));
    assert_eq!(loaded.save_to(), "~3.7\n");
}

#[test]
fn load_of_empty_file_fails() {
    assert_eq!(SelectedVersion::from_file("", None).err(), Some(Error::Empty));
    assert_eq!(SelectedVersion::from_file("not a version\nrest", None).err(), Some(Error::NotFound));
}

#[test]
fn requirement_matches_versions() {
    let tilde = VersionOrPath::parse("~3.7", None).unwrap();
    assert!(tilde.matches(&version(3, 7, 4, "")));
    assert!(!tilde.matches(&version(3, 8, 0, "")));
    let exact = VersionOrPath::parse("=1.9.5", None).unwrap();
    assert!(!exact.matches(&version(1, 9, 5, "rc1")));
    let path = VersionOrPath::Path("/opt/py".to_string());
    assert!(!path.matches(&version(3, 7, 4, "")));
}

#[test]
fn pinning_line_is_text_before_first_newline() {
    assert_eq!(pycors::pinning_line("3.7\n# comment\n"), "3.7");
    assert_eq!(pycors::pinning_line("/opt/py"), "/opt/py");
    assert_eq!(pycors::pinning_line(""), "");
}
