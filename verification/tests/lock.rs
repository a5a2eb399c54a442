use yoctofy::error::RecipeError;
use yoctofy::lock::{build_checksum_map, checksums_are_whole, parse_lockfile};
use yoctofy::model::{CrateId, LockPackage, LockSource, SourceKind};

const LOCK: &str = r#"# This file is automatically @generated by Cargo.
# It is not intended for manual editing.
version = 3

[[package]]
name = "app"
version = "0.1.0"
dependencies = [
 "serde",
 "tool",
]

[[package]]
name = "serde"
version = "1.0.0+build.7"
source = "registry+https://github.com/rust-lang/crates.io-index"
checksum = "00112233445566778899AABBCCDDEEFF00112233445566778899aabbccddeeff"

[[package]]
name = "tool"
version = "0.2.0"
source = "git+https://github.com/acme/tools.git?branch=main#0123abcd"

[[package]]
name = "local"
version = "0.0.1"
source = "path+file:///srv/local"

[[package]]
name = "spare"
version = "2.0.0-rc.1"
source = "sparse+https://index.example.com/"
checksum = "ffeeddccbbaa99887766554433221100ffeeddccbbaa99887766554433221100"
"#;

fn source(kind: SourceKind, url: &str, precise: Option<&str>) -> Option<LockSource> {
    Some(LockSource { kind, url: url.to_string(), precise: precise.map(|s| s.to_string()) })
}

#[test]
fn lock_file_is_read() {
    assert!(checksums_are_whole(LOCK));
    let packages = parse_lockfile(LOCK).unwrap();
    assert_eq!(
        packages,
        vec![
            LockPackage {
                name: "app".to_string(),
                version: "0.1.0".to_string(),
                source: None,
                checksum: None,
            },
            LockPackage {
                name: "serde".to_string(),
                version: "1.0.0+build.7".to_string(),
                source: source(
                    SourceKind::Registry,
                    "https://github.com/rust-lang/crates.io-index",
                    Some("locked"),
                ),
                checksum: Some(
                    "00112233445566778899aabbccddeeff00112233445566778899aabbccddeeff".to_string(),
                ),
            },
            LockPackage {
                name: "tool".to_string(),
                version: "0.2.0".to_string(),
                source: source(
                    SourceKind::Git,
                    "https://github.com/acme/tools.git",
                    Some("0123abcd"),
                ),
                checksum: None,
            },
            LockPackage {
                name: "local".to_string(),
                version: "0.0.1".to_string(),
                source: source(SourceKind::Other, "file:///srv/local", None),
                checksum: None,
            },
            LockPackage {
                name: "spare".to_string(),
                version: "2.0.0-rc.1".to_string(),
                source: source(
                    SourceKind::SparseRegistry,
                    "https://index.example.com/",
                    Some("locked"),
                ),
                checksum: Some(
                    "ffeeddccbbaa99887766554433221100ffeeddccbbaa99887766554433221100".to_string(),
                ),
            },
        ]
    );
}

#[test]
fn lock_file_with_checksums_of_its_own() {
    let text = r#"
[[package]]
name = "a"
version = "0.1.0"
dependencies = [
 "b 1.0.0 (registry+https://github.com/rust-lang/crates.io-index)",
]

[[package]]
name = "b"
version = "1.0.0"
source = "registry+https://github.com/rust-lang/crates.io-index"

[metadata]
"checksum b 1.0.0 (registry+https://github.com/rust-lang/crates.io-index)" = "1111111111111111111111111111111111111111111111111111111111111111"
"#;
    let packages = parse_lockfile(text).unwrap();
    assert_eq!(packages[0].checksum, None);
    assert_eq!(packages[1].checksum, Some("1".repeat(64)));
}

#[test]
fn empty_lock_file() {
    assert_eq!(parse_lockfile("version = 4\n").unwrap(), vec![]);
}

#[test]
fn bad_lock_file() {
    for text in ["this is no lock file", "[[package]]\nname = \"a\"\n", "version = \"x\""] {
        match parse_lockfile(text) {
            Err(RecipeError::BadLockfile { reason }) => {
                let told = text.parse::<cargo_lock::Lockfile>().unwrap_err().to_string();
                assert_eq!(reason, told);
                assert!(reason.starts_with("parse error: "));
            }
            other => panic!("{:?}", other),
        }
    }
}

#[test]
fn bad_checksums() {
    for checksum in ["", "12", &"1".repeat(63), &"g".repeat(64), &"é".repeat(31)] {
        let text = format!(
            "[[package]]\nname = \"a\"\nversion = \"1.0.0\"\nchecksum = \"{checksum}\"\n"
        );
        assert!(checksums_are_whole(&text));
        assert!(matches!(parse_lockfile(&text), Err(RecipeError::BadLockfile { .. })));
    }
}

#[test]
fn whole_checksums() {
    assert!(checksums_are_whole(""));
    assert!(checksums_are_whole("name = \"é\"\nchecksum = \"12\"\n"));
    assert!(checksums_are_whole("# é \"x\"\nname = \"a\\\\b\"\n"));
    assert!(checksums_are_whole("x = '''\na\n'''\n"));
    assert!(checksums_are_whole(&format!("name = \"{}\"\n", "é".repeat(64))));
    assert!(checksums_are_whole(&format!("checksum = \"{}\"\n", "é".repeat(31))));
}

#[test]
fn comments_hold_no_checksums() {
    let two = "é".repeat(32);
    assert!(checksums_are_whole(&format!("# checksum = \"{two}\"\n")));
    assert!(checksums_are_whole(&format!(" \t# \\u00e9 ''' \"\"\" \"{two}\"\nversion = 4\n")));
    assert!(!checksums_are_whole(&format!("x # checksum = \"{two}\"\n")));
}

#[test]
fn other_keys_hold_no_checksums() {
    let two = "é".repeat(32);
    assert!(checksums_are_whole(&format!("[[package]]\nname = \"{two}\"\n")));
    assert!(checksums_are_whole(&format!("dependencies = [\n \"{two}\",\n]\n")));
    assert!(checksums_are_whole("name = \"é\\n\""));
    let text = format!(
        "[[package]]\nname = \"a\"\nversion = \"1.0.0\"\nsource = \"{two}\" # é\n"
    );
    assert!(checksums_are_whole(&text));
    assert!(matches!(parse_lockfile(&text), Err(RecipeError::BadLockfile { .. })));
}

#[test]
fn escapes_and_long_strings_of_other_keys() {
    let two = "é".repeat(32);
    assert!(checksums_are_whole("name = \"\\u00e9\\U000000e9\\xe9\"\n"));
    assert!(checksums_are_whole("# é\nx = \"\"\"a\"\"\"\ny = '''b'''\n"));
    assert!(checksums_are_whole(&format!("x = \"\"\"\n{two}\n\"\"\"\n")));
    assert!(!checksums_are_whole(&format!("x = \"\"\"\nchecksum = \"{two}\"\n\"\"\"\n")));
    let text = "[unused]\nnote = \"\"\"é\n\\u00e9\"\"\"\n".to_string() + LOCK;
    assert!(!checksums_are_whole(&format!("metadata = {{}}\n{text}")));
    let text = LOCK.to_string() + "\n[unused]\nnote = \"\"\"é\n\\u00e9\"\"\"\n";
    assert!(checksums_are_whole(&text));
    assert_eq!(parse_lockfile(&text).unwrap(), parse_lockfile(LOCK).unwrap());
}

#[test]
fn metadata_in_braces() {
    let torn = format!("a{}b", "é".repeat(31));
    let package = "[[package]]\nname = \"foo\"\nversion = \"1.0.0\"\n";
    for braces in [
        format!("{{ \"checksum foo 1.0.0\" = \"{torn}\" }}"),
        format!("{{ \"checksum foo 1.0.0\" =\n \"{torn}\" }}"),
        format!("{{ \"checksum foo 1.0.0\"\n = \"{torn}\" }}"),
        format!("{{\n\"checksum foo 1.0.0\"\n=\n'{torn}'\n}}"),
    ] {
        assert!(!checksums_are_whole(&format!("metadata = {braces}\n{package}")));
        assert!(!checksums_are_whole(&format!("\"metadata\" = {braces}\n{package}")));
        assert!(!checksums_are_whole(&format!("\"metad\\u0061ta\" = {braces}\n{package}")));
    }
    let sum = "1".repeat(64);
    let text = format!("metadata = {{ \"checksum foo 1.0.0\" =\n \"{sum}\" }} # é\n{package}");
    assert!(checksums_are_whole(&text));
    assert_eq!(parse_lockfile(&text).unwrap()[0].checksum, Some(sum));
    let old = format!("{package}[metadata]\n\"checksum foo 1.0.0\" = \"{torn}\"\n");
    assert!(!checksums_are_whole(&old));
}

#[test]
fn packages_in_braces() {
    let torn = format!("a{}b", "é".repeat(31));
    for key in ["root = ", "package = [", "package=[", "'package' = ["] {
        let close = if key.ends_with('[') { "]" } else { "" };
        assert!(!checksums_are_whole(&format!(
            "{key}{{ name = \"a\", version = \"1.0.0\", checksum\n=\n\"{torn}\" }}{close}\n"
        )));
    }
}

#[test]
fn lists_of_lists_name_no_checksums() {
    let two = "é".repeat(32);
    let source = "registry+https://github.com/rust-lang/crates.io-index";
    let sum = "1".repeat(64);
    let packages = parse_lockfile(&format!(
        "package = [[\"a\", \"1.0.0\", \"{source}\", \"{sum}\", [], \"b 1.0.0\"]]\n"
    ))
    .unwrap();
    assert_eq!(packages[0].checksum, Some(sum));
    assert!(!checksums_are_whole(&format!(
        "package = [\n[\"a\", \"1.0.0\", \"{source}\",\n\"{two}\"]]\n"
    )));
    assert!(!checksums_are_whole(&format!("root = [\"a\", \"1.0.0\", \"{source}\", \"{two}\"]\n")));
}

#[test]
fn torn_checksums() {
    let two = "é".repeat(32);
    assert!(!checksums_are_whole(&format!("checksum = \"{two}\"\n")));
    assert!(!checksums_are_whole(&format!("checksum = '{two}'\n")));
    assert!(!checksums_are_whole(&format!("\"checksum a 1.0.0\" = \"{two}\"\n")));
    let three = format!("{}x", "あ".repeat(21));
    assert!(!checksums_are_whole(&format!("a = 1\nchecksum = \"{three}\"")));
    let four = "😀".repeat(16);
    assert!(!checksums_are_whole(&format!("checksum = \"{four}\"")));
    assert!(!checksums_are_whole("checksum = \"\\u00e9\""));
    assert!(!checksums_are_whole("checksum = \"\\U000000e9\""));
    assert!(!checksums_are_whole("checksum = \"\\xe9\""));
    assert!(!checksums_are_whole("# é\nchecksum = \"\"\"a\"\"\""));
    assert!(!checksums_are_whole("# é\nchecksum = '''a'''"));
    assert!(!checksums_are_whole("checksum = \"é\\n\""));
    assert!(!checksums_are_whole("\"ch\\u0065cksum\" = \"é\""));
}

#[test]
fn last_checksum_counts() {
    let text = LOCK.replace("spare", "serde").replace("2.0.0-rc.1", "1.0.0+build.7");
    let packages = parse_lockfile(&text).unwrap();
    let sums = build_checksum_map(&packages);
    assert_eq!(sums.keys().len(), 1);
    assert_eq!(
        sums.get(&CrateId::new("serde", "1.0.0+build.7")),
        Some(&"ffeeddccbbaa99887766554433221100ffeeddccbbaa99887766554433221100".to_string())
    );
    assert_eq!(sums.get(&CrateId::new("tool", "0.2.0")), None);
}

#[test]
fn crate_of_a_lock_package() {
    let packages = parse_lockfile(LOCK).unwrap();
    assert_eq!(CrateId::from_lock_package(&packages[4]), CrateId::new("spare", "2.0.0-rc.1"));
}
