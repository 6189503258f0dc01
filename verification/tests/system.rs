use thanatos::access_control::group::Group;
use thanatos::access_control::user::User;
use thanatos::config::binary_name;
use thanatos::networking::hostname::{validate_hostname, HostnameError};
use thanatos::package::db::{Package, PackageFormat};
use thanatos::text::{decimal_of, parse_u32, parse_u32_checked, IntError};
use thanatos::{BuildError, BuildStep, System};

fn package(name: &str, format: PackageFormat) -> Package {
    let mut p = Package::new(name);
    p.format = format;
    p
}

fn chars(s: &str) -> Vec<char> {
    s.chars().collect()
}

#[test]
fn hostname_accepts_valid_names() {
    assert!(validate_hostname("thanatos").is_ok());
    assert!(validate_hostname("box-01").is_ok());
    assert!(validate_hostname(&"a".repeat(63)).is_ok());
}

#[test]
fn hostname_length_errors() {
    assert!(validate_hostname("") == Err(HostnameError::Length));
    assert!(validate_hostname(&"a".repeat(64)) == Err(HostnameError::Length));
    assert_eq!(
        HostnameError::Length.message(),
        "hostname must be between 1 and 63 characters"
    );
}

#[test]
fn hostname_leading_hyphen_error() {
    assert!(validate_hostname("-box") == Err(HostnameError::LeadingHyphen));
    assert_eq!(
        HostnameError::LeadingHyphen.message(),
        "hostname must not start with a hyphen"
    );
}

#[test]
fn hostname_character_errors() {
    assert!(validate_hostname("Box") == Err(HostnameError::InvalidCharacter));
    assert!(validate_hostname("my_box") == Err(HostnameError::InvalidCharacter));
    assert!(validate_hostname("my.box") == Err(HostnameError::InvalidCharacter));
    assert_eq!(
        HostnameError::InvalidCharacter.message(),
        "hostname must only contain lowercase a-z, 0-9, and hyphens"
    );
}

#[test]
fn hostname_length_counts_bytes() {
    // 32 two-byte characters make 64 bytes: too long before the character check.
    assert!(validate_hostname(&"é".repeat(32)) == Err(HostnameError::Length));
    assert!(validate_hostname("é") == Err(HostnameError::InvalidCharacter));
}

#[test]
fn binary_name_from_manifest() {
    let manifest = "[package]\nname = \"my-config\"\nversion = \"0.1.0\"\n";
    assert_eq!(binary_name(manifest), Some("my-config".to_string()));
    assert_eq!(binary_name("[package]\nversion = \"1\"\n"), None);
    assert_eq!(binary_name("name = unquoted\nname = \"second\"\n"), None);
    assert_eq!(binary_name("namespace = \"ns\"\n"), Some("ns".to_string()));
}

#[test]
fn build_steps_for_system() {
    let system = System::new(
        vec![
            package("yay", PackageFormat::AUR),
            package("deb-thing", PackageFormat::Deb),
            package("paru", PackageFormat::AUR),
        ],
        "box".to_string(),
        vec![User::new("alice")],
        vec![Group::new("wheel")],
    );
    let steps = system.build();
    assert_eq!(steps.len(), 6);
    assert!(matches!(steps[0], BuildStep::ResolveIds));
    assert!(matches!(steps[1], BuildStep::ApplyGroups));
    assert!(matches!(steps[2], BuildStep::ApplyUsers));
    assert!(matches!(&steps[3], BuildStep::InstallFromAur(n) if n == "yay"));
    assert!(matches!(&steps[4], BuildStep::InstallFromAur(n) if n == "paru"));
    assert!(matches!(&steps[5], BuildStep::SetHostname(h) if h == "box"));
}

#[test]
fn build_stops_at_package_without_format() {
    let system = System::new(
        vec![
            package("yay", PackageFormat::AUR),
            package("unset", PackageFormat::Pending),
            package("paru", PackageFormat::AUR),
        ],
        "box".to_string(),
        vec![],
        vec![],
    );
    let steps = system.build();
    assert_eq!(steps.len(), 5);
    assert!(matches!(&steps[3], BuildStep::InstallFromAur(n) if n == "yay"));
    assert!(matches!(steps[4], BuildStep::Fail(BuildError::FormatNotSet)));
    assert_eq!(BuildError::FormatNotSet.message(), "Not set");
}

#[test]
fn system_accessors() {
    let system = System::new(vec![Package::new("a")], "h".to_string(), vec![], vec![Group::new("g")]);
    assert_eq!(system.packages().len(), 1);
    assert_eq!(system.hostname(), "h");
    assert!(system.users().is_empty());
    assert_eq!(system.groups()[0].name, "g");
}

#[test]
fn decimal_round_trip() {
    for n in [0u32, 7, 10, 1000, 65534, u32::MAX] {
        let d = decimal_of(n as u64);
        assert_eq!(d.iter().collect::<String>(), n.to_string());
        assert_eq!(parse_u32(&d), Some(n));
    }
}

#[test]
fn parse_u32_edge_cases() {
    assert_eq!(parse_u32(&chars("+12")), Some(12));
    assert_eq!(parse_u32(&chars("007")), Some(7));
    assert_eq!(parse_u32(&chars("")), None);
    assert_eq!(parse_u32(&chars("+")), None);
    assert_eq!(parse_u32(&chars("-1")), None);
    assert_eq!(parse_u32(&chars("4294967296")), None);
    assert_eq!(parse_u32(&chars("4294967295")), Some(u32::MAX));
    assert_eq!(parse_u32(&chars("1a")), None);
}

#[test]
fn parse_u32_error_kinds() {
    assert!(parse_u32_checked(&chars("")) == Err(IntError::Empty));
    assert!(parse_u32_checked(&chars("+")) == Err(IntError::InvalidDigit));
    assert!(parse_u32_checked(&chars("-")) == Err(IntError::InvalidDigit));
    assert!(parse_u32_checked(&chars("-0")) == Err(IntError::InvalidDigit));
    assert!(parse_u32_checked(&chars("12a")) == Err(IntError::InvalidDigit));
    assert!(parse_u32_checked(&chars("4294967296")) == Err(IntError::PosOverflow));
    assert!(parse_u32_checked(&chars("99999999999x")) == Err(IntError::PosOverflow));
    assert!(parse_u32_checked(&chars("+4294967295")) == Ok(u32::MAX));
    for text in ["", "+", "-", "-0", "12a", "4294967296", "99999999999x", "+7", "x1"] {
        let expected = text.parse::<u32>().map_err(|e| e.to_string());
        let got = parse_u32_checked(&chars(text)).map_err(|e| e.message());
        assert_eq!(got, expected, "{}", text);
    }
}
