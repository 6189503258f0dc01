use thanatos::package::build_file::{
    build_script, is_html_response, package_script, parse_pkgbuild, parse_source,
    tarball_file_name, PkgBuild, PkgBuildError, Source, SourceAction,
};
use thanatos::package::checksum::{compare_checksum, sha256, verify_checksum, ChecksumError};
use thanatos::package::db::{InstallReason, InstallState, Package, PackageDb, PackageFormat};
use thanatos::text::IntError;
use thanatos::package::install::{
    aur_dependency, build_file_url, dependency_step, fetch_source, DependencyStep, Fetch, ProcessStep,
};

const HELLO: &str = "# Maintainer: someone
pkgname=hello
pkgver=2.12
pkgrel=3
url=\"https://www.gnu.org/software/hello\"
depends=('glibc'
  'bash')
makedepends=(gcc make)
source=(\"hello-$pkgver.tar.gz::https://ftp.gnu.org/gnu/hello/hello-$pkgver.tar.gz\" \"git+https://example.com/x.git\")
sha256sums=('abc' 'SKIP')
build() {
  cd \"$pkgname-$pkgver\"
  make
}
package() {
  make DESTDIR=\"$pkgdir\" install
}
";

fn installed(name: &str, depends: &[&str], reason: InstallReason) -> Package {
    let mut p = Package::new(name);
    p.depends = depends.iter().map(|d| d.to_string()).collect();
    p.mark_installed("1.0".to_string(), 1, vec!["/usr/bin/".to_string() + name], reason);
    p
}

fn names(ps: &[&Package]) -> Vec<String> {
    ps.iter().map(|p| p.name.clone()).collect()
}

#[test]
fn parse_pkgbuild_reads_fields() {
    let p = match parse_pkgbuild(HELLO) {
        Ok(p) => p,
        Err(_) => panic!("PKGBUILD should parse"),
    };
    assert_eq!(p.name, "hello");
    assert_eq!(p.version, "2.12");
    assert_eq!(p.release, 3);
    assert_eq!(p.url, "https://www.gnu.org/software/hello");
    assert_eq!(p.depends, vec!["glibc", "bash"]);
    assert_eq!(p.make_depends, vec!["gcc", "make"]);
    assert_eq!(
        p.sources,
        vec![
            "https://ftp.gnu.org/gnu/hello/hello-2.12.tar.gz",
            "git+https://example.com/x.git"
        ]
    );
    assert_eq!(p.checksums, vec!["abc", "SKIP"]);
    assert_eq!(p.build_fn, "  cd \"$pkgname-$pkgver\"\n  make\n");
    assert_eq!(p.package_fn, "  make DESTDIR=\"$pkgdir\" install\n");
}

#[test]
fn parse_pkgbuild_defaults() {
    let p = match parse_pkgbuild("") {
        Ok(p) => p,
        Err(_) => panic!("empty PKGBUILD should parse"),
    };
    assert_eq!(p.name, "");
    assert_eq!(p.version, "");
    assert_eq!(p.release, 1);
    assert!(p.depends.is_empty());
    assert!(p.sources.is_empty());
    assert_eq!(p.build_fn, "");
}

#[test]
fn parse_pkgbuild_rejects_bad_release() {
    let r = parse_pkgbuild("pkgname=x\npkgrel=abc\n");
    assert!(matches!(r, Err(PkgBuildError::InvalidRelease(IntError::InvalidDigit))));
    let r = parse_pkgbuild("pkgrel=-1\n");
    assert!(matches!(r, Err(PkgBuildError::InvalidRelease(IntError::InvalidDigit))));
    let r = parse_pkgbuild("pkgrel=\n");
    assert!(matches!(r, Err(PkgBuildError::InvalidRelease(IntError::Empty))));
    let r = parse_pkgbuild("pkgrel=99999999999x\n");
    assert!(matches!(r, Err(PkgBuildError::InvalidRelease(IntError::PosOverflow))));
}

#[test]
fn parse_pkgbuild_md5_checksums_are_skipped() {
    let p = match parse_pkgbuild("pkgname='quoted'\nsource=(a b c)\nmd5sums=('1' '2' '3')\n") {
        Ok(p) => p,
        Err(_) => panic!("PKGBUILD should parse"),
    };
    assert_eq!(p.name, "quoted");
    assert_eq!(p.checksums, vec!["SKIP", "SKIP", "SKIP"]);
    assert_eq!(p.sources, vec!["a", "b", "c"]);
}

#[test]
fn parse_pkgbuild_expands_url_and_braced_names() {
    let text = "pkgname=tool\npkgver=1.0\nurl='https://tool.dev'\nsource=(\"${url}/${pkgname}-${pkgver}.tgz\")\n";
    let p = match parse_pkgbuild(text) {
        Ok(p) => p,
        Err(_) => panic!("PKGBUILD should parse"),
    };
    assert_eq!(p.sources, vec!["https://tool.dev/tool-1.0.tgz"]);
}

#[test]
fn parse_source_tells_git_from_tarball() {
    assert!(matches!(parse_source("git+https://x.org/r.git"), Source::Git(ref u) if u == "https://x.org/r.git"));
    assert!(matches!(parse_source("https://x.org/r.git"), Source::Git(ref u) if u == "https://x.org/r.git"));
    assert!(matches!(parse_source("https://x.org/a.tar.gz"), Source::Tarball(ref u) if u == "https://x.org/a.tar.gz"));
}

#[test]
fn tarball_names() {
    assert_eq!(tarball_file_name("https://x.org/dl/a-1.tar.gz"), "a-1.tar.gz");
    assert_eq!(tarball_file_name("plain"), "plain");
    assert_eq!(tarball_file_name("https://x.org/dl/"), "");
}

#[test]
fn html_is_detected() {
    assert!(is_html_response("<!doctype html><p>blocked</p>"));
    assert!(is_html_response("x\n<html>"));
    assert!(!is_html_response("pkgname=x\n"));
    assert!(!is_html_response("<!DOCTYPE html>"));
}

#[test]
fn build_file_address() {
    assert_eq!(
        build_file_url("yay"),
        "https://aur.archlinux.org/cgit/aur.git/plain/PKGBUILD?h=yay"
    );
}

#[test]
fn fetch_plans() {
    match fetch_source("https://ftp.gnu.org/hello-2.12.tar.gz", "/tmp/thanatos/hello-2.12") {
        Fetch::Tarball { url, archive } => {
            assert_eq!(url, "https://ftp.gnu.org/hello-2.12.tar.gz");
            assert_eq!(archive, "/tmp/thanatos/hello-2.12/hello-2.12.tar.gz");
        }
        Fetch::Git { .. } => panic!("expected a tarball"),
    }
    match fetch_source("https://x.org/a.tgz", "/build/") {
        Fetch::Tarball { archive, .. } => assert_eq!(archive, "/build/a.tgz"),
        Fetch::Git { .. } => panic!("expected a tarball"),
    }
    match fetch_source("git+https://example.com/x.git", "/tmp/d") {
        Fetch::Git { url } => assert_eq!(url, "https://example.com/x.git"),
        Fetch::Tarball { .. } => panic!("expected git"),
    }
}

#[test]
fn scripts() {
    assert_eq!(
        build_script("make", "/tmp/b", "hello", "2.12"),
        "#!/bin/bash\nset -e\npkgname=hello\npkgver=2.12\nsrcdir=/tmp/b\ncd /tmp/b\nmake\n"
    );
    assert_eq!(
        package_script("make install", "/tmp/b", "/tmp/b/pkg", "hello", "2.12"),
        "#!/bin/bash\nset -e\npkgname=hello\npkgver=2.12\nsrcdir=/tmp/b\npkgdir=/tmp/b/pkg\ncd /tmp/b\nmake install\n"
    );
}

fn hello() -> PkgBuild {
    match parse_pkgbuild(HELLO) {
        Ok(p) => p,
        Err(_) => panic!("PKGBUILD should parse"),
    }
}

#[test]
fn build_dir_and_source_actions() {
    let p = hello();
    assert_eq!(p.build_dir(), "/tmp/thanatos/hello-2.12");
    let mut p2 = hello();
    p2.sources.push("local.patch".to_string());
    p2.checksums.push("SKIP".to_string());
    p2.checksums.push("extra".to_string());
    let actions = p2.source_actions();
    assert_eq!(actions.len(), 3);
    assert!(matches!(&actions[0], SourceAction::Fetch { source, checksum }
        if source == "https://ftp.gnu.org/gnu/hello/hello-2.12.tar.gz" && checksum == "abc"));
    assert!(matches!(&actions[1], SourceAction::Fetch { source, checksum }
        if source == "git+https://example.com/x.git" && checksum == "SKIP"));
    assert!(matches!(&actions[2], SourceAction::Unsupported(s) if s == "local.patch"));
}

#[test]
fn missing_dependencies_skip_installed() {
    let p = hello();
    let mut db = PackageDb::new();
    db.insert(installed("glibc", &[], InstallReason::Dependency));
    let mut pending = Package::new("bash");
    pending.format = PackageFormat::AUR;
    db.insert(pending);
    assert_eq!(p.missing_dependencies(&db), vec!["bash"]);
}

#[test]
fn installed_package_record() {
    let p = hello();
    let pkg = p.installed_package(vec!["/usr/bin/hello".to_string()], InstallReason::Explicit);
    assert_eq!(pkg.name, "hello");
    assert_eq!(pkg.depends, vec!["glibc", "bash"]);
    assert!(pkg.is_installed());
    assert_eq!(pkg.version(), Some("2.12"));
    assert_eq!(pkg.files(), Some(&["/usr/bin/hello".to_string()][..]));
    assert!(matches!(pkg.reason(), Some(InstallReason::Explicit)));
    assert!(matches!(pkg.state, InstallState::Installed { release: 3, .. }));
}

#[test]
fn process_steps_for_new_package() {
    let p = hello();
    let db = PackageDb::new();
    let steps = p.process_steps(&db, InstallReason::Explicit);
    assert_eq!(steps.len(), 9);
    assert!(matches!(steps[0], ProcessStep::ResetBuildDir));
    assert!(matches!(steps[1], ProcessStep::ResolveDependencies));
    assert!(matches!(steps[2], ProcessStep::CreateBuildDir));
    assert!(matches!(&steps[3], ProcessStep::Source(SourceAction::Fetch { checksum, .. }) if checksum == "abc"));
    assert!(matches!(&steps[4], ProcessStep::Source(SourceAction::Fetch { checksum, .. }) if checksum == "SKIP"));
    assert!(matches!(steps[5], ProcessStep::RunBuild));
    assert!(matches!(steps[6], ProcessStep::RunPackage));
    assert!(matches!(steps[7], ProcessStep::Install(InstallReason::Explicit)));
    assert!(matches!(steps[8], ProcessStep::RemoveBuildDir));
}

#[test]
fn process_steps_for_installed_or_dependency() {
    let p = hello();
    let mut db = PackageDb::new();
    db.insert(installed("hello", &[], InstallReason::Explicit));
    let steps = p.process_steps(&db, InstallReason::Explicit);
    assert_eq!(steps.len(), 2);
    assert!(matches!(steps[0], ProcessStep::ResetBuildDir));
    assert!(matches!(steps[1], ProcessStep::AlreadyInstalled));
    let steps = p.process_steps(&db, InstallReason::Dependency);
    assert_eq!(steps.len(), 1);
    assert!(matches!(steps[0], ProcessStep::AlreadyInstalled));
    let bare = match parse_pkgbuild("pkgname=bare\n") {
        Ok(p) => p,
        Err(_) => panic!("PKGBUILD should parse"),
    };
    let steps = bare.process_steps(&PackageDb::new(), InstallReason::Dependency);
    assert_eq!(steps.len(), 4);
    assert!(matches!(steps[0], ProcessStep::ResolveDependencies));
    assert!(matches!(steps[1], ProcessStep::CreateBuildDir));
    assert!(matches!(steps[2], ProcessStep::Install(InstallReason::Dependency)));
    assert!(matches!(steps[3], ProcessStep::RemoveBuildDir));
}

#[test]
fn sha256_known_digests() {
    assert_eq!(
        sha256(b""),
        "e3b0c44298fc1c149afbf4c8996fb92427ae41e4649b934ca495991b7852b855"
    );
    assert_eq!(
        sha256(b"abc"),
        "ba7816bf8f01cfea414140de5dae2223b00361a396177a9cb410ff61f20015ad"
    );
}

#[test]
fn checksum_verification() {
    assert!(verify_checksum(b"anything", "SKIP").is_ok());
    assert!(verify_checksum(
        b"abc",
        "ba7816bf8f01cfea414140de5dae2223b00361a396177a9cb410ff61f20015ad"
    )
    .is_ok());
    match verify_checksum(b"abc", "deadbeef") {
        Err(ChecksumError::Mismatch { expected, got }) => {
            assert_eq!(expected, "deadbeef");
            assert_eq!(
                got,
                "ba7816bf8f01cfea414140de5dae2223b00361a396177a9cb410ff61f20015ad"
            );
        }
        Ok(()) => panic!("mismatch expected"),
    }
    assert!(compare_checksum("ab", "ab".to_string()).is_ok());
    assert!(compare_checksum("ab", "AB".to_string()).is_err());
}

#[test]
fn package_basics() {
    let mut p = Package::new("vim");
    assert!(!p.is_installed());
    assert_eq!(p.version(), None);
    assert!(p.files().is_none());
    assert!(p.reason().is_none());
    assert!(p.format == PackageFormat::Pending);
    p.mark_installed("9.1".to_string(), 2, vec!["/usr/bin/vim".to_string()], InstallReason::Dependency);
    assert!(p.is_installed());
    assert_eq!(p.version(), Some("9.1"));
    assert!(matches!(p.reason(), Some(InstallReason::Dependency)));
}

#[test]
fn db_insert_get_remove() {
    let mut db = PackageDb::new();
    assert!(db.get("vim").is_none());
    assert!(!db.is_installed("vim"));
    db.insert(Package::new("vim"));
    assert!(db.get("vim").is_some());
    assert!(!db.is_installed("vim"));
    db.insert(installed("vim", &[], InstallReason::Explicit));
    assert!(db.is_installed("vim"));
    assert_eq!(db.all().len(), 1);
    let removed = db.remove("vim");
    assert!(matches!(removed, Some(ref p) if p.name == "vim" && p.is_installed()));
    assert!(db.get("vim").is_none());
    assert!(db.remove("vim").is_none());
}

#[test]
fn db_keeps_name_order() {
    let mut db = PackageDb::default();
    db.insert(Package::new("zsh"));
    db.insert(Package::new("bash"));
    db.insert(Package::new("fish"));
    db.insert(Package::new("bash"));
    assert_eq!(names(&db.all()), vec!["bash", "fish", "zsh"]);
}

#[test]
fn db_queries() {
    let mut db = PackageDb::new();
    db.insert(installed("app", &["libfoo", "libbar"], InstallReason::Explicit));
    db.insert(installed("libfoo", &[], InstallReason::Dependency));
    db.insert(installed("libbar", &[], InstallReason::Dependency));
    db.insert(installed("stale", &[], InstallReason::Dependency));
    db.insert(installed("tool", &["libbar"], InstallReason::Explicit));
    db.insert(Package::new("pending"));
    assert_eq!(names(&db.explicit()), vec!["app", "tool"]);
    assert_eq!(names(&db.dependencies()), vec!["libbar", "libfoo", "stale"]);
    assert_eq!(names(&db.orphans()), vec!["stale"]);
    assert_eq!(names(&db.dependents_of("libbar")), vec!["app", "tool"]);
    assert!(db.dependents_of("app").is_empty());
    assert!(!db.safe_to_remove("libbar"));
    assert!(db.safe_to_remove("app"));
    assert!(db.safe_to_remove("missing"));
}

#[test]
fn get_after_insert_law() {
    let mut db = PackageDb::new();
    db.insert(installed("a", &[], InstallReason::Explicit));
    db.insert(installed("b", &["a"], InstallReason::Explicit));
    let got = db.get("b").unwrap();
    assert_eq!(got.depends, vec!["a"]);
    assert!(db.get("a").unwrap().is_installed());
    db.insert(Package::new("b"));
    db.remove("b");
    assert!(db.get("b").is_none());
    assert!(db.get("a").is_some());
}

#[test]
fn pkgbuild_error_message() {
    assert_eq!(
        PkgBuildError::InvalidRelease(IntError::InvalidDigit).message(),
        "invalid digit found in string"
    );
    assert_eq!(
        PkgBuildError::InvalidRelease(IntError::Empty).message(),
        "cannot parse integer from empty string"
    );
    assert_eq!(
        PkgBuildError::InvalidRelease(IntError::PosOverflow).message(),
        "number too large to fit in target type"
    );
}

#[test]
fn checksum_needed_only_without_skip() {
    assert!(!thanatos::package::checksum::checksum_needed("SKIP"));
    assert!(thanatos::package::checksum::checksum_needed("skip"));
    assert!(thanatos::package::checksum::checksum_needed(""));
}

#[test]
fn dependency_choices() {
    assert!(matches!(dependency_step("glibc", true), DependencyStep::Pacman(ref n) if n == "glibc"));
    assert!(matches!(dependency_step("yay", false), DependencyStep::Aur(ref n) if n == "yay"));
    assert_eq!(aur_dependency("yay", Ok("pkgname=yay".to_string())), Ok("pkgname=yay".to_string()));
    assert_eq!(
        aur_dependency("yay", Err("curl failed".to_string())),
        Err("dependency 'yay' not found in pacman or AUR: curl failed".to_string())
    );
}

#[test]
fn insert_counts_new_names_only() {
    let mut db = PackageDb::new();
    db.insert(Package::new("a"));
    assert_eq!(db.all().len(), 1);
    db.insert(Package::new("b"));
    assert_eq!(db.all().len(), 2);
    db.insert(installed("a", &[], InstallReason::Explicit));
    assert_eq!(db.all().len(), 2);
    assert!(db.get("a").unwrap().is_installed());
}
