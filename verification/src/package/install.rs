//! The decisions taken while installing a package from its PKGBUILD: where
//! its build file is downloaded from, how each source is fetched, and the
//! order of the installation's steps.
use crate::package::build_file::{
    parse_source,
    source_kind,
    source_plan,
    tarball_file_name,
    tarball_name,
    PkgBuild,
    PkgBuildView,
    Source,
    SourceAction,
    SourceActionView,
    SourceView,
};
use crate::package::db::{InstallReason, PackageDb};
use crate::text::{chars_of, push_all, string_of};
use vstd::prelude::*;

verus! {

/// The address of a package's PKGBUILD on the AUR.
pub open spec fn build_file_address(package_name: Seq<char>) -> Seq<char> {
    "https://aur.archlinux.org/cgit/aur.git/plain/PKGBUILD?h="@ + package_name
}

/// The address `fetch_build_file` downloads the PKGBUILD of `package_name` from.
pub fn build_file_url(package_name: &str) -> (r: String)
    ensures
        r@ == build_file_address(package_name@),
{
    let mut out = chars_of("https://aur.archlinux.org/cgit/aur.git/plain/PKGBUILD?h=");
    push_all(&mut out, chars_of(package_name).as_slice());
    string_of(out.as_slice())
}

/// `dir` joined with the relative path `name`, as `Path::join` does: a `/`
/// goes between them unless `dir` is empty or already ends with one.
pub open spec fn join_path(dir: Seq<char>, name: Seq<char>) -> Seq<char> {
    if dir.len() == 0 {
        name
    } else if dir.last() == '/' {
        dir + name
    } else {
        dir + "/"@ + name
    }
}

/// How one source is fetched into a directory.
pub enum Fetch {
    /// Download `url` to the file `archive` and unpack it in the directory.
    Tarball { url: String, archive: String },
    /// Clone the repository at `url` into the directory.
    Git { url: String },
}

/// The value of a `Fetch`.
pub enum FetchView {
    Tarball { url: Seq<char>, archive: Seq<char> },
    Git { url: Seq<char> },
}

impl View for Fetch {
    type V = FetchView;

    open spec fn view(&self) -> FetchView {
        match self {
            Fetch::Tarball { url, archive } => FetchView::Tarball { url: url@, archive: archive@ },
            Fetch::Git { url } => FetchView::Git { url: url@ },
        }
    }
}

/// How `source` is fetched into `dest`: a tarball is saved in `dest` under
/// the last segment of its URL; a git repository is cloned.
pub open spec fn fetch_plan(source: Seq<char>, dest: Seq<char>) -> FetchView {
    match source_kind(source) {
        SourceView::Tarball(url) => FetchView::Tarball { url, archive: join_path(dest, tarball_name(url)) },
        SourceView::Git(url) => FetchView::Git { url },
    }
}

/// Decides how `source` is fetched into the directory `dest`.
pub fn fetch_source(source: &str, dest: &str) -> (r: Fetch)
    ensures
        r@ == fetch_plan(source@, dest@),
{
    match parse_source(source) {
        Source::Tarball(url) => {
            let name = tarball_file_name(url.as_str());
            let dir = chars_of(dest);
            let mut out = chars_of(dest);
            let n = dir.len();
            if n > 0 && dir[n - 1] != '/' {
                push_all(&mut out, chars_of("/").as_slice());
            }
            push_all(&mut out, chars_of(name.as_str()).as_slice());
            proof {
                if n > 0 {
                    assert(dest@.last() == dir@[n - 1]);
                }
                if n == 0 {
                    assert(out@ =~= name@);
                }
            }
            Fetch::Tarball { url, archive: string_of(out.as_slice()) }
        },
        Source::Git(url) => Fetch::Git { url },
    }
}

/// One step of installing a package from its PKGBUILD.
pub enum ProcessStep {
    /// Remove the build directory if it is there, then create it and its
    /// staging directory.
    ResetBuildDir,
    /// Stop: the package is installed already.
    AlreadyInstalled,
    /// Install the dependencies that are not installed yet.
    ResolveDependencies,
    /// Create the build directory and its staging directory.
    CreateBuildDir,
    /// Fetch a source or leave it.
    Source(SourceAction),
    /// Run the `build()` function.
    RunBuild,
    /// Run the `package()` function.
    RunPackage,
    /// Copy the staged files to `/` and record the package as installed for
    /// the given reason.
    Install(InstallReason),
    /// Remove the build directory.
    RemoveBuildDir,
}

/// The value of a `ProcessStep`.
pub enum ProcessStepView {
    ResetBuildDir,
    AlreadyInstalled,
    ResolveDependencies,
    CreateBuildDir,
    Source(SourceActionView),
    RunBuild,
    RunPackage,
    Install(InstallReason),
    RemoveBuildDir,
}

impl View for ProcessStep {
    type V = ProcessStepView;

    open spec fn view(&self) -> ProcessStepView {
        match self {
            ProcessStep::ResetBuildDir => ProcessStepView::ResetBuildDir,
            ProcessStep::AlreadyInstalled => ProcessStepView::AlreadyInstalled,
            ProcessStep::ResolveDependencies => ProcessStepView::ResolveDependencies,
            ProcessStep::CreateBuildDir => ProcessStepView::CreateBuildDir,
            ProcessStep::Source(a) => ProcessStepView::Source(a@),
            ProcessStep::RunBuild => ProcessStepView::RunBuild,
            ProcessStep::RunPackage => ProcessStepView::RunPackage,
            ProcessStep::Install(r) => ProcessStepView::Install(*r),
            ProcessStep::RemoveBuildDir => ProcessStepView::RemoveBuildDir,
        }
    }
}

/// The steps that install package `p` for `reason`, given whether it is
/// installed already. A package asked for explicitly first gets a fresh
/// build directory. An installed package stops there. Otherwise: its
/// dependencies, the build directory, each source in turn, `build()` and
/// `package()` where they are not empty, the installation, and the removal
/// of the build directory.
pub open spec fn process_plan(p: PkgBuildView, installed: bool, reason: InstallReason) -> Seq<
    ProcessStepView,
> {
    let reset = if reason == InstallReason::Explicit {
        seq![ProcessStepView::ResetBuildDir]
    } else {
        seq![]
    };
    if installed {
        reset + seq![ProcessStepView::AlreadyInstalled]
    } else {
        reset + seq![ProcessStepView::ResolveDependencies, ProcessStepView::CreateBuildDir]
            + source_plan(p).map_values(|a: SourceActionView| ProcessStepView::Source(a)) + (if p.build_fn.len() > 0 {
            seq![ProcessStepView::RunBuild]
        } else {
            seq![]
        }) + (if p.package_fn.len() > 0 {
            seq![ProcessStepView::RunPackage]
        } else {
            seq![]
        }) + seq![ProcessStepView::Install(reason), ProcessStepView::RemoveBuildDir]
    }
}

impl PkgBuild {
    /// The steps that install this package for `reason`, given the package
    /// database.
    pub fn process_steps(&self, db: &PackageDb, reason: InstallReason) -> (r: Vec<ProcessStep>)
        ensures
            r@.map_values(|s: ProcessStep| s@) == process_plan(
                self@,
                db.as_map().contains_key(self@.name) && db.as_map()[self@.name].is_installed(),
                reason,
            ),
    {
        let ghost installed = db.as_map().contains_key(self@.name)
            && db.as_map()[self@.name].is_installed();
        let ghost reset: Seq<ProcessStepView> = if reason == InstallReason::Explicit {
            seq![ProcessStepView::ResetBuildDir]
        } else {
            seq![]
        };
        let mut steps: Vec<ProcessStep> = Vec::new();
        match reason {
            InstallReason::Explicit => steps.push(ProcessStep::ResetBuildDir),
            InstallReason::Dependency => {},
        }
        assert(steps@.map_values(|s: ProcessStep| s@) =~= reset);
        if db.is_installed(self.name.as_str()) {
            steps.push(ProcessStep::AlreadyInstalled);
            assert(steps@.map_values(|s: ProcessStep| s@) =~= reset + seq![
                ProcessStepView::AlreadyInstalled,
            ]);
            return steps;
        }
        steps.push(ProcessStep::ResolveDependencies);
        steps.push(ProcessStep::CreateBuildDir);
        let ghost head = reset + seq![
            ProcessStepView::ResolveDependencies,
            ProcessStepView::CreateBuildDir,
        ];
        assert(steps@.map_values(|s: ProcessStep| s@) =~= head);
        let mut actions = self.source_actions();
        let ghost plan = source_plan(self@).map_values(|a: SourceActionView| ProcessStepView::Source(a));
        let n = actions.len();
        let mut i: usize = 0;
        while actions.len() > 0
            invariant
                i + actions@.len() == n,
                n == plan.len(),
                plan == source_plan(self@).map_values(|a: SourceActionView| ProcessStepView::Source(a)),
                forall|k: int| 0 <= k < actions@.len() ==> (#[trigger] actions@[k])@ == source_plan(self@)[i + k],
                steps@.map_values(|s: ProcessStep| s@) == head + plan.take(i as int),
            decreases actions@.len(),
        {
            let ghost prev = actions@;
            let a = actions.remove(0);
            assert(a@ == source_plan(self@)[i as int]);
            let ghost before = steps@.map_values(|s: ProcessStep| s@);
            steps.push(ProcessStep::Source(a));
            assert(steps@.map_values(|s: ProcessStep| s@) =~= before.push(plan[i as int]));
            assert(plan.take(i + 1) =~= plan.take(i as int).push(plan[i as int]));
            i = i + 1;
            assert forall|k: int| 0 <= k < actions@.len() implies (#[trigger] actions@[k])@ == source_plan(self@)[i + k] by {
                assert(actions@[k] == prev[k + 1]);
            }
        }
        assert(plan.take(n as int) =~= plan);
        let ghost with_sources = steps@.map_values(|s: ProcessStep| s@);
        let ghost build: Seq<ProcessStepView> = if self@.build_fn.len() > 0 {
            seq![ProcessStepView::RunBuild]
        } else {
            seq![]
        };
        let ghost package: Seq<ProcessStepView> = if self@.package_fn.len() > 0 {
            seq![ProcessStepView::RunPackage]
        } else {
            seq![]
        };
        if !self.build_fn.as_str().is_empty() {
            steps.push(ProcessStep::RunBuild);
        }
        assert(steps@.map_values(|s: ProcessStep| s@) =~= with_sources + build);
        let ghost with_build = steps@.map_values(|s: ProcessStep| s@);
        if !self.package_fn.as_str().is_empty() {
            steps.push(ProcessStep::RunPackage);
        }
        assert(steps@.map_values(|s: ProcessStep| s@) =~= with_build + package);
        let ghost with_package = steps@.map_values(|s: ProcessStep| s@);
        steps.push(ProcessStep::Install(reason));
        steps.push(ProcessStep::RemoveBuildDir);
        assert(steps@.map_values(|s: ProcessStep| s@) =~= with_package + seq![
            ProcessStepView::Install(reason),
            ProcessStepView::RemoveBuildDir,
        ]);
        assert(!installed);
        steps
    }
}

/// What to do for a dependency that is not installed yet.
pub enum DependencyStep {
    /// Install it from the official repositories with pacman.
    Pacman(String),
    /// Fetch its PKGBUILD from the AUR and install it from there.
    Aur(String),
}

/// Chooses how dependency `dep` is installed, given whether pacman knows it.
pub fn dependency_step(dep: &str, in_pacman: bool) -> (r: DependencyStep)
    ensures
        in_pacman ==> (r matches DependencyStep::Pacman(n) && n@ == dep@),
        !in_pacman ==> (r matches DependencyStep::Aur(n) && n@ == dep@),
{
    if in_pacman {
        DependencyStep::Pacman(dep.to_owned())
    } else {
        DependencyStep::Aur(dep.to_owned())
    }
}

/// The text of the error for dependency `dep`, found neither by pacman nor
/// on the AUR, whose download failed for `reason`.
pub open spec fn dependency_not_found(dep: Seq<char>, reason: Seq<char>) -> Seq<char> {
    "dependency '"@ + dep + "' not found in pacman or AUR: "@ + reason
}

/// What the AUR download of dependency `dep` leads to: its PKGBUILD text,
/// or the error that it was found nowhere.
pub fn aur_dependency(dep: &str, fetched: Result<String, String>) -> (r: Result<String, String>)
    ensures
        match fetched {
            Ok(raw) => r matches Ok(t) && t@ == raw@,
            Err(e) => r matches Err(m) && m@ == dependency_not_found(dep@, e@),
        },
{
    match fetched {
        Ok(raw) => Ok(raw),
        Err(e) => {
            let mut out = chars_of("dependency '");
            push_all(&mut out, chars_of(dep).as_slice());
            push_all(&mut out, chars_of("' not found in pacman or AUR: ").as_slice());
            push_all(&mut out, chars_of(e.as_str()).as_slice());
            Err(string_of(out.as_slice()))
        },
    }
}

} // verus!
