//! A declarative system configuration: packages, users, groups and the
//! hostname of a machine, and the steps that bring the machine to it.
pub mod access_control;
pub mod config;
pub mod networking;
pub mod package;
pub mod text;

use crate::access_control::group::{Group, GroupView};
use crate::access_control::user::{User, UserView};
use crate::package::db::{Package, PackageFormat, PackageView};
use vstd::prelude::*;

verus! {

/// A machine's declared configuration.
pub struct System {
    packages: Vec<Package>,
    hostname: String,
    users: Vec<User>,
    groups: Vec<Group>,
}

/// The value of a `System`.
pub struct SystemView {
    pub packages: Seq<PackageView>,
    pub hostname: Seq<char>,
    pub users: Seq<UserView>,
    pub groups: Seq<GroupView>,
}

impl View for System {
    type V = SystemView;

    closed spec fn view(&self) -> SystemView {
        SystemView {
            packages: self.packages@.map_values(|p: Package| p@),
            hostname: self.hostname@,
            users: self.users@.map_values(|u: User| u@),
            groups: self.groups@.map_values(|g: Group| g@),
        }
    }
}

/// Why building a system stops.
#[derive(Clone, Copy, Debug, PartialEq, Eq, Structural)]
pub enum BuildError {
    /// A package's format is not set.
    FormatNotSet,
}

impl BuildError {
    /// The text of the error.
    pub fn message(&self) -> (s: String)
        ensures
            s@ == "Not set"@,
    {
        String::from_str("Not set")
    }
}

/// One step of building a system.
pub enum BuildStep {
    /// Give the declared users and groups their ids.
    ResolveIds,
    /// Write the groups to the account files.
    ApplyGroups,
    /// Write the users to the account files.
    ApplyUsers,
    /// Fetch, build and install the named package from the AUR.
    InstallFromAur(String),
    /// Stop with an error.
    Fail(BuildError),
    /// Set the machine's hostname.
    SetHostname(String),
}

/// The value of a `BuildStep`.
pub enum BuildStepView {
    ResolveIds,
    ApplyGroups,
    ApplyUsers,
    InstallFromAur(Seq<char>),
    Fail(BuildError),
    SetHostname(Seq<char>),
}

impl View for BuildStep {
    type V = BuildStepView;

    open spec fn view(&self) -> BuildStepView {
        match self {
            BuildStep::ResolveIds => BuildStepView::ResolveIds,
            BuildStep::ApplyGroups => BuildStepView::ApplyGroups,
            BuildStep::ApplyUsers => BuildStepView::ApplyUsers,
            BuildStep::InstallFromAur(n) => BuildStepView::InstallFromAur(n@),
            BuildStep::Fail(e) => BuildStepView::Fail(*e),
            BuildStep::SetHostname(h) => BuildStepView::SetHostname(h@),
        }
    }
}

/// The steps for the packages `ps`, in order, and whether they stop: an
/// AUR package is installed from the AUR, one whose format is not set
/// stops the build, the other formats need nothing.
pub open spec fn package_steps(ps: Seq<PackageView>) -> (Seq<BuildStepView>, bool)
    decreases ps.len(),
{
    if ps.len() == 0 {
        (seq![], false)
    } else {
        let (steps, stopped) = package_steps(ps.drop_last());
        if stopped {
            (steps, true)
        } else {
            match ps.last().format {
                PackageFormat::AUR => (steps.push(BuildStepView::InstallFromAur(ps.last().name)), false),
                PackageFormat::Pending => (
                    steps.push(BuildStepView::Fail(BuildError::FormatNotSet)),
                    true,
                ),
                _ => (steps, false),
            }
        }
    }
}

/// The steps that build system `v`: ids, groups, users, then the packages
/// in order, then the hostname unless a package stopped the build.
pub open spec fn build_steps(v: SystemView) -> Seq<BuildStepView> {
    let (steps, stopped) = package_steps(v.packages);
    seq![BuildStepView::ResolveIds, BuildStepView::ApplyGroups, BuildStepView::ApplyUsers] + steps
        + if stopped {
        seq![]
    } else {
        seq![BuildStepView::SetHostname(v.hostname)]
    }
}

impl System {
    /// A system with the given packages, hostname, users and groups.
    pub fn new(packages: Vec<Package>, hostname: String, users: Vec<User>, groups: Vec<Group>) -> (s:
        Self)
        ensures
            s@ == (SystemView {
                packages: packages@.map_values(|p: Package| p@),
                hostname: hostname@,
                users: users@.map_values(|u: User| u@),
                groups: groups@.map_values(|g: Group| g@),
            }),
    {
        System { packages, hostname, users, groups }
    }

    /// The declared packages.
    pub fn packages(&self) -> (r: &[Package])
        ensures
            r@.map_values(|p: Package| p@) == self@.packages,
    {
        self.packages.as_slice()
    }

    /// The declared hostname.
    pub fn hostname(&self) -> (r: &str)
        ensures
            r@ == self@.hostname,
    {
        self.hostname.as_str()
    }

    /// The declared users.
    pub fn users(&self) -> (r: &[User])
        ensures
            r@.map_values(|u: User| u@) == self@.users,
    {
        self.users.as_slice()
    }

    /// The declared groups.
    pub fn groups(&self) -> (r: &[Group])
        ensures
            r@.map_values(|g: Group| g@) == self@.groups,
    {
        self.groups.as_slice()
    }

    /// The steps that build this system, in the order they are taken.
    pub fn build(&self) -> (r: Vec<BuildStep>)
        ensures
            r@.map_values(|s: BuildStep| s@) == build_steps(self@),
    {
        let ghost ps = self@.packages;
        let mut steps: Vec<BuildStep> = Vec::new();
        steps.push(BuildStep::ResolveIds);
        steps.push(BuildStep::ApplyGroups);
        steps.push(BuildStep::ApplyUsers);
        let ghost head = seq![BuildStepView::ResolveIds, BuildStepView::ApplyGroups, BuildStepView::ApplyUsers];
        assert(steps@.map_values(|s: BuildStep| s@) =~= head);
        assert(ps.take(0) =~= seq![]);
        let mut i: usize = 0;
        let mut stopped = false;
        while i < self.packages.len() && !stopped
            invariant
                i <= self.packages@.len(),
                ps == self@.packages,
                ps == self.packages@.map_values(|p: Package| p@),
                head == seq![BuildStepView::ResolveIds, BuildStepView::ApplyGroups, BuildStepView::ApplyUsers],
                package_steps(ps.take(i as int)).1 == stopped,
                steps@.map_values(|s: BuildStep| s@) == head + package_steps(ps.take(i as int)).0,
            decreases self.packages@.len() - i,
        {
            let pkg = &self.packages[i];
            assert(ps[i as int] == pkg@);
            assert(ps.take(i + 1).drop_last() =~= ps.take(i as int));
            let ghost before = steps@.map_values(|s: BuildStep| s@);
            match pkg.format {
                PackageFormat::AUR => {
                    steps.push(BuildStep::InstallFromAur(pkg.name.clone()));
                    assert(steps@.map_values(|s: BuildStep| s@) =~= before.push(
                        BuildStepView::InstallFromAur(pkg@.name),
                    ));
                },
                PackageFormat::Pending => {
                    steps.push(BuildStep::Fail(BuildError::FormatNotSet));
                    assert(steps@.map_values(|s: BuildStep| s@) =~= before.push(
                        BuildStepView::Fail(BuildError::FormatNotSet),
                    ));
                    stopped = true;
                },
                _ => {},
            }
            i = i + 1;
        }
        proof {
            lemma_package_steps_stop(ps, i as int);
        }
        if !stopped {
            let ghost before = steps@.map_values(|s: BuildStep| s@);
            steps.push(BuildStep::SetHostname(self.hostname.clone()));
            assert(steps@.map_values(|s: BuildStep| s@) =~= before.push(
                BuildStepView::SetHostname(self@.hostname),
            ));
        } else {
            assert(steps@.map_values(|s: BuildStep| s@) =~= head + package_steps(ps).0 + seq![]);
        }
        steps
    }
}

/// Once a prefix of the packages stops the build, the later ones add no step.
pub proof fn lemma_package_steps_stop(ps: Seq<PackageView>, n: int)
    requires
        0 <= n <= ps.len(),
        n < ps.len() ==> package_steps(ps.take(n)).1,
    ensures
        package_steps(ps) == package_steps(ps.take(n)),
    decreases ps.len() - n,
{
    if n < ps.len() {
        assert(ps.take(n + 1).drop_last() =~= ps.take(n));
        lemma_package_steps_stop(ps, n + 1);
    } else {
        assert(ps.take(n) =~= ps);
    }
}

/// The packages stop the build exactly when one of them has no format set.
pub proof fn lemma_package_steps_stopped(ps: Seq<PackageView>)
    ensures
        package_steps(ps).1 <==> exists|i: int|
            0 <= i < ps.len() && (#[trigger] ps[i]).format == PackageFormat::Pending,
    decreases ps.len(),
{
    if ps.len() > 0 {
        let init = ps.drop_last();
        lemma_package_steps_stopped(init);
        if exists|i: int| 0 <= i < init.len() && (#[trigger] init[i]).format == PackageFormat::Pending {
            let i = choose|i: int| 0 <= i < init.len() && (#[trigger] init[i]).format == PackageFormat::Pending;
            assert(ps[i] == init[i]);
        }
        if exists|i: int| 0 <= i < ps.len() && (#[trigger] ps[i]).format == PackageFormat::Pending {
            let i = choose|i: int| 0 <= i < ps.len() && (#[trigger] ps[i]).format == PackageFormat::Pending;
            if i < init.len() {
                assert(init[i] == ps[i]);
            }
        }
    }
}

/// Building a system sets its hostname, as the last step, exactly when
/// every package has its format set; otherwise the last step is the
/// failure of the first package without one.
pub proof fn law_hostname_set_iff_formats_set(v: SystemView)
    ensures
        build_steps(v).last() == BuildStepView::SetHostname(v.hostname) <==> forall|i: int|
            0 <= i < v.packages.len() ==> (#[trigger] v.packages[i]).format != PackageFormat::Pending,
        build_steps(v).last() != BuildStepView::SetHostname(v.hostname) ==> build_steps(v).last()
            == BuildStepView::Fail(BuildError::FormatNotSet),
{
    lemma_package_steps_stopped(v.packages);
    lemma_package_steps_end(v.packages);
}

/// Stopped package steps end with the failure.
proof fn lemma_package_steps_end(ps: Seq<PackageView>)
    ensures
        package_steps(ps).1 ==> package_steps(ps).0.len() > 0 && package_steps(ps).0.last()
            == BuildStepView::Fail(BuildError::FormatNotSet),
    decreases ps.len(),
{
    if ps.len() > 0 {
        lemma_package_steps_end(ps.drop_last());
    }
}

} // verus!
