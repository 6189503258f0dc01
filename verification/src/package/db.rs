//! The database of installed packages.
use crate::access_control::group::{clone_strings, position_of, string_views};
use crate::text::{chars_of, compare_chars, seq_lt, Comparison};
use vstd::prelude::*;

verus! {

/// Why a package was installed.
#[derive(Clone, Copy, Debug, PartialEq, Eq, Structural)]
pub enum InstallReason {
    Explicit,
    Dependency,
}

/// Where a package comes from and how it is installed.
#[derive(Clone, Copy, Debug, PartialEq, Eq, Structural)]
pub enum PackageFormat {
    Deb,
    Tar,
    AUR,
    Rpm,
    Appimage,
    Pending,
}

/// Whether a package is installed, and how.
pub enum InstallState {
    Installed { version: String, release: u32, files: Vec<String>, reason: InstallReason },
    Pending,
}

/// The value of an `InstallState`.
#[verifier::ext_equal]
pub enum InstallStateView {
    Installed { version: Seq<char>, release: u32, files: Seq<Seq<char>>, reason: InstallReason },
    Pending,
}

impl View for InstallState {
    type V = InstallStateView;

    open spec fn view(&self) -> InstallStateView {
        match self {
            InstallState::Installed { version, release, files, reason } => InstallStateView::Installed {
                version: version@,
                release: *release,
                files: string_views(files@),
                reason: *reason,
            },
            InstallState::Pending => InstallStateView::Pending,
        }
    }
}

impl Clone for InstallState {
    fn clone(&self) -> (r: Self)
        ensures
            r@ == self@,
    {
        match self {
            InstallState::Installed { version, release, files, reason } => InstallState::Installed {
                version: version.clone(),
                release: *release,
                files: clone_strings(files),
                reason: *reason,
            },
            InstallState::Pending => InstallState::Pending,
        }
    }
}

/// A package known to the system.
pub struct Package {
    pub name: String,
    pub depends: Vec<String>,
    pub state: InstallState,
    pub format: PackageFormat,
}

/// The value of a `Package`.
#[verifier::ext_equal]
pub struct PackageView {
    pub name: Seq<char>,
    pub depends: Seq<Seq<char>>,
    pub state: InstallStateView,
    pub format: PackageFormat,
}

impl View for Package {
    type V = PackageView;

    open spec fn view(&self) -> PackageView {
        PackageView {
            name: self.name@,
            depends: string_views(self.depends@),
            state: self.state@,
            format: self.format,
        }
    }
}

impl Clone for Package {
    fn clone(&self) -> (r: Self)
        ensures
            r@ == self@,
    {
        Package {
            name: self.name.clone(),
            depends: clone_strings(&self.depends),
            state: self.state.clone(),
            format: self.format,
        }
    }
}

impl PackageView {
    /// The reason the package was installed, if it is installed.
    pub open spec fn reason(self) -> Option<InstallReason> {
        match self.state {
            InstallStateView::Installed { reason, .. } => Some(reason),
            InstallStateView::Pending => None,
        }
    }

    /// Whether the package is installed.
    pub open spec fn is_installed(self) -> bool {
        self.state is Installed
    }
}

impl Package {
    /// A package named `name` with no dependencies, not installed, whose
    /// format is not set.
    pub fn new(name: &str) -> (p: Self)
        ensures
            p@ == (PackageView {
                name: name@,
                depends: seq![],
                state: InstallStateView::Pending,
                format: PackageFormat::Pending,
            }),
    {
        let p = Package {
            name: name.to_owned(),
            depends: Vec::new(),
            state: InstallState::Pending,
            format: PackageFormat::Pending,
        };
        assert(p@.depends =~= seq![]);
        p
    }

    /// Whether the package is installed.
    pub fn is_installed(&self) -> (b: bool)
        ensures
            b == self@.is_installed(),
    {
        match self.state {
            InstallState::Installed { .. } => true,
            InstallState::Pending => false,
        }
    }

    /// The installed version, if the package is installed.
    pub fn version(&self) -> (v: Option<&str>)
        ensures
            match self@.state {
                InstallStateView::Installed { version, .. } => v is Some && v.unwrap()@ == version,
                InstallStateView::Pending => v is None,
            },
    {
        match &self.state {
            InstallState::Installed { version, .. } => Some(version.as_str()),
            InstallState::Pending => None,
        }
    }

    /// The installed files, if the package is installed.
    pub fn files(&self) -> (f: Option<&[String]>)
        ensures
            match self@.state {
                InstallStateView::Installed { files, .. } => f is Some && string_views(
                    f.unwrap()@,
                ) == files,
                InstallStateView::Pending => f is None,
            },
    {
        match &self.state {
            InstallState::Installed { files, .. } => Some(files.as_slice()),
            InstallState::Pending => None,
        }
    }

    /// The reason the package was installed, if it is installed.
    pub fn reason(&self) -> (r: Option<&InstallReason>)
        ensures
            match self@.reason() {
                Some(reason) => r is Some && *r.unwrap() == reason,
                None => r is None,
            },
    {
        match &self.state {
            InstallState::Installed { reason, .. } => Some(reason),
            InstallState::Pending => None,
        }
    }

    /// Records the package as installed.
    pub fn mark_installed(
        &mut self,
        version: String,
        release: u32,
        files: Vec<String>,
        reason: InstallReason,
    )
        ensures
            final(self)@ == (PackageView {
                state: InstallStateView::Installed {
                    version: version@,
                    release,
                    files: string_views(files@),
                    reason,
                },
                ..old(self)@
            }),
    {
        self.state = InstallState::Installed { version, release, files, reason };
    }
}

/// The values of a sequence of packages.
pub open spec fn package_views(s: Seq<Package>) -> Seq<PackageView> {
    s.map_values(|p: Package| p@)
}

/// The values of a sequence of package references.
pub open spec fn ref_views(s: Seq<&Package>) -> Seq<PackageView> {
    s.map_values(|p: &Package| p@)
}

/// The names of `s` strictly increase.
pub open spec fn names_sorted(s: Seq<PackageView>) -> bool {
    forall|i: int, j: int| 0 <= i < j < s.len() ==> seq_lt(#[trigger] s[i].name, #[trigger] s[j].name)
}

/// The packages of `s` keyed by name.
pub open spec fn package_map(s: Seq<PackageView>) -> Map<Seq<char>, PackageView>
    decreases s.len(),
{
    if s.len() == 0 {
        Map::empty()
    } else {
        package_map(s.drop_last()).insert(s.last().name, s.last())
    }
}

/// In a sequence sorted by name, a name is a key of the map exactly when
/// some element carries it, and maps to that element.
pub proof fn lemma_package_map(s: Seq<PackageView>)
    requires
        names_sorted(s),
    ensures
        forall|n: Seq<char>|
            #![trigger package_map(s).contains_key(n)]
            package_map(s).contains_key(n) <==> exists|i: int| 0 <= i < s.len() && s[i].name == n,
        forall|i: int| 0 <= i < s.len() ==> #[trigger] package_map(s)[s[i].name] == s[i],
        forall|i: int| 0 <= i < s.len() ==> package_map(s).contains_key(#[trigger] s[i].name),
    decreases s.len(),
{
    if s.len() > 0 {
        let t = s.drop_last();
        assert(names_sorted(t)) by {
            assert forall|i: int, j: int| 0 <= i < j < t.len() implies seq_lt(
                #[trigger] t[i].name,
                #[trigger] t[j].name,
            ) by {
                assert(t[i] == s[i] && t[j] == s[j]);
            }
        }
        lemma_package_map(t);
        assert forall|n: Seq<char>| package_map(s).contains_key(n) <==> exists|i: int|
            0 <= i < s.len() && s[i].name == n by {
            if package_map(t).contains_key(n) {
                let i = choose|i: int| 0 <= i < t.len() && t[i].name == n;
                assert(s[i] == t[i]);
            }
            if exists|i: int| 0 <= i < s.len() && s[i].name == n {
                let i = choose|i: int| 0 <= i < s.len() && s[i].name == n;
                if i < t.len() {
                    assert(t[i] == s[i]);
                }
            }
        }
        assert forall|i: int| 0 <= i < s.len() implies #[trigger] package_map(s)[s[i].name] == s[i] by {
            if i < t.len() {
                assert(t[i] == s[i]);
                assert(seq_lt(s[i].name, s[s.len() - 1].name));
                crate::text::lemma_seq_lt_irreflexive(s[i].name);
                assert(s[i].name != s.last().name);
            }
        }
    }
}

/// A strictly increasing sequence of names stays so after removing an element.
pub proof fn lemma_sorted_remove(s: Seq<PackageView>, k: int)
    requires
        names_sorted(s),
        0 <= k < s.len(),
    ensures
        names_sorted(s.remove(k)),
{
    let r = s.remove(k);
    assert forall|i: int, j: int| 0 <= i < j < r.len() implies seq_lt(
        #[trigger] r[i].name,
        #[trigger] r[j].name,
    ) by {
        let a = if i < k { i } else { i + 1 };
        let b = if j < k { j } else { j + 1 };
        assert(r[i] == s[a] && r[j] == s[b]);
    }
}


/// Some package of `s` lists `name` among its dependencies.
pub open spec fn is_depended_on(s: Seq<PackageView>, name: Seq<char>) -> bool {
    exists|j: int| 0 <= j < s.len() && (#[trigger] s[j]).depends.contains(name)
}

/// Which packages a query of the database keeps.
pub enum Selection<'a> {
    /// Installed explicitly.
    Explicit,
    /// Installed as a dependency.
    Dependency,
    /// Installed as a dependency, and no package depends on it.
    Orphan,
    /// Lists the given name among its dependencies.
    DependentOf(&'a str),
}

impl<'a> Selection<'a> {
    /// Whether the query keeps package `p` of the database holding `all`.
    pub open spec fn keeps(self, all: Seq<PackageView>, p: PackageView) -> bool {
        match self {
            Selection::Explicit => p.reason() == Some(InstallReason::Explicit),
            Selection::Dependency => p.reason() == Some(InstallReason::Dependency),
            Selection::Orphan => p.reason() == Some(InstallReason::Dependency)
                && !is_depended_on(all, p.name),
            Selection::DependentOf(n) => p.depends.contains(n@),
        }
    }
}

/// A database of packages keyed by name, kept in name order.
pub struct PackageDb {
    packages: Vec<Package>,
}

impl View for PackageDb {
    type V = Seq<PackageView>;

    closed spec fn view(&self) -> Seq<PackageView> {
        package_views(self.packages@)
    }
}

impl Default for PackageDb {
    fn default() -> (db: Self)
        ensures
            db@ == Seq::<PackageView>::empty(),
    {
        PackageDb::new()
    }
}

impl PackageDb {
    #[verifier::type_invariant]
    closed spec fn in_name_order(self) -> bool {
        names_sorted(package_views(self.packages@))
    }

    /// An empty database.
    pub fn new() -> (db: Self)
        ensures
            db@ == Seq::<PackageView>::empty(),
    {
        let db = PackageDb { packages: Vec::new() };
        assert(package_views(db.packages@) =~= Seq::<PackageView>::empty());
        db
    }

    /// The packages keyed by name, as a map.
    pub open spec fn as_map(&self) -> Map<Seq<char>, PackageView> {
        package_map(self@)
    }

    /// The packages, in name order.
    pub fn all(&self) -> (r: Vec<&Package>)
        ensures
            ref_views(r@) == self@,
            names_sorted(self@),
    {
        proof {
            use_type_invariant(self);
        }
        let mut r: Vec<&Package> = Vec::new();
        let mut i: usize = 0;
        while i < self.packages.len()
            invariant
                i <= self.packages@.len(),
                ref_views(r@) == package_views(self.packages@).take(i as int),
            decreases self.packages@.len() - i,
        {
            let ghost before = r@;
            let item = &self.packages[i];
            r.push(item);
            assert(ref_views(r@) =~= ref_views(before).push(self.packages@[i as int]@));
            assert(package_views(self.packages@).take(i + 1) =~= package_views(self.packages@).take(
                i as int,
            ).push(self.packages@[i as int]@));
            i = i + 1;
        }
        assert(package_views(self.packages@).take(self.packages@.len() as int) =~= package_views(
            self.packages@,
        ));
        r
    }

    /// The position of the package named `name`, if there is one.
    fn position(&self, name: &[char]) -> (r: Option<usize>)
        ensures
            r matches Some(i) ==> i < self@.len() && self@[i as int].name == name@,
            r is None ==> forall|i: int| 0 <= i < self@.len() ==> #[trigger] self@[i].name != name@,
    {
        let mut i: usize = 0;
        while i < self.packages.len()
            invariant
                i <= self.packages@.len(),
                forall|j: int| 0 <= j < i ==> #[trigger] self@[j].name != name@,
            decreases self.packages@.len() - i,
        {
            let here = chars_of(self.packages[i].name.as_str());
            if crate::text::eq_chars(here.as_slice(), name) {
                return Some(i);
            }
            i = i + 1;
        }
        None
    }

    /// The package named `name`, if there is one.
    pub fn get(&self, name: &str) -> (r: Option<&Package>)
        ensures
            match r {
                Some(p) => self.as_map().contains_key(name@) && p@ == self.as_map()[name@],
                None => !self.as_map().contains_key(name@),
            },
    {
        proof {
            use_type_invariant(self);
            lemma_package_map(self@);
        }
        let key = chars_of(name);
        match self.position(key.as_slice()) {
            Some(i) => Some(&self.packages[i]),
            None => None,
        }
    }

    /// Whether the package named `name` is in the database and installed.
    pub fn is_installed(&self, name: &str) -> (b: bool)
        ensures
            b == (self.as_map().contains_key(name@) && self.as_map()[name@].is_installed()),
    {
        match self.get(name) {
            Some(pkg) => pkg.is_installed(),
            None => false,
        }
    }

    /// Adds `pkg`, replacing the package of the same name if there is one.
    pub fn insert(&mut self, pkg: Package)
        ensures
            final(self).as_map() == old(self).as_map().insert(pkg@.name, pkg@),
            names_sorted(final(self)@),
            final(self)@.len() == old(self)@.len() + (if old(self).as_map().contains_key(pkg@.name) {
                0int
            } else {
                1int
            }),
    {
        proof {
            use_type_invariant(&*self);
        }
        let mut v: Vec<Package> = Vec::new();
        std::mem::swap(&mut v, &mut self.packages);
        let ghost s = package_views(v@);
        assert(s == old(self)@);
        let name = chars_of(pkg.name.as_str());
        let mut i: usize = 0;
        let mut found = false;
        while i < v.len()
            invariant_except_break
                !found,
            invariant
                i <= v@.len(),
                s == package_views(v@),
                names_sorted(s),
                name@ == pkg@.name,
                forall|j: int| 0 <= j < i ==> seq_lt(#[trigger] s[j].name, name@),
            ensures
                found ==> i < s.len() && s[i as int].name == name@,
                !found ==> i == s.len() || seq_lt(name@, s[i as int].name),
            decreases v@.len() - i,
        {
            let here = chars_of(v[i].name.as_str());
            assert(s[i as int].name == here@);
            match compare_chars(here.as_slice(), name.as_slice()) {
                Comparison::Less => {},
                Comparison::Equal => {
                    found = true;
                    break;
                },
                Comparison::Greater => break,
            }
            i = i + 1;
        }
        let ghost key = pkg@.name;
        let ghost entry = pkg@;
        proof {
            lemma_package_map(s);
        }
        if found {
            v.set(i, pkg);
        } else {
            v.insert(i, pkg);
        }
        let ghost t = package_views(v@);
        proof {
            if found {
                assert(t =~= s.update(i as int, entry));
            } else {
                assert(t =~= s.insert(i as int, entry));
            }
            assert forall|a: int, b: int| 0 <= a < b < t.len() implies seq_lt(
                #[trigger] t[a].name,
                #[trigger] t[b].name,
            ) by {
                lemma_insert_order(s, t, entry, i as int, found, a, b);
            }
            lemma_package_map(t);
            assert(package_map(t) =~= package_map(s).insert(key, entry)) by {
                assert forall|n: Seq<char>| #![trigger package_map(t).contains_key(n)]
                    package_map(t).contains_key(n) == package_map(s).insert(key, entry).contains_key(n) by {
                    if package_map(t).contains_key(n) {
                        let j = choose|j: int| 0 <= j < t.len() && t[j].name == n;
                        if n != key {
                            let k = if found || j < i { j } else { j - 1 };
                            assert(t[j] == s[k]);
                        }
                    }
                    if package_map(s).contains_key(n) {
                        let j = choose|j: int| 0 <= j < s.len() && s[j].name == n;
                        if found && j == i {
                        } else {
                            let k = if found || j < i { j } else { j + 1 };
                            assert(t[k] == s[j]);
                        }
                    }
                    if n == key {
                        assert(t[i as int] == entry);
                    }
                }
                assert forall|n: Seq<char>| #[trigger] package_map(t).contains_key(n) implies package_map(t)[n]
                    == package_map(s).insert(key, entry)[n] by {
                    let j = choose|j: int| 0 <= j < t.len() && t[j].name == n;
                    if n == key {
                        if j != i {
                            assert(t[i as int].name == key);
                            if j < i {
                                assert(seq_lt(t[j].name, t[i as int].name));
                            } else {
                                assert(seq_lt(t[i as int].name, t[j].name));
                            }
                            crate::text::lemma_seq_lt_irreflexive(key);
                        }
                    } else {
                        let k = if found || j < i { j } else { j - 1 };
                        assert(t[j] == s[k]);
                    }
                }
            }
            law_insert_count(s, t, entry);
        }
        self.packages = v;
    }

    /// Removes the package named `name` and hands it back, if there is one.
    pub fn remove(&mut self, name: &str) -> (r: Option<Package>)
        ensures
            match r {
                Some(p) => old(self).as_map().contains_key(name@) && p@ == old(self).as_map()[name@],
                None => !old(self).as_map().contains_key(name@),
            },
            final(self).as_map() == old(self).as_map().remove(name@),
            names_sorted(final(self)@),
    {
        proof {
            use_type_invariant(&*self);
            lemma_package_map(self@);
        }
        let key = chars_of(name);
        match self.position(key.as_slice()) {
            None => {
                assert(old(self).as_map().remove(name@) =~= old(self).as_map());
                None
            },
            Some(i) => {
                let mut v: Vec<Package> = Vec::new();
                std::mem::swap(&mut v, &mut self.packages);
                let ghost s = package_views(v@);
                let p = v.remove(i);
                let ghost t = package_views(v@);
                proof {
                    assert(t =~= s.remove(i as int));
                    lemma_sorted_remove(s, i as int);
                    lemma_package_map(t);
                    assert(package_map(t) =~= package_map(s).remove(name@)) by {
                        assert forall|n: Seq<char>| #![trigger package_map(t).contains_key(n)]
                            package_map(t).contains_key(n) == package_map(s).remove(name@).contains_key(n) by {
                            if package_map(t).contains_key(n) {
                                let j = choose|j: int| 0 <= j < t.len() && t[j].name == n;
                                let k = if j < i { j } else { j + 1 };
                                assert(t[j] == s[k]);
                                if k < i {
                                    assert(seq_lt(s[k].name, s[i as int].name));
                                } else {
                                    assert(seq_lt(s[i as int].name, s[k].name));
                                }
                                crate::text::lemma_seq_lt_irreflexive(n);
                            }
                            if package_map(s).contains_key(n) && n != name@ {
                                let j = choose|j: int| 0 <= j < s.len() && s[j].name == n;
                                let k = if j < i { j } else { j - 1 };
                                assert(t[k] == s[j]);
                            }
                        }
                        assert forall|n: Seq<char>| #[trigger] package_map(t).contains_key(n) implies package_map(t)[n]
                            == package_map(s).remove(name@)[n] by {
                            let j = choose|j: int| 0 <= j < t.len() && t[j].name == n;
                            let k = if j < i { j } else { j + 1 };
                            assert(t[j] == s[k]);
                        }
                    }
                }
                self.packages = v;
                Some(p)
            },
        }
    }
    /// Whether some package of the database lists `name` among its dependencies.
    fn depended_on(&self, name: &str) -> (b: bool)
        ensures
            b == is_depended_on(self@, name@),
    {
        let mut j: usize = 0;
        while j < self.packages.len()
            invariant
                j <= self.packages@.len(),
                forall|k: int| 0 <= k < j ==> !(#[trigger] self@[k]).depends.contains(name@),
            decreases self.packages@.len() - j,
        {
            if position_of(&self.packages[j].depends, name).is_some() {
                assert(self@[j as int].depends.contains(name@));
                return true;
            }
            j = j + 1;
        }
        false
    }

    /// The packages that `sel` keeps, in name order.
    fn select(&self, sel: Selection) -> (r: Vec<&Package>)
        ensures
            ref_views(r@) == self@.filter(|p: PackageView| sel.keeps(self@, p)),
    {
        let ghost pred = |p: PackageView| sel.keeps(self@, p);
        let mut r: Vec<&Package> = Vec::new();
        let mut i: usize = 0;
        while i < self.packages.len()
            invariant
                i <= self.packages@.len(),
                pred == (|p: PackageView| sel.keeps(self@, p)),
                ref_views(r@) == self@.take(i as int).filter(pred),
            decreases self.packages@.len() - i,
        {
            let pkg = &self.packages[i];
            let keep = match sel {
                Selection::Explicit => match pkg.reason() {
                    Some(InstallReason::Explicit) => true,
                    _ => false,
                },
                Selection::Dependency => match pkg.reason() {
                    Some(InstallReason::Dependency) => true,
                    _ => false,
                },
                Selection::Orphan => match pkg.reason() {
                    Some(InstallReason::Dependency) => !self.depended_on(pkg.name.as_str()),
                    _ => false,
                },
                Selection::DependentOf(n) => position_of(&pkg.depends, n).is_some(),
            };
            assert(keep == pred(self@[i as int]));
            proof {
                let pre = self@.take(i as int);
                let post = self@.take(i + 1);
                assert(post.drop_last() =~= pre);
                reveal_with_fuel(Seq::filter, 1);
            }
            let ghost before = r@;
            if keep {
                r.push(pkg);
                assert(ref_views(r@) =~= ref_views(before).push(self@[i as int]));
            }
            i = i + 1;
        }
        assert(self@.take(self.packages@.len() as int) =~= self@);
        r
    }

    /// The packages installed explicitly, in name order.
    pub fn explicit(&self) -> (r: Vec<&Package>)
        ensures
            ref_views(r@) == self@.filter(
                |p: PackageView| Selection::Explicit.keeps(self@, p),
            ),
    {
        self.select(Selection::Explicit)
    }

    /// The packages installed as dependencies, in name order.
    pub fn dependencies(&self) -> (r: Vec<&Package>)
        ensures
            ref_views(r@) == self@.filter(
                |p: PackageView| Selection::Dependency.keeps(self@, p),
            ),
    {
        self.select(Selection::Dependency)
    }

    /// The packages installed as dependencies that no package depends on,
    /// in name order.
    pub fn orphans(&self) -> (r: Vec<&Package>)
        ensures
            ref_views(r@) == self@.filter(|p: PackageView| Selection::Orphan.keeps(self@, p)),
    {
        self.select(Selection::Orphan)
    }

    /// The packages that list `name` among their dependencies, in name order.
    pub fn dependents_of(&self, name: &str) -> (r: Vec<&Package>)
        ensures
            ref_views(r@) == self@.filter(
                |p: PackageView| Selection::DependentOf(name).keeps(self@, p),
            ),
    {
        self.select(Selection::DependentOf(name))
    }

    /// Whether no package lists `name` among its dependencies.
    pub fn safe_to_remove(&self, name: &str) -> (b: bool)
        ensures
            b == !is_depended_on(self@, name@),
    {
        let dependents = self.dependents_of(name);
        proof {
            let pred = |p: PackageView| Selection::DependentOf(name).keeps(self@, p);
            lemma_filter_empty(self@, pred);
        }
        dependents.len() == 0
    }
}

/// A filter keeps nothing exactly when no element satisfies the predicate.
pub proof fn lemma_filter_empty(s: Seq<PackageView>, pred: spec_fn(PackageView) -> bool)
    ensures
        (s.filter(pred).len() == 0) == !(exists|j: int| 0 <= j < s.len() && pred(#[trigger] s[j])),
    decreases s.len(),
{
    reveal_with_fuel(Seq::filter, 1);
    if s.len() > 0 {
        lemma_filter_empty(s.drop_last(), pred);
        let t = s.drop_last();
        if exists|j: int| 0 <= j < t.len() && pred(#[trigger] t[j]) {
            let j = choose|j: int| 0 <= j < t.len() && pred(#[trigger] t[j]);
            assert(s[j] == t[j]);
        }
        if exists|j: int| 0 <= j < s.len() && pred(#[trigger] s[j]) {
            let j = choose|j: int| 0 <= j < s.len() && pred(#[trigger] s[j]);
            if j < t.len() {
                assert(t[j] == s[j]);
            }
        }
    }
}

/// In a sequence sorted by name, inserting (or replacing) at the position
/// found by scanning keeps it sorted.
proof fn lemma_insert_order(
    s: Seq<PackageView>,
    t: Seq<PackageView>,
    entry: PackageView,
    i: int,
    found: bool,
    a: int,
    b: int,
)
    requires
        names_sorted(s),
        0 <= i <= s.len(),
        forall|j: int| 0 <= j < i ==> seq_lt(#[trigger] s[j].name, entry.name),
        found ==> i < s.len() && s[i].name == entry.name && t == s.update(i, entry),
        !found ==> t == s.insert(i, entry) && (i < s.len() ==> seq_lt(entry.name, s[i].name)),
        0 <= a < b < t.len(),
    ensures
        seq_lt(t[a].name, t[b].name),
{
    if found {
        if a == i {
            assert(seq_lt(s[a].name, s[b].name));
        } else if b == i {
            assert(seq_lt(s[a].name, entry.name));
        } else {
            assert(seq_lt(s[a].name, s[b].name));
        }
    } else {
        if b < i {
            assert(seq_lt(s[a].name, s[b].name));
        } else if b == i {
            assert(t[b] == entry);
            assert(seq_lt(s[a].name, entry.name));
        } else if a == i {
            assert(t[b] == s[b - 1]);
            if b - 1 > i {
                assert(seq_lt(s[i].name, s[b - 1].name));
                crate::text::lemma_seq_lt_transitive(entry.name, s[i].name, s[b - 1].name);
            }
        } else if a < i {
            assert(t[b] == s[b - 1]);
            assert(seq_lt(s[a].name, s[b - 1].name));
        } else {
            assert(t[a] == s[a - 1] && t[b] == s[b - 1]);
            assert(seq_lt(s[a - 1].name, s[b - 1].name));
        }
    }
}

/// After inserting a package, looking its name up gives it, and every other
/// name gives what it gave before.
pub proof fn law_get_after_insert(before: Map<Seq<char>, PackageView>, pkg: PackageView, other: Seq<char>)
    requires
        other != pkg.name,
    ensures
        before.insert(pkg.name, pkg).contains_key(pkg.name),
        before.insert(pkg.name, pkg)[pkg.name] == pkg,
        before.insert(pkg.name, pkg).contains_key(other) == before.contains_key(other),
        before.contains_key(other) ==> before.insert(pkg.name, pkg)[other] == before[other],
{
}

/// A database sorted by name has as many packages as its map has keys.
pub proof fn lemma_package_map_len(s: Seq<PackageView>)
    requires
        names_sorted(s),
    ensures
        package_map(s).dom().finite(),
        package_map(s).dom().len() == s.len(),
    decreases s.len(),
{
    if s.len() > 0 {
        let init = s.drop_last();
        assert(names_sorted(init)) by {
            assert forall|i: int, j: int| 0 <= i < j < init.len() implies seq_lt(
                #[trigger] init[i].name,
                #[trigger] init[j].name,
            ) by {
                assert(init[i] == s[i] && init[j] == s[j]);
            }
        }
        lemma_package_map_len(init);
        lemma_package_map(init);
        if package_map(init).contains_key(s.last().name) {
            let i = choose|i: int| 0 <= i < init.len() && init[i].name == s.last().name;
            assert(init[i] == s[i]);
            assert(seq_lt(s[i].name, s[s.len() - 1].name));
            crate::text::lemma_seq_lt_irreflexive(s.last().name);
        }
        assert(package_map(s).dom() =~= package_map(init).dom().insert(s.last().name));
    }
}

/// Inserting a package into a database adds one package exactly when no
/// package had its name; otherwise the count stays.
pub proof fn law_insert_count(before: Seq<PackageView>, after: Seq<PackageView>, pkg: PackageView)
    requires
        names_sorted(before),
        names_sorted(after),
        package_map(after) == package_map(before).insert(pkg.name, pkg),
    ensures
        after.len() == before.len() + (if package_map(before).contains_key(pkg.name) {
            0int
        } else {
            1int
        }),
{
    lemma_package_map_len(before);
    lemma_package_map_len(after);
    assert(package_map(after).dom() =~= package_map(before).dom().insert(pkg.name));
}

/// Removing a package just inserted hands it back and leaves no package of
/// that name.
pub proof fn law_remove_after_insert(before: Map<Seq<char>, PackageView>, pkg: PackageView)
    ensures
        before.insert(pkg.name, pkg)[pkg.name] == pkg,
        !before.insert(pkg.name, pkg).remove(pkg.name).contains_key(pkg.name),
        before.insert(pkg.name, pkg).remove(pkg.name) == before.remove(pkg.name),
{
    assert(before.insert(pkg.name, pkg).remove(pkg.name) =~= before.remove(pkg.name));
}

/// No two packages of the database share a name.
pub proof fn law_names_unique(s: Seq<PackageView>)
    requires
        names_sorted(s),
    ensures
        forall|i: int, j: int| 0 <= i < s.len() && 0 <= j < s.len() && i != j ==> s[i].name != s[j].name,
{
    assert forall|i: int, j: int| 0 <= i < s.len() && 0 <= j < s.len() && i != j implies s[i].name
        != s[j].name by {
        crate::text::lemma_seq_lt_irreflexive(s[i].name);
        if i < j {
            assert(seq_lt(s[i].name, s[j].name));
        } else {
            assert(seq_lt(s[j].name, s[i].name));
        }
    }
}

/// A package of the database is an orphan exactly when it is installed as a
/// dependency and no package of the database, whatever its reason or state,
/// lists its name among its dependencies.
pub proof fn law_orphans_exact(s: Seq<PackageView>, p: PackageView)
    ensures
        s.filter(|q: PackageView| Selection::Orphan.keeps(s, q)).contains(p) <==> {
            &&& s.contains(p)
            &&& p.state matches InstallStateView::Installed { reason, .. }
            &&& reason == InstallReason::Dependency
            &&& forall|j: int| 0 <= j < s.len() ==> !(#[trigger] s[j]).depends.contains(p.name)
        },
{
    let pred = |q: PackageView| Selection::Orphan.keeps(s, q);
    let f = s.filter(pred);
    if f.contains(p) {
        let i = choose|i: int| 0 <= i < f.len() && f[i] == p;
        s.lemma_filter_pred(pred, i);
        s.lemma_filter_contains_rev(pred, p);
    }
    if s.contains(p) && pred(p) {
        let i = choose|i: int| 0 <= i < s.len() && s[i] == p;
        s.lemma_filter_contains(pred, i);
    }
    if s.contains(p) && (p.state matches InstallStateView::Installed { reason, .. } && reason
        == InstallReason::Dependency) && forall|j: int|
        0 <= j < s.len() ==> !(#[trigger] s[j]).depends.contains(p.name) {
        assert(pred(p));
    }
}

/// Every orphan is a package installed as a dependency.
pub proof fn law_orphans_are_dependencies(s: Seq<PackageView>, i: int)
    requires
        0 <= i < s.filter(|p: PackageView| Selection::Orphan.keeps(s, p)).len(),
    ensures
        Selection::Dependency.keeps(s, s.filter(|p: PackageView| Selection::Orphan.keeps(s, p))[i]),
{
    s.lemma_filter_pred(|p: PackageView| Selection::Orphan.keeps(s, p), i);
}

/// An installed package is either explicit or a dependency, never both; a
/// package that is not installed is neither.
pub proof fn law_reasons_partition(all: Seq<PackageView>, p: PackageView)
    ensures
        Selection::Explicit.keeps(all, p) || Selection::Dependency.keeps(all, p) <==> p.is_installed(),
        !(Selection::Explicit.keeps(all, p) && Selection::Dependency.keeps(all, p)),
{
}

/// A package can be removed safely exactly when it has no dependents.
pub proof fn law_safe_to_remove_iff_no_dependents(s: Seq<PackageView>, pred: spec_fn(PackageView) -> bool, name: Seq<char>)
    requires
        forall|p: PackageView| #[trigger] pred(p) == p.depends.contains(name),
    ensures
        (s.filter(pred).len() == 0) == !is_depended_on(s, name),
{
    lemma_filter_empty(s, pred);
}

} // verus!
