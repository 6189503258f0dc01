//! Declared users: their login shell, password and group membership.
use vstd::prelude::*;

verus! {

/// A login shell.
pub enum Shell {
    Bash,
    Zsh,
    Fish,
    Sh,
    Custom(String),
}

/// The value of a `Shell`.
#[verifier::ext_equal]
pub enum ShellView {
    Bash,
    Zsh,
    Fish,
    Sh,
    Custom(Seq<char>),
}

impl View for Shell {
    type V = ShellView;

    open spec fn view(&self) -> ShellView {
        match self {
            Shell::Bash => ShellView::Bash,
            Shell::Zsh => ShellView::Zsh,
            Shell::Fish => ShellView::Fish,
            Shell::Sh => ShellView::Sh,
            Shell::Custom(p) => ShellView::Custom(p@),
        }
    }
}

impl ShellView {
    /// The path of the shell's executable.
    pub open spec fn path(self) -> Seq<char> {
        match self {
            ShellView::Bash => "/bin/bash"@,
            ShellView::Zsh => "/bin/zsh"@,
            ShellView::Fish => "/usr/bin/fish"@,
            ShellView::Sh => "/bin/sh"@,
            ShellView::Custom(p) => p,
        }
    }
}

impl Clone for Shell {
    fn clone(&self) -> (r: Self)
        ensures
            r@ == self@,
    {
        match self {
            Shell::Bash => Shell::Bash,
            Shell::Zsh => Shell::Zsh,
            Shell::Fish => Shell::Fish,
            Shell::Sh => Shell::Sh,
            Shell::Custom(p) => Shell::Custom(p.clone()),
        }
    }
}

impl Shell {
    /// The path of the shell's executable.
    pub fn as_path(&self) -> (p: &str)
        ensures
            p@ == self@.path(),
    {
        match self {
            Shell::Bash => "/bin/bash",
            Shell::Zsh => "/bin/zsh",
            Shell::Fish => "/usr/bin/fish",
            Shell::Sh => "/bin/sh",
            Shell::Custom(path) => path.as_str(),
        }
    }
}

/// How a user's password is set.
pub enum Password {
    Locked,
    Hashed(String),
}

/// The value of a `Password`.
#[verifier::ext_equal]
pub enum PasswordView {
    Locked,
    Hashed(Seq<char>),
}

impl View for Password {
    type V = PasswordView;

    open spec fn view(&self) -> PasswordView {
        match self {
            Password::Locked => PasswordView::Locked,
            Password::Hashed(h) => PasswordView::Hashed(h@),
        }
    }
}

impl Clone for Password {
    fn clone(&self) -> (r: Self)
        ensures
            r@ == self@,
    {
        match self {
            Password::Locked => Password::Locked,
            Password::Hashed(h) => Password::Hashed(h.clone()),
        }
    }
}

/// A declared user account.
pub struct User {
    pub name: String,
    pub uid: Option<u32>,
    pub primary_gid: Option<u32>,
    pub secondary_gids: Vec<u32>,
    pub home_dir: String,
    pub shell: Shell,
    pub password: Password,
}

/// The value of a `User`.
#[verifier::ext_equal]
pub struct UserView {
    pub name: Seq<char>,
    pub uid: Option<u32>,
    pub primary_gid: Option<u32>,
    pub secondary_gids: Seq<u32>,
    pub home_dir: Seq<char>,
    pub shell: ShellView,
    pub password: PasswordView,
}

impl View for User {
    type V = UserView;

    open spec fn view(&self) -> UserView {
        UserView {
            name: self.name@,
            uid: self.uid,
            primary_gid: self.primary_gid,
            secondary_gids: self.secondary_gids@,
            home_dir: self.home_dir@,
            shell: self.shell@,
            password: self.password@,
        }
    }
}

impl Clone for User {
    fn clone(&self) -> (r: Self)
        ensures
            r@ == self@,
    {
        let gids = self.secondary_gids.clone();
        assert(gids@ =~= self.secondary_gids@);
        User {
            name: self.name.clone(),
            uid: self.uid,
            primary_gid: self.primary_gid,
            secondary_gids: gids,
            home_dir: self.home_dir.clone(),
            shell: self.shell.clone(),
            password: self.password.clone(),
        }
    }
}

/// `u` with `gid` added to its secondary groups unless it is one already.
pub open spec fn with_group(u: UserView, gid: u32) -> UserView {
    UserView {
        secondary_gids: if u.secondary_gids.contains(gid) {
            u.secondary_gids
        } else {
            u.secondary_gids.push(gid)
        },
        ..u
    }
}

/// Holds for every id but `gid`.
pub open spec fn gid_other_than(gid: u32) -> spec_fn(u32) -> bool {
    |g: u32| g != gid
}

/// `u` with every occurrence of `gid` removed from its secondary groups.
pub open spec fn without_group(u: UserView, gid: u32) -> UserView {
    UserView { secondary_gids: u.secondary_gids.filter(gid_other_than(gid)), ..u }
}

/// Whether `u` is in group `gid`, as primary or secondary group.
pub open spec fn is_in_group(u: UserView, gid: u32) -> bool {
    u.primary_gid == Some(gid) || u.secondary_gids.contains(gid)
}

/// The home directory a user named `name` gets by default.
pub open spec fn default_home(name: Seq<char>) -> Seq<char> {
    "/home/"@ + name
}

impl User {
    /// A user named `name` with no fixed ids, no secondary groups, home
    /// `/home/<name>`, shell bash and a locked password.
    pub fn new(name: &str) -> (u: Self)
        ensures
            u@ == (UserView {
                name: name@,
                uid: None,
                primary_gid: None,
                secondary_gids: seq![],
                home_dir: default_home(name@),
                shell: ShellView::Bash,
                password: PasswordView::Locked,
            }),
    {
        let mut home_dir = String::from_str("/home/");
        home_dir.append(name);
        User {
            name: name.to_owned(),
            uid: None,
            primary_gid: None,
            secondary_gids: Vec::new(),
            home_dir,
            shell: Shell::Bash,
            password: Password::Locked,
        }
    }

    /// The same user with uid `uid`.
    pub fn uid(self, uid: u32) -> (u: Self)
        ensures
            u@ == (UserView { uid: Some(uid), ..self@ }),
    {
        let mut u = self;
        u.uid = Some(uid);
        u
    }

    /// The same user with primary group `gid`.
    pub fn primary_group(self, gid: u32) -> (u: Self)
        ensures
            u@ == (UserView { primary_gid: Some(gid), ..self@ }),
    {
        let mut u = self;
        u.primary_gid = Some(gid);
        u
    }

    /// The same user with shell `shell`.
    pub fn shell(self, shell: Shell) -> (u: Self)
        ensures
            u@ == (UserView { shell: shell@, ..self@ }),
    {
        let mut u = self;
        u.shell = shell;
        u
    }

    /// The same user with home directory `path`.
    pub fn home_dir(self, path: &str) -> (u: Self)
        ensures
            u@ == (UserView { home_dir: path@, ..self@ }),
    {
        let mut u = self;
        u.home_dir = path.to_owned();
        u
    }

    /// The same user with password `password`.
    pub fn password(self, password: Password) -> (u: Self)
        ensures
            u@ == (UserView { password: password@, ..self@ }),
    {
        let mut u = self;
        u.password = password;
        u
    }

    /// Adds `gid` to the secondary groups unless it is there already.
    pub fn add_group(&mut self, gid: u32)
        ensures
            final(self)@ == with_group(old(self)@, gid),
    {
        if !contains_u32(&self.secondary_gids, gid) {
            self.secondary_gids.push(gid);
        }
    }

    /// Removes every occurrence of `gid` from the secondary groups.
    pub fn remove_group(&mut self, gid: u32)
        ensures
            final(self)@ == without_group(old(self)@, gid),
    {
        let mut kept: Vec<u32> = Vec::new();
        let mut i: usize = 0;
        while i < self.secondary_gids.len()
            invariant
                i <= self.secondary_gids@.len(),
                kept@ == self.secondary_gids@.take(i as int).filter(gid_other_than(gid)),
            decreases self.secondary_gids@.len() - i,
        {
            let g = self.secondary_gids[i];
            proof {
                let pre = self.secondary_gids@.take(i as int);
                let post = self.secondary_gids@.take(i + 1);
                assert(post.drop_last() =~= pre);
                reveal_with_fuel(Seq::filter, 1);
            }
            if g != gid {
                kept.push(g);
            }
            i = i + 1;
        }
        assert(self.secondary_gids@.take(self.secondary_gids@.len() as int)
            =~= self.secondary_gids@);
        self.secondary_gids = kept;
    }

    /// Whether the user is in group `gid`, as primary or secondary group.
    pub fn in_group(&self, gid: u32) -> (b: bool)
        ensures
            b == is_in_group(self@, gid),
    {
        self.primary_gid == Some(gid) || contains_u32(&self.secondary_gids, gid)
    }
}

/// Whether `v` holds `x`.
pub fn contains_u32(v: &Vec<u32>, x: u32) -> (b: bool)
    ensures
        b == v@.contains(x),
{
    let mut i: usize = 0;
    while i < v.len()
        invariant
            i <= v@.len(),
            forall|j: int| 0 <= j < i ==> v@[j] != x,
        decreases v@.len() - i,
    {
        if v[i] == x {
            return true;
        }
        i = i + 1;
    }
    false
}

/// A user added to a group is in it.
pub proof fn law_added_group_holds(u: UserView, gid: u32)
    ensures
        is_in_group(with_group(u, gid), gid),
{
    if !u.secondary_gids.contains(gid) {
        assert(u.secondary_gids.push(gid)[u.secondary_gids.len() as int] == gid);
    }
}

/// Adding the same group twice is adding it once.
pub proof fn law_add_group_idempotent(u: UserView, gid: u32)
    ensures
        with_group(with_group(u, gid), gid) == with_group(u, gid),
{
    if !u.secondary_gids.contains(gid) {
        assert(u.secondary_gids.push(gid)[u.secondary_gids.len() as int] == gid);
    }
}

/// After removing a group, a user is in it only as primary group.
pub proof fn law_removed_group(u: UserView, gid: u32)
    ensures
        is_in_group(without_group(u, gid), gid) == (u.primary_gid == Some(gid)),
{
    let f = u.secondary_gids.filter(gid_other_than(gid));
    if f.contains(gid) {
        let i = choose|i: int| 0 <= i < f.len() && f[i] == gid;
        u.secondary_gids.lemma_filter_pred(gid_other_than(gid), i);
    }
}

} // verus!
