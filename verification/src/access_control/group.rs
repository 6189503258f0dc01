//! Declared groups and their members.
use vstd::prelude::*;

verus! {

/// A declared group.
pub struct Group {
    pub name: String,
    pub gid: Option<u32>,
    members: Vec<String>,
}

/// The value of a `Group`.
#[verifier::ext_equal]
pub struct GroupView {
    pub name: Seq<char>,
    pub gid: Option<u32>,
    pub members: Seq<Seq<char>>,
}

/// The character sequences of a sequence of strings.
pub open spec fn string_views(v: Seq<String>) -> Seq<Seq<char>> {
    v.map_values(|s: String| s@)
}

/// `g` with `name` added to its members unless it is one already.
pub open spec fn with_member(g: GroupView, name: Seq<char>) -> GroupView {
    GroupView {
        members: if g.members.contains(name) {
            g.members
        } else {
            g.members.push(name)
        },
        ..g
    }
}

/// `g` with every occurrence of `name` removed from its members.
pub open spec fn without_member(g: GroupView, name: Seq<char>) -> GroupView {
    GroupView { members: g.members.filter(other_than(name)), ..g }
}

/// Holds for every sequence but `name`.
pub open spec fn other_than(name: Seq<char>) -> spec_fn(Seq<char>) -> bool {
    |m: Seq<char>| m != name
}

impl View for Group {
    type V = GroupView;

    closed spec fn view(&self) -> GroupView {
        GroupView { name: self.name@, gid: self.gid, members: string_views(self.members@) }
    }
}

impl Clone for Group {
    fn clone(&self) -> (r: Self)
        ensures
            r@ == self@,
    {
        let members = clone_strings(&self.members);
        Group { name: self.name.clone(), gid: self.gid, members }
    }
}

/// A copy of `v`.
pub fn clone_strings(v: &Vec<String>) -> (r: Vec<String>)
    ensures
        string_views(r@) == string_views(v@),
{
    let mut r: Vec<String> = Vec::new();
    let mut i: usize = 0;
    while i < v.len()
        invariant
            i <= v@.len(),
            string_views(r@) == string_views(v@.take(i as int)),
        decreases v@.len() - i,
    {
        let ghost before = r@;
        let c = v[i].clone();
        r.push(c);
        assert(string_views(r@) =~= string_views(before).push(v@[i as int]@));
        assert(string_views(v@.take(i + 1)) =~= string_views(v@.take(i as int)).push(
            v@[i as int]@,
        ));
        i = i + 1;
    }
    assert(v@.take(v@.len() as int) =~= v@);
    r
}

/// The position of `name` in `v`, if it occurs there.
pub fn position_of(v: &Vec<String>, name: &str) -> (r: Option<usize>)
    ensures
        r matches Some(i) ==> i < v@.len() && v@[i as int]@ == name@,
        r is Some ==> string_views(v@).contains(name@),
        r is None ==> !string_views(v@).contains(name@),
{
    let mut i: usize = 0;
    while i < v.len()
        invariant
            i <= v@.len(),
            forall|j: int| 0 <= j < i ==> v@[j]@ != name@,
        decreases v@.len() - i,
    {
        if crate::text::eq_chars(
            crate::text::chars_of(v[i].as_str()).as_slice(),
            crate::text::chars_of(name).as_slice(),
        ) {
            assert(string_views(v@)[i as int] == name@);
            return Some(i);
        }
        i = i + 1;
    }
    proof {
        if string_views(v@).contains(name@) {
            let j = choose|j: int| 0 <= j < string_views(v@).len() && string_views(v@)[j] == name@;
            assert(v@[j]@ == name@);
        }
    }
    None
}

impl Group {
    /// A group named `name` with no fixed gid and no members.
    pub fn new(name: &str) -> (g: Self)
        ensures
            g@ == (GroupView { name: name@, gid: None, members: seq![] }),
    {
        let g = Group { name: name.to_owned(), gid: None, members: Vec::new() };
        assert(g@.members =~= seq![]);
        g
    }

    /// A group named `name` with gid `gid` (if any) and exactly the members
    /// `members`, in their order, repeats included.
    pub fn with_members(name: &str, gid: Option<u32>, members: Vec<String>) -> (g: Self)
        ensures
            g@ == (GroupView { name: name@, gid, members: string_views(members@) }),
    {
        Group { name: name.to_owned(), gid, members }
    }

    /// The same group with gid `gid`.
    pub fn gid(self, gid: u32) -> (g: Self)
        ensures
            g@ == (GroupView { gid: Some(gid), ..self@ }),
    {
        let mut g = self;
        g.gid = Some(gid);
        g
    }

    /// Adds `username` to the members unless it is there already.
    pub fn add_member(&mut self, username: &str)
        ensures
            final(self)@ == with_member(old(self)@, username@),
    {
        if position_of(&self.members, username).is_none() {
            let ghost before = self.members@;
            self.members.push(username.to_owned());
            assert(string_views(self.members@) =~= string_views(before).push(username@));
        }
    }

    /// Removes every occurrence of `username` from the members.
    pub fn remove_member(&mut self, username: &str)
        ensures
            final(self)@ == without_member(old(self)@, username@),
    {
        let mut kept: Vec<String> = Vec::new();
        let mut i: usize = 0;
        let target = crate::text::chars_of(username);
        while i < self.members.len()
            invariant
                i <= self.members@.len(),
                target@ == username@,
                string_views(kept@) == string_views(self.members@.take(i as int)).filter(
                    other_than(username@),
                ),
            decreases self.members@.len() - i,
        {
            let same = crate::text::eq_chars(
                crate::text::chars_of(self.members[i].as_str()).as_slice(),
                target.as_slice(),
            );
            proof {
                let pre = string_views(self.members@.take(i as int));
                let post = string_views(self.members@.take(i + 1));
                assert(post.drop_last() =~= pre);
                reveal_with_fuel(Seq::filter, 1);
            }
            if !same {
                let ghost before = kept@;
                kept.push(self.members[i].clone());
                assert(string_views(kept@) =~= string_views(before).push(self.members@[i as int]@));
            }
            i = i + 1;
        }
        assert(self.members@.take(self.members@.len() as int) =~= self.members@);
        self.members = kept;
    }

    /// Whether `username` is a member.
    pub fn has_member(&self, username: &str) -> (b: bool)
        ensures
            b == self@.members.contains(username@),
    {
        position_of(&self.members, username).is_some()
    }

    /// The gid the group declares, if any.
    pub fn declared_gid(&self) -> (r: Option<u32>)
        ensures
            r == self@.gid,
    {
        self.gid
    }

    /// The group's name.
    pub fn group_name(&self) -> (r: &str)
        ensures
            r@ == self@.name,
    {
        self.name.as_str()
    }

    /// The members, in the order they were added.
    pub fn members(&self) -> (m: &[String])
        ensures
            string_views(m@) == self@.members,
    {
        self.members.as_slice()
    }
}

/// Adding a member makes it one.
pub proof fn law_added_member_is_member(g: GroupView, name: Seq<char>)
    ensures
        with_member(g, name).members.contains(name),
{
    if !g.members.contains(name) {
        assert(g.members.push(name)[g.members.len() as int] == name);
    }
}

/// Adding the same member twice is adding it once.
pub proof fn law_add_member_idempotent(g: GroupView, name: Seq<char>)
    ensures
        with_member(with_member(g, name), name) == with_member(g, name),
{
    law_added_member_is_member(g, name);
}

/// A removed member is no member.
pub proof fn law_removed_member_is_not_member(g: GroupView, name: Seq<char>)
    ensures
        !without_member(g, name).members.contains(name),
{
    let f = g.members.filter(other_than(name));
    if f.contains(name) {
        let i = choose|i: int| 0 <= i < f.len() && f[i] == name;
        g.members.lemma_filter_pred(other_than(name), i);
    }
}

/// A group whose members do not repeat keeps them so through additions and
/// removals.
pub proof fn law_members_stay_distinct(g: GroupView, name: Seq<char>)
    requires
        g.members.no_duplicates(),
    ensures
        with_member(g, name).members.no_duplicates(),
        without_member(g, name).members.no_duplicates(),
{
    let m = g.members;
    if !m.contains(name) {
        let p = m.push(name);
        assert forall|i: int, j: int| 0 <= i < p.len() && 0 <= j < p.len() && i != j implies p[i]
            != p[j] by {
            if i < m.len() && j < m.len() {
            } else if i == m.len() {
                assert(p[j] == m[j]);
            } else {
                assert(p[i] == m[i]);
            }
        }
    }
    lemma_filter_no_duplicates(m, other_than(name));
}

/// Filtering a sequence without duplicates gives one without duplicates.
pub proof fn lemma_filter_no_duplicates(s: Seq<Seq<char>>, pred: spec_fn(Seq<char>) -> bool)
    requires
        s.no_duplicates(),
    ensures
        s.filter(pred).no_duplicates(),
    decreases s.len(),
{
    reveal_with_fuel(Seq::filter, 1);
    if s.len() > 0 {
        let t = s.drop_last();
        assert(t.no_duplicates()) by {
            assert forall|i: int, j: int| 0 <= i < t.len() && 0 <= j < t.len() && i != j implies t[i]
                != t[j] by {
                assert(t[i] == s[i] && t[j] == s[j]);
            }
        }
        lemma_filter_no_duplicates(t, pred);
        let ft = t.filter(pred);
        if pred(s.last()) {
            lemma_filter_within(t, pred);
            if ft.contains(s.last()) {
                assert(t.contains(s.last()));
                let j = choose|j: int| 0 <= j < t.len() && t[j] == s.last();
                assert(s[j] == s[s.len() - 1]);
            }
            let p = ft.push(s.last());
            assert forall|i: int, j: int| 0 <= i < p.len() && 0 <= j < p.len() && i != j implies p[i]
                != p[j] by {
                if i == ft.len() {
                    assert(p[j] == ft[j]);
                    assert(ft.contains(ft[j]));
                } else if j == ft.len() {
                    assert(p[i] == ft[i]);
                    assert(ft.contains(ft[i]));
                }
            }
            assert(s.filter(pred) == p);
        } else {
            assert(s.filter(pred) == ft);
        }
    }
}

/// Every element a filter keeps is an element of the sequence.
pub proof fn lemma_filter_within(s: Seq<Seq<char>>, pred: spec_fn(Seq<char>) -> bool)
    ensures
        forall|x: Seq<char>| s.filter(pred).contains(x) ==> s.contains(x),
    decreases s.len(),
{
    reveal_with_fuel(Seq::filter, 1);
    if s.len() > 0 {
        let t = s.drop_last();
        lemma_filter_within(t, pred);
        let ft = t.filter(pred);
        assert forall|x: Seq<char>| s.filter(pred).contains(x) implies s.contains(x) by {
            let f = s.filter(pred);
            let k = choose|k: int| 0 <= k < f.len() && f[k] == x;
            if pred(s.last()) {
                assert(f == ft.push(s.last()));
                if k == ft.len() {
                    assert(s[s.len() - 1] == x);
                } else {
                    assert(ft[k] == x);
                    assert(ft.contains(x));
                    assert(t.contains(x));
                    let j = choose|j: int| 0 <= j < t.len() && t[j] == x;
                    assert(s[j] == x);
                }
            } else {
                assert(f == ft);
                assert(ft.contains(x));
                assert(t.contains(x));
                let j = choose|j: int| 0 <= j < t.len() && t[j] == x;
                assert(s[j] == x);
            }
        }
    }
}

} // verus!
