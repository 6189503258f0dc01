//! Bringing the account files (`/etc/passwd`, `/etc/shadow`, `/etc/group`)
//! in line with the resolved users and groups, and taking accounts out of
//! them. Each function takes the files' text and gives back the new text.
use crate::access_control::application::{
    group_entry,
    group_line,
    has_entry,
    has_entry_spec,
    passwd_entry,
    passwd_line,
    password_field,
    remove_entry,
    removed_entries,
    replace_entry,
    replaced_entries,
    replaced_lines,
    shadow_entry,
    shadow_line,
    ResolvedGroup,
    ResolvedUser,
};
use crate::access_control::application::{entry_name, id_of_line, lemma_entry_name};
use crate::access_control::group::GroupView;
use crate::access_control::user::UserView;
use crate::text::{
    chars_of,
    decimal,
    index_of,
    join,
    law_decimal_parses_back,
    lemma_decimal_has_no,
    lemma_index_of_bounds,
    lemma_index_of_prefix,
    lemma_lines_rejoin,
    lemma_lines_append,
    lemma_lines_have_no_newline,
    lemma_lines_joined,
    lemma_split_after,
    lemma_split_none,
    lines,
    push_all,
    split,
    string_of,
    strip_cr,
    CharClass,
};
use vstd::prelude::*;

verus! {

/// `content` followed by `line` and a `\n`: what appending a line to a file
/// leaves in it.
pub open spec fn appended(content: Seq<char>, line: Seq<char>) -> Seq<char> {
    content + line + "\n"@
}

/// Appends `line` and a `\n` to the file text `content`.
pub fn append_entry(content: &str, line: &str) -> (r: String)
    ensures
        r@ == appended(content@, line@),
{
    let mut out = chars_of(content);
    push_all(&mut out, chars_of(line).as_slice());
    push_all(&mut out, chars_of("\n").as_slice());
    string_of(out.as_slice())
}

/// The passwd and shadow text after one user is applied, and whether the
/// user is new: a user with an entry in `passwd` has both entries replaced;
/// any other has both appended.
pub open spec fn apply_user_spec(
    passwd: Seq<char>,
    shadow: Seq<char>,
    u: UserView,
    uid: u32,
    gid: u32,
    days: u64,
) -> (Seq<char>, Seq<char>, bool) {
    if has_entry_spec(passwd, u.name) {
        (
            replaced_entries(passwd, u.name, passwd_line(u, uid, gid)),
            replaced_entries(shadow, u.name, shadow_line(u, days)),
            false,
        )
    } else {
        (appended(passwd, passwd_line(u, uid, gid)), appended(shadow, shadow_line(u, days)), true)
    }
}

/// The passwd and shadow text after the users `rus` are applied in order,
/// and the positions in `rus` of the users that were new.
pub open spec fn apply_users_spec(
    passwd: Seq<char>,
    shadow: Seq<char>,
    rus: Seq<ResolvedUser>,
    days: u64,
) -> (Seq<char>, Seq<char>, Seq<usize>)
    decreases rus.len(),
{
    if rus.len() == 0 {
        (passwd, shadow, seq![])
    } else {
        let (p, s, homes) = apply_users_spec(passwd, shadow, rus.drop_last(), days);
        let ru = rus.last();
        let (p2, s2, is_new) = apply_user_spec(p, s, ru.user@, ru.uid, ru.gid, days);
        (p2, s2, if is_new { homes.push((rus.len() - 1) as usize) } else { homes })
    }
}

/// The account files after applying users, and which users need a home
/// directory made for them.
pub struct UserFiles {
    pub passwd: String,
    pub shadow: String,
    /// Positions of the users that had no entry: their home directories
    /// are to be created.
    pub new_homes: Vec<usize>,
}

/// Applies the resolved users to the passwd and shadow text, in order: an
/// existing account has its entries rewritten, a new one has them appended
/// (shadow entries dated `days` days after the epoch).
pub fn apply_users(passwd: &str, shadow: &str, users: &[ResolvedUser], days: u64) -> (r: UserFiles)
    ensures
        (r.passwd@, r.shadow@, r.new_homes@) == apply_users_spec(passwd@, shadow@, users@, days),
{
    let n = users.len();
    let mut p: String = passwd.to_owned();
    let mut s: String = shadow.to_owned();
    let mut homes: Vec<usize> = Vec::new();
    let mut i: usize = 0;
    assert(users@.take(0) =~= seq![]);
    while i < n
        invariant
            i <= n,
            n == users@.len(),
            (p@, s@, homes@) == apply_users_spec(passwd@, shadow@, users@.take(i as int), days),
        decreases n - i,
    {
        let ru = &users[i];
        assert(users@.take(i + 1).drop_last() =~= users@.take(i as int));
        assert(users@.take(i + 1).last() == users@[i as int]);
        let ghost old_homes = homes@;
        if has_entry(p.as_str(), ru.user.name.as_str()) {
            let line = passwd_entry(ru);
            let p2 = replace_entry(p.as_str(), ru.user.name.as_str(), line.as_str());
            let sline = shadow_entry(&ru.user, days);
            let s2 = replace_entry(s.as_str(), ru.user.name.as_str(), sline.as_str());
            p = p2;
            s = s2;
        } else {
            let line = passwd_entry(ru);
            let p2 = append_entry(p.as_str(), line.as_str());
            let sline = shadow_entry(&ru.user, days);
            let s2 = append_entry(s.as_str(), sline.as_str());
            p = p2;
            s = s2;
            homes.push(i);
            assert(homes@ == old_homes.push(i));
        }
        i = i + 1;
    }
    assert(users@.take(n as int) =~= users@);
    UserFiles { passwd: p, shadow: s, new_homes: homes }
}

/// Whether applying `users` to the passwd text `passwd` rewrites shadow
/// entries, for which the shadow file must already exist: some user has a
/// passwd entry.
pub fn shadow_required(passwd: &str, users: &[ResolvedUser]) -> (b: bool)
    ensures
        b == exists|i: int| 0 <= i < users@.len() && has_entry_spec(passwd@, #[trigger] users@[i].user@.name),
{
    let mut i: usize = 0;
    while i < users.len()
        invariant
            i <= users@.len(),
            forall|j: int| 0 <= j < i ==> !has_entry_spec(passwd@, #[trigger] users@[j].user@.name),
        decreases users@.len() - i,
    {
        let ru = &users[i];
        if has_entry(passwd, ru.user.name.as_str()) {
            assert(has_entry_spec(passwd@, users@[i as int].user@.name));
            return true;
        }
        i = i + 1;
    }
    false
}

/// Whether a file that held `old` (`None` when there is no file) has to be
/// written to hold `new`: when the text differs, and for a missing file when
/// `new` is not empty.
pub fn needs_write(old: Option<&str>, new: &str) -> (b: bool)
    ensures
        b == match old {
            Some(o) => o@ != new@,
            None => new@.len() > 0,
        },
{
    match old {
        Some(o) => !crate::text::eq_chars(chars_of(o).as_slice(), chars_of(new).as_slice()),
        None => !new.is_empty(),
    }
}

/// The group text after the groups `rgs` are applied in order: a group
/// with an entry has it replaced, any other has one appended.
pub open spec fn apply_groups_spec(content: Seq<char>, rgs: Seq<ResolvedGroup>) -> Seq<char>
    decreases rgs.len(),
{
    if rgs.len() == 0 {
        content
    } else {
        let c = apply_groups_spec(content, rgs.drop_last());
        let rg = rgs.last();
        if has_entry_spec(c, rg.group@.name) {
            replaced_entries(c, rg.group@.name, group_line(rg.group@, rg.gid))
        } else {
            appended(c, group_line(rg.group@, rg.gid))
        }
    }
}

/// Applies the resolved groups to the group text, in order.
pub fn apply_groups(content: &str, groups: &[ResolvedGroup]) -> (r: String)
    ensures
        r@ == apply_groups_spec(content@, groups@),
{
    let n = groups.len();
    let mut c: String = content.to_owned();
    let mut i: usize = 0;
    assert(groups@.take(0) =~= seq![]);
    while i < n
        invariant
            i <= n,
            n == groups@.len(),
            c@ == apply_groups_spec(content@, groups@.take(i as int)),
        decreases n - i,
    {
        let rg = &groups[i];
        assert(groups@.take(i + 1).drop_last() =~= groups@.take(i as int));
        assert(groups@.take(i + 1).last() == groups@[i as int]);
        let line = group_entry(rg);
        if has_entry(c.as_str(), rg.group.group_name()) {
            c = replace_entry(c.as_str(), rg.group.group_name(), line.as_str());
        } else {
            c = append_entry(c.as_str(), line.as_str());
        }
        i = i + 1;
    }
    assert(groups@.take(n as int) =~= groups@);
    c
}

/// The passwd and shadow text without the entries of `username`.
pub fn remove_user(passwd: &str, shadow: &str, username: &str) -> (r: (String, String))
    ensures
        r.0@ == removed_entries(passwd@, username@),
        r.1@ == removed_entries(shadow@, username@),
{
    (remove_entry(passwd, username), remove_entry(shadow, username))
}

/// The group text without the entries of `groupname`.
pub fn remove_group(content: &str, groupname: &str) -> (r: String)
    ensures
        r@ == removed_entries(content@, groupname@),
{
    remove_entry(content, groupname)
}


/// `a + b` holds no `c` when neither part does.
proof fn lemma_concat_lacks(a: Seq<char>, b: Seq<char>, c: char)
    requires
        !a.contains(c),
        !b.contains(c),
    ensures
        !(a + b).contains(c),
{
    assert forall|i: int| 0 <= i < (a + b).len() implies (a + b)[i] != c by {
        if i < a.len() {
            assert(a.contains(a[i]));
        } else {
            assert(b.contains(b[i - a.len()]));
        }
    }
}

/// Pieces without `c` joined by a separator without `c` hold no `c`.
proof fn lemma_join_lacks(ls: Seq<Seq<char>>, sep: Seq<char>, c: char)
    requires
        !sep.contains(c),
        forall|i: int| 0 <= i < ls.len() ==> !(#[trigger] ls[i]).contains(c),
    ensures
        !join(ls, sep).contains(c),
    decreases ls.len(),
{
    if ls.len() == 1 {
        assert(!ls[0].contains(c));
    } else if ls.len() > 1 {
        lemma_join_lacks(ls.drop_last(), sep, c);
        assert(!ls.last().contains(c));
        lemma_concat_lacks(join(ls.drop_last(), sep), sep, c);
        lemma_concat_lacks(join(ls.drop_last(), sep) + sep, ls.last(), c);
    }
}

/// The account name of `name + ":" + rest` is `name` when `name` holds no `:`.
proof fn lemma_entry_name_of(name: Seq<char>, rest: Seq<char>)
    requires
        !name.contains(':'),
    ensures
        entry_name(name + ":"@ + rest) == name,
        (name + ":"@ + rest).contains(':'),
{
    reveal_strlit(":");
    assert(name + ":"@ + rest =~= name + seq![':'] + rest);
    lemma_split_after(name, ':', rest);
    assert((name + ":"@ + rest)[name.len() as int] == ':');
}

/// Dropping a trailing `\r` from a line that holds a `:` keeps its account
/// name and its `:`.
proof fn lemma_entry_name_strip(l: Seq<char>)
    requires
        l.contains(':'),
    ensures
        entry_name(strip_cr(l)) == entry_name(l),
        strip_cr(l).contains(':'),
{
    if l.len() > 0 && l.last() == '\r' {
        let colon = CharClass::Exactly(':');
        let t = l.drop_last();
        lemma_index_of_bounds(l, colon);
        let k = choose|i: int| 0 <= i < l.len() && l[i] == ':';
        if index_of(l, colon) >= l.len() {
            assert(!colon.has(l[k]));
        }
        let i = index_of(l, colon) as int;
        assert(i < l.len() - 1) by {
            if i == l.len() - 1 {
                assert(colon.has(l[i]));
            }
        }
        assert(t[i] == l[i]);
        assert(index_of(t, colon) < t.len()) by {
            lemma_index_of_bounds(t, colon);
            if index_of(t, colon) >= t.len() {
                assert(!colon.has(t[i]));
            }
        }
        assert(l =~= t + seq!['\r']);
        lemma_index_of_prefix(t, seq!['\r'], colon);
        lemma_entry_name(l);
        lemma_entry_name(t);
        assert(t.take(i) =~= l.take(i));
    }
}

/// Whether the text `content` has a line that is an entry of `name` and
/// holds a `:` after the name.
pub open spec fn has_written_entry(content: Seq<char>, name: Seq<char>) -> bool {
    exists|j: int|
        0 <= j < lines(content).len() && entry_name(#[trigger] lines(content)[j]) == name
            && lines(content)[j].contains(':')
}

/// Whether `content` is empty or ends with a line break.
pub open spec fn ends_in_newline(content: Seq<char>) -> bool {
    content.len() == 0 || content.last() == '\n'
}

/// Appending a line keeps every written entry and adds that of the line.
proof fn lemma_appended_keeps(content: Seq<char>, line: Seq<char>, name: Seq<char>)
    requires
        ends_in_newline(content),
        !line.contains('\n'),
        has_written_entry(content, name) || (entry_name(line) == name && line.contains(':')),
    ensures
        has_written_entry(appended(content, line), name),
        ends_in_newline(appended(content, line)),
{
    reveal_strlit("\n");
    lemma_lines_append(content, line);
    let after = lines(appended(content, line));
    if has_written_entry(content, name) {
        let j = choose|j: int|
            0 <= j < lines(content).len() && entry_name(#[trigger] lines(content)[j]) == name
                && lines(content)[j].contains(':');
        assert(after[j] == lines(content)[j]);
    } else {
        lemma_entry_name_strip(line);
        assert(after[lines(content).len() as int] == strip_cr(line));
    }
}

/// Replacing the entries of `name` by `new_line` (an entry of `name` with a
/// `:`) keeps every written entry, and gives `name` one if it had an entry.
proof fn lemma_replaced_keeps(content: Seq<char>, name: Seq<char>, new_line: Seq<char>, m: Seq<char>)
    requires
        !new_line.contains('\n'),
        entry_name(new_line) == name,
        new_line.contains(':'),
        has_written_entry(content, m) || (m == name && has_entry_spec(content, name)),
    ensures
        has_written_entry(replaced_entries(content, name, new_line), m),
        ends_in_newline(replaced_entries(content, name, new_line)),
{
    reveal_strlit("\n");
    let ls = lines(content);
    let mapped = replaced_lines(ls, name, new_line);
    let j = if has_written_entry(content, m) {
        choose|j: int| 0 <= j < ls.len() && entry_name(#[trigger] ls[j]) == m && ls[j].contains(':')
    } else {
        choose|j: int| 0 <= j < ls.len() && entry_name(#[trigger] ls[j]) == name
    };
    assert(0 <= j < ls.len());
    lemma_lines_have_no_newline(content);
    assert forall|i: int| 0 <= i < mapped.len() implies !(#[trigger] mapped[i]).contains('\n') by {
        assert(!ls[i].contains('\n'));
    }
    lemma_lines_joined(mapped);
    let after = lines(replaced_entries(content, name, new_line));
    assert(after == mapped.map_values(|l: Seq<char>| strip_cr(l)));
    assert(after[j] == strip_cr(mapped[j]));
    if entry_name(ls[j]) == name {
        lemma_entry_name_strip(new_line);
    } else {
        lemma_entry_name_strip(ls[j]);
    }
    assert(entry_name(after[j]) == m && after[j].contains(':'));
}

/// Whether the passwd line of `u` is one line with `u`'s name as its
/// account name: no `:` in the name, and no line break in it, its home
/// directory or its shell's path.
pub open spec fn writable_user(u: UserView) -> bool {
    &&& !u.name.contains(':')
    &&& !u.name.contains('\n')
    &&& !u.home_dir.contains('\n')
    &&& !u.shell.path().contains('\n')
}

/// The passwd line of a writable user is one line, an entry of the user
/// with a `:`.
proof fn lemma_passwd_line_shape(u: UserView, uid: u32, gid: u32)
    requires
        writable_user(u),
    ensures
        !passwd_line(u, uid, gid).contains('\n'),
        entry_name(passwd_line(u, uid, gid)) == u.name,
        passwd_line(u, uid, gid).contains(':'),
{
    reveal_strlit(":x:");
    reveal_strlit(":");
    reveal_strlit("x:");
    let l = passwd_line(u, uid, gid);
    let rest = "x:"@ + decimal(uid as nat) + ":"@ + decimal(gid as nat) + ":"@ + u.name + ":"@
        + u.home_dir + ":"@ + u.shell.path();
    assert(l =~= u.name + ":"@ + rest);
    lemma_entry_name_of(u.name, rest);
    lemma_decimal_has_no(uid as nat, '\n');
    lemma_decimal_has_no(gid as nat, '\n');
    assert forall|i: int| 0 <= i < l.len() implies l[i] != '\n' by {
        let a = u.name;
        let b = decimal(uid as nat);
        let c = decimal(gid as nat);
        let h = u.home_dir;
        let p = u.shell.path();
        assert(l =~= a + ":x:"@ + b + ":"@ + c + ":"@ + a + ":"@ + h + ":"@ + p);
        lemma_concat_lacks(a, ":x:"@, '\n');
        lemma_concat_lacks(a + ":x:"@, b, '\n');
        lemma_concat_lacks(a + ":x:"@ + b, ":"@, '\n');
        lemma_concat_lacks(a + ":x:"@ + b + ":"@, c, '\n');
        lemma_concat_lacks(a + ":x:"@ + b + ":"@ + c, ":"@, '\n');
        lemma_concat_lacks(a + ":x:"@ + b + ":"@ + c + ":"@, a, '\n');
        lemma_concat_lacks(a + ":x:"@ + b + ":"@ + c + ":"@ + a, ":"@, '\n');
        lemma_concat_lacks(a + ":x:"@ + b + ":"@ + c + ":"@ + a + ":"@, h, '\n');
        lemma_concat_lacks(a + ":x:"@ + b + ":"@ + c + ":"@ + a + ":"@ + h, ":"@, '\n');
        lemma_concat_lacks(a + ":x:"@ + b + ":"@ + c + ":"@ + a + ":"@ + h + ":"@, p, '\n');
        assert(l.contains(l[i]));
    }
}

/// What `existing_ids` reads from the passwd line of a user whose name
/// holds no `:` is the uid it was written with.
pub proof fn law_passwd_uid_read_back(u: UserView, uid: u32, gid: u32)
    requires
        !u.name.contains(':'),
    ensures
        id_of_line(passwd_line(u, uid, gid)) == Some(uid),
{
    reveal_strlit(":x:");
    reveal_strlit(":");
    let tail = decimal(gid as nat) + ":"@ + u.name + ":"@ + u.home_dir + ":"@ + u.shell.path();
    let l = passwd_line(u, uid, gid);
    assert(l =~= u.name + seq![':'] + (seq!['x'] + seq![':'] + (decimal(uid as nat) + seq![':'] + tail)));
    lemma_split_after(u.name, ':', seq!['x'] + seq![':'] + (decimal(uid as nat) + seq![':'] + tail));
    assert(!seq!['x'].contains(':')) by {
        assert(seq!['x'][0] == 'x');
    }
    lemma_split_after(seq!['x'], ':', decimal(uid as nat) + seq![':'] + tail);
    lemma_decimal_has_no(uid as nat, ':');
    lemma_split_after(decimal(uid as nat), ':', tail);
    assert(split(l, ':')[2] == decimal(uid as nat));
    law_decimal_parses_back(uid);
}

/// What `existing_ids` reads from the group line of a group whose name
/// holds no `:` is the gid it was written with.
pub proof fn law_group_gid_read_back(g: GroupView, gid: u32)
    requires
        !g.name.contains(':'),
    ensures
        id_of_line(group_line(g, gid)) == Some(gid),
{
    reveal_strlit(":x:");
    reveal_strlit(":");
    reveal_strlit(",");
    let tail = join(g.members, ","@);
    let l = group_line(g, gid);
    assert(l =~= g.name + seq![':'] + (seq!['x'] + seq![':'] + (decimal(gid as nat) + seq![':'] + tail)));
    lemma_split_after(g.name, ':', seq!['x'] + seq![':'] + (decimal(gid as nat) + seq![':'] + tail));
    assert(!seq!['x'].contains(':')) by {
        assert(seq!['x'][0] == 'x');
    }
    lemma_split_after(seq!['x'], ':', decimal(gid as nat) + seq![':'] + tail);
    lemma_decimal_has_no(gid as nat, ':');
    lemma_split_after(decimal(gid as nat), ':', tail);
    assert(split(l, ':')[2] == decimal(gid as nat));
    law_decimal_parses_back(gid);
}

/// Applying users keeps the passwd text ended by a line break and keeps
/// every written entry; each writable user applied gets one.
proof fn lemma_applied_users_written(passwd: Seq<char>, shadow: Seq<char>, rus: Seq<ResolvedUser>, days: u64)
    requires
        ends_in_newline(passwd),
        forall|i: int| 0 <= i < rus.len() ==> writable_user((#[trigger] rus[i]).user@),
    ensures
        ends_in_newline(apply_users_spec(passwd, shadow, rus, days).0),
        forall|m: Seq<char>| has_written_entry(passwd, m) ==> has_written_entry(apply_users_spec(passwd, shadow, rus, days).0, m),
        forall|i: int| 0 <= i < rus.len() ==> has_written_entry(apply_users_spec(passwd, shadow, rus, days).0, (#[trigger] rus[i]).user@.name),
    decreases rus.len(),
{
    if rus.len() > 0 {
        let init = rus.drop_last();
        assert forall|i: int| 0 <= i < init.len() implies writable_user((#[trigger] init[i]).user@) by {
            assert(init[i] == rus[i]);
        }
        lemma_applied_users_written(passwd, shadow, init, days);
        let (p, s, homes) = apply_users_spec(passwd, shadow, init, days);
        let ru = rus.last();
        let u = ru.user@;
        let line = passwd_line(u, ru.uid, ru.gid);
        assert(writable_user(u));
        lemma_passwd_line_shape(u, ru.uid, ru.gid);
        let p2 = apply_users_spec(passwd, shadow, rus, days).0;
        if has_entry_spec(p, u.name) {
            assert(p2 == replaced_entries(p, u.name, line));
            assert forall|m: Seq<char>| has_written_entry(p, m) implies has_written_entry(p2, m) by {
                lemma_replaced_keeps(p, u.name, line, m);
            }
            lemma_replaced_keeps(p, u.name, line, u.name);
        } else {
            assert(p2 == appended(p, line));
            assert forall|m: Seq<char>| has_written_entry(p, m) implies has_written_entry(p2, m) by {
                lemma_appended_keeps(p, line, m);
            }
            lemma_appended_keeps(p, line, u.name);
        }
        assert forall|i: int| 0 <= i < rus.len() implies has_written_entry(p2, (#[trigger] rus[i]).user@.name) by {
            if i < init.len() {
                assert(init[i] == rus[i]);
                assert(has_written_entry(p, init[i].user@.name));
            }
        }
    }
}

/// After users are applied to passwd text that is empty or ends with a
/// line break, every applied user whose line is writable has an entry in
/// the passwd text, and so does every account that had a written entry
/// (one with a `:` after its name) before.
pub proof fn law_applied_users_have_entries(passwd: Seq<char>, shadow: Seq<char>, rus: Seq<ResolvedUser>, days: u64)
    requires
        ends_in_newline(passwd),
        forall|i: int| 0 <= i < rus.len() ==> writable_user((#[trigger] rus[i]).user@),
    ensures
        forall|i: int|
            0 <= i < rus.len() ==> has_entry_spec(apply_users_spec(passwd, shadow, rus, days).0, (#[trigger] rus[i]).user@.name),
        forall|m: Seq<char>|
            has_written_entry(passwd, m) ==> has_entry_spec(#[trigger] apply_users_spec(passwd, shadow, rus, days).0, m),
{
    lemma_applied_users_written(passwd, shadow, rus, days);
    let p = apply_users_spec(passwd, shadow, rus, days).0;
    assert forall|i: int| 0 <= i < rus.len() implies has_entry_spec(p, (#[trigger] rus[i]).user@.name) by {
        assert(has_written_entry(p, rus[i].user@.name));
    }
    assert forall|m: Seq<char>| has_written_entry(passwd, m) implies has_entry_spec(p, m) by {
        assert(has_written_entry(p, m));
    }
}

/// Whether the group line of `g` is one line with `g`'s name as its
/// account name: no `:` in the name, and no line break in it or in a member.
pub open spec fn writable_group(g: GroupView) -> bool {
    &&& !g.name.contains(':')
    &&& !g.name.contains('\n')
    &&& forall|i: int| 0 <= i < g.members.len() ==> !(#[trigger] g.members[i]).contains('\n')
}

/// The group line of a writable group is one line, an entry of the group
/// with a `:`.
proof fn lemma_group_line_shape(g: GroupView, gid: u32)
    requires
        writable_group(g),
    ensures
        !group_line(g, gid).contains('\n'),
        entry_name(group_line(g, gid)) == g.name,
        group_line(g, gid).contains(':'),
{
    reveal_strlit(":x:");
    reveal_strlit(":");
    reveal_strlit("x:");
    reveal_strlit(",");
    let l = group_line(g, gid);
    let a = g.name;
    let b = decimal(gid as nat);
    let m = join(g.members, ","@);
    let rest = "x:"@ + b + ":"@ + m;
    assert(l =~= a + ":"@ + rest);
    lemma_entry_name_of(a, rest);
    lemma_decimal_has_no(gid as nat, '\n');
    assert(!","@.contains('\n')) by {
        assert(","@[0] == ',');
    }
    lemma_join_lacks(g.members, ","@, '\n');
    assert(l =~= a + ":x:"@ + b + ":"@ + m);
    lemma_concat_lacks(a, ":x:"@, '\n');
    lemma_concat_lacks(a + ":x:"@, b, '\n');
    lemma_concat_lacks(a + ":x:"@ + b, ":"@, '\n');
    lemma_concat_lacks(a + ":x:"@ + b + ":"@, m, '\n');
}

/// Applying groups keeps the group text ended by a line break and keeps
/// every written entry; each writable group applied gets one.
proof fn lemma_applied_groups_written(content: Seq<char>, rgs: Seq<ResolvedGroup>)
    requires
        ends_in_newline(content),
        forall|i: int| 0 <= i < rgs.len() ==> writable_group((#[trigger] rgs[i]).group@),
    ensures
        ends_in_newline(apply_groups_spec(content, rgs)),
        forall|m: Seq<char>| has_written_entry(content, m) ==> has_written_entry(apply_groups_spec(content, rgs), m),
        forall|i: int| 0 <= i < rgs.len() ==> has_written_entry(apply_groups_spec(content, rgs), (#[trigger] rgs[i]).group@.name),
    decreases rgs.len(),
{
    if rgs.len() > 0 {
        let init = rgs.drop_last();
        assert forall|i: int| 0 <= i < init.len() implies writable_group((#[trigger] init[i]).group@) by {
            assert(init[i] == rgs[i]);
        }
        lemma_applied_groups_written(content, init);
        let c = apply_groups_spec(content, init);
        let rg = rgs.last();
        let g = rg.group@;
        let line = group_line(g, rg.gid);
        assert(writable_group(g));
        lemma_group_line_shape(g, rg.gid);
        let c2 = apply_groups_spec(content, rgs);
        if has_entry_spec(c, g.name) {
            assert forall|m: Seq<char>| has_written_entry(c, m) implies has_written_entry(c2, m) by {
                lemma_replaced_keeps(c, g.name, line, m);
            }
            lemma_replaced_keeps(c, g.name, line, g.name);
        } else {
            assert forall|m: Seq<char>| has_written_entry(c, m) implies has_written_entry(c2, m) by {
                lemma_appended_keeps(c, line, m);
            }
            lemma_appended_keeps(c, line, g.name);
        }
        assert forall|i: int| 0 <= i < rgs.len() implies has_written_entry(c2, (#[trigger] rgs[i]).group@.name) by {
            if i < init.len() {
                assert(init[i] == rgs[i]);
                assert(has_written_entry(c, init[i].group@.name));
            }
        }
    }
}

/// After groups are applied to group text that is empty or ends with a
/// line break, every applied group whose line is writable has an entry in
/// the group text, and so does every account that had a written entry
/// before.
pub proof fn law_applied_groups_have_entries(content: Seq<char>, rgs: Seq<ResolvedGroup>)
    requires
        ends_in_newline(content),
        forall|i: int| 0 <= i < rgs.len() ==> writable_group((#[trigger] rgs[i]).group@),
    ensures
        forall|i: int| 0 <= i < rgs.len() ==> has_entry_spec(apply_groups_spec(content, rgs), (#[trigger] rgs[i]).group@.name),
        forall|m: Seq<char>| has_written_entry(content, m) ==> has_entry_spec(#[trigger] apply_groups_spec(content, rgs), m),
{
    lemma_applied_groups_written(content, rgs);
    let c = apply_groups_spec(content, rgs);
    assert forall|i: int| 0 <= i < rgs.len() implies has_entry_spec(c, (#[trigger] rgs[i]).group@.name) by {
        assert(has_written_entry(c, rgs[i].group@.name));
    }
    assert forall|m: Seq<char>| has_written_entry(content, m) implies has_entry_spec(c, m) by {
        assert(has_written_entry(c, m));
    }
}

/// After the entries of `name` are removed from an account file's text,
/// it holds no entry of `name`. Left out: texts with a line that is `name`
/// followed by `\r` (the `\r` is dropped when the lines are written back),
/// and an empty `name` when every line is removed (the result is one empty
/// line, whose account name is empty).
pub proof fn law_removed_account_has_no_entry(content: Seq<char>, name: Seq<char>)
    requires
        !lines(content).contains(name.push('\r')),
        name.len() > 0 || exists|j: int| 0 <= j < lines(content).len() && entry_name(#[trigger] lines(content)[j]) != name,
    ensures
        !has_entry_spec(removed_entries(content, name), name),
{
    reveal_strlit("\n");
    let ls = lines(content);
    let pred = |l: Seq<char>| entry_name(l) != name;
    let kept = ls.filter(pred);
    let after = lines(removed_entries(content, name));
    lemma_lines_have_no_newline(content);
    if kept.len() == 0 {
        if name.len() == 0 {
            let j = choose|j: int| 0 <= j < ls.len() && entry_name(#[trigger] ls[j]) != name;
            ls.lemma_filter_contains(pred, j);
            assert(kept.contains(ls[j]));
        }
        let empty: Seq<char> = seq![];
        assert(removed_entries(content, name) =~= "\n"@);
        lemma_lines_append(empty, empty);
        assert(empty + empty + "\n"@ =~= "\n"@);
        assert(lines(empty) =~= Seq::<Seq<char>>::empty());
        assert(after =~= seq![empty]);
        assert(!empty.contains(':'));
        lemma_split_none(empty, ':');
        assert(entry_name(empty) == empty);
        assert forall|j: int| 0 <= j < after.len() implies entry_name(#[trigger] after[j]) != name by {
            assert(after[j] == empty);
        }
    } else {
        assert forall|i: int| 0 <= i < kept.len() implies !(#[trigger] kept[i]).contains('\n') by {
            assert(kept.contains(kept[i]));
            ls.lemma_filter_contains_rev(pred, kept[i]);
            let j = choose|j: int| 0 <= j < ls.len() && ls[j] == kept[i];
            assert(!ls[j].contains('\n'));
        }
        lemma_lines_joined(kept);
        assert(after == kept.map_values(|l: Seq<char>| strip_cr(l)));
        assert forall|j: int| 0 <= j < after.len() implies entry_name(#[trigger] after[j]) != name by {
            let l = kept[j];
            assert(after[j] == strip_cr(l));
            ls.lemma_filter_pred(pred, j);
            assert(entry_name(l) != name);
            if l.contains(':') {
                lemma_entry_name_strip(l);
            } else {
                lemma_split_none(l, ':');
                let t = strip_cr(l);
                assert(!t.contains(':')) by {
                    assert forall|i: int| 0 <= i < t.len() implies t[i] != ':' by {
                        assert(t[i] == l[i]);
                        assert(l.contains(l[i]));
                    }
                }
                lemma_split_none(t, ':');
                if l.len() > 0 && l.last() == '\r' && t == name {
                    assert(l =~= name.push('\r'));
                    assert(kept.contains(l));
                    ls.lemma_filter_contains_rev(pred, l);
                }
            }
        }
    }
}

/// A filter that keeps every element keeps the sequence.
proof fn lemma_filter_keeps_all(s: Seq<Seq<char>>, pred: spec_fn(Seq<char>) -> bool)
    requires
        forall|i: int| 0 <= i < s.len() ==> pred(#[trigger] s[i]),
    ensures
        s.filter(pred) == s,
    decreases s.len(),
{
    reveal_with_fuel(Seq::filter, 1);
    if s.len() > 0 {
        let init = s.drop_last();
        assert forall|i: int| 0 <= i < init.len() implies pred(#[trigger] init[i]) by {
            assert(init[i] == s[i]);
        }
        lemma_filter_keeps_all(init, pred);
        assert(pred(s.last()));
        assert(init.push(s.last()) =~= s);
    }
}

/// An element the filter drops leaves the filtered sequence as it was.
proof fn lemma_filter_push_dropped(s: Seq<Seq<char>>, x: Seq<char>, pred: spec_fn(Seq<char>) -> bool)
    requires
        !pred(x),
    ensures
        s.push(x).filter(pred) == s.filter(pred),
{
    reveal_with_fuel(Seq::filter, 1);
    assert(s.push(x).drop_last() =~= s);
}

/// Removing the entries of `name` from a text ended by `\n`, without `\r`
/// and without an entry of `name`, to which one entry of `name` was
/// appended, gives back the text.
proof fn lemma_remove_appended(content: Seq<char>, line: Seq<char>, name: Seq<char>)
    requires
        content.len() > 0,
        content.last() == '\n',
        !content.contains('\r'),
        !has_entry_spec(content, name),
        !line.contains('\n'),
        entry_name(line) == name,
        line.contains(':'),
    ensures
        removed_entries(appended(content, line), name) == content,
{
    reveal_strlit("\n");
    let pred = |l: Seq<char>| entry_name(l) != name;
    lemma_lines_append(content, line);
    lemma_entry_name_strip(line);
    let ls = lines(content);
    let after = lines(appended(content, line));
    assert(after =~= ls.push(strip_cr(line)));
    assert forall|i: int| 0 <= i < ls.len() implies pred(#[trigger] ls[i]) by {
        if !pred(ls[i]) {
            assert(entry_name(ls[i]) == name);
        }
    }
    lemma_filter_keeps_all(ls, pred);
    lemma_filter_push_dropped(ls, strip_cr(line), pred);
    lemma_lines_rejoin(content);
}

/// The shadow line of a writable user whose password field holds no line
/// break is one line, an entry of the user with a `:`.
proof fn lemma_shadow_line_shape(u: UserView, days: u64)
    requires
        writable_user(u),
        !password_field(u.password).contains('\n'),
    ensures
        !shadow_line(u, days).contains('\n'),
        entry_name(shadow_line(u, days)) == u.name,
        shadow_line(u, days).contains(':'),
{
    reveal_strlit(":");
    reveal_strlit(":0:99999:7:::");
    let l = shadow_line(u, days);
    let a = u.name;
    let pw = password_field(u.password);
    let d = decimal(days as nat);
    let tail = ":0:99999:7:::"@;
    let rest = pw + ":"@ + d + tail;
    assert(l =~= a + ":"@ + rest);
    lemma_entry_name_of(a, rest);
    lemma_decimal_has_no(days as nat, '\n');
    assert(!":"@.contains('\n')) by {
        assert(":"@[0] == ':');
    }
    assert(!tail.contains('\n')) by {
        assert forall|i: int| 0 <= i < tail.len() implies tail[i] != '\n' by {
            assert(tail =~= seq![':', '0', ':', '9', '9', '9', '9', '9', ':', '7', ':', ':', ':']);
        }
    }
    lemma_concat_lacks(a, ":"@, '\n');
    lemma_concat_lacks(a + ":"@, pw, '\n');
    lemma_concat_lacks(a + ":"@ + pw, ":"@, '\n');
    lemma_concat_lacks(a + ":"@ + pw + ":"@, d, '\n');
    lemma_concat_lacks(a + ":"@ + pw + ":"@ + d, tail, '\n');
    assert(l =~= a + ":"@ + pw + ":"@ + d + tail);
}

/// Removing a user just applied to passwd and shadow texts that had no
/// entry for it gives both texts back, when they end with a line break,
/// hold no `\r`, and the user's lines are writable.
pub proof fn law_removing_applied_user_restores(
    passwd: Seq<char>,
    shadow: Seq<char>,
    ru: ResolvedUser,
    days: u64,
)
    requires
        passwd.len() > 0,
        passwd.last() == '\n',
        !passwd.contains('\r'),
        shadow.len() > 0,
        shadow.last() == '\n',
        !shadow.contains('\r'),
        !has_entry_spec(passwd, ru.user@.name),
        !has_entry_spec(shadow, ru.user@.name),
        writable_user(ru.user@),
        !password_field(ru.user@.password).contains('\n'),
    ensures
        removed_entries(apply_users_spec(passwd, shadow, seq![ru], days).0, ru.user@.name) == passwd,
        removed_entries(apply_users_spec(passwd, shadow, seq![ru], days).1, ru.user@.name) == shadow,
{
    let u = ru.user@;
    let one = seq![ru];
    assert(one.drop_last() =~= Seq::<ResolvedUser>::empty());
    assert(one.last() == ru);
    let none = Seq::<ResolvedUser>::empty();
    assert(apply_users_spec(passwd, shadow, none, days) == (passwd, shadow, Seq::<usize>::empty()));
    let applied = apply_users_spec(passwd, shadow, one, days);
    assert(apply_user_spec(passwd, shadow, u, ru.uid, ru.gid, days) == (
        appended(passwd, passwd_line(u, ru.uid, ru.gid)),
        appended(shadow, shadow_line(u, days)),
        true,
    ));
    assert(applied.0 == appended(passwd, passwd_line(u, ru.uid, ru.gid)));
    assert(applied.1 == appended(shadow, shadow_line(u, days)));
    lemma_passwd_line_shape(u, ru.uid, ru.gid);
    lemma_shadow_line_shape(u, days);
    lemma_remove_appended(passwd, passwd_line(u, ru.uid, ru.gid), u.name);
    lemma_remove_appended(shadow, shadow_line(u, days), u.name);
}

} // verus!
