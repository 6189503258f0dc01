//! Resolving the ids of declared users and groups, and the account-file
//! entries (`/etc/passwd`, `/etc/shadow`, `/etc/group`) that describe them.
use crate::access_control::group::{Group, GroupView, string_views};
use crate::access_control::id_alloc::{IdAllocator, IdError, IdKind, next_free};
use crate::access_control::user::{Password, PasswordView, User, UserView};
use crate::text::{
    chars_of,
    decimal,
    decimal_of,
    find_class,
    index_of,
    join,
    join_with,
    lemma_index_of_bounds,
    lines,
    lines_of,
    parse_u32,
    parse_u32_spec,
    push_all,
    split,
    split_on,
    string_of,
    views,
    CharClass,
};
use vstd::prelude::*;

verus! {

/// A user together with the uid and primary gid it was given.
pub struct ResolvedUser {
    pub user: User,
    pub uid: u32,
    pub gid: u32,
}

/// A group together with the gid it was given.
pub struct ResolvedGroup {
    pub group: Group,
    pub gid: u32,
}

/// The gid a group gets and the ids in use afterwards: its own gid if it
/// declares one, else the next free system id.
pub open spec fn group_step(gid: Option<u32>, used: Set<u32>) -> Option<(u32, Set<u32>)> {
    match gid {
        Some(id) => Some((id, used.insert(id))),
        None => match next_free(used, IdKind::System) {
            Some(id) => Some((id, used.insert(id))),
            None => None,
        },
    }
}

/// The gids that groups declaring `gids` get, in order, starting from the
/// ids in `used`; `None` when an id range runs out.
pub open spec fn resolve_groups_spec(gids: Seq<Option<u32>>, used: Set<u32>) -> Option<
    (Seq<u32>, Set<u32>),
>
    decreases gids.len(),
{
    if gids.len() == 0 {
        Some((seq![], used))
    } else {
        match resolve_groups_spec(gids.drop_last(), used) {
            None => None,
            Some((ids, u)) => match group_step(gids.last(), u) {
                None => None,
                Some((id, u2)) => Some((ids.push(id), u2)),
            },
        }
    }
}

/// The uid and gid a user gets and the uids in use afterwards: its own uid,
/// else the next free user id; its own primary gid, else the next free user
/// id after that (taken from the uids).
pub open spec fn user_step(uid: Option<u32>, gid: Option<u32>, used: Set<u32>) -> Option<
    (u32, u32, Set<u32>),
> {
    let first = match uid {
        Some(id) => Some((id, used.insert(id))),
        None => match next_free(used, IdKind::User) {
            Some(id) => Some((id, used.insert(id))),
            None => None,
        },
    };
    match first {
        None => None,
        Some((u, used1)) => match gid {
            Some(g) => Some((u, g, used1)),
            None => match next_free(used1, IdKind::User) {
                Some(g) => Some((u, g, used1.insert(g))),
                None => None,
            },
        },
    }
}

/// The (uid, gid) pairs that users declaring `ids` get, in order, starting
/// from the uids in `used`; `None` when an id range runs out.
pub open spec fn resolve_users_spec(ids: Seq<(Option<u32>, Option<u32>)>, used: Set<u32>) -> Option<
    (Seq<(u32, u32)>, Set<u32>),
>
    decreases ids.len(),
{
    if ids.len() == 0 {
        Some((seq![], used))
    } else {
        match resolve_users_spec(ids.drop_last(), used) {
            None => None,
            Some((done, u)) => match user_step(ids.last().0, ids.last().1, u) {
                None => None,
                Some((uid, gid, u2)) => Some((done.push((uid, gid)), u2)),
            },
        }
    }
}

/// The declared gid of each group.
pub open spec fn declared_gids(groups: Seq<Group>) -> Seq<Option<u32>> {
    groups.map_values(|g: Group| g@.gid)
}

/// The declared uid and primary gid of each user.
pub open spec fn declared_ids(users: Seq<User>) -> Seq<(Option<u32>, Option<u32>)> {
    users.map_values(|u: User| (u.uid, u.primary_gid))
}

/// Gives every group a gid and every user a uid and a primary gid. Groups
/// come first: a declared id is kept (and marked used), a missing one is
/// the next free system id beside `existing_gids`; then users: a declared
/// uid is kept, a missing one is the next free user id beside
/// `existing_uids`, and a missing primary gid is the next free user id of
/// the same uid allocator. Fails when a range runs out.
pub fn resolve_ids(
    users: &[User],
    groups: &[Group],
    existing_uids: Vec<u32>,
    existing_gids: Vec<u32>,
) -> (r: Result<(Vec<ResolvedUser>, Vec<ResolvedGroup>), IdError>)
    ensures
        match (
            resolve_groups_spec(declared_gids(groups@), existing_gids@.to_set()),
            resolve_users_spec(declared_ids(users@), existing_uids@.to_set()),
        ) {
            (Some((gids, _)), Some((uids, _))) => r matches Ok((ru, rg)) && {
                &&& rg@.len() == groups@.len()
                &&& forall|i: int|
                    0 <= i < rg@.len() ==> #[trigger] rg@[i].group@ == groups@[i]@ && rg@[i].gid
                        == gids[i]
                &&& ru@.len() == users@.len()
                &&& forall|i: int|
                    0 <= i < ru@.len() ==> #[trigger] ru@[i].user@ == users@[i]@ && ru@[i].uid
                        == uids[i].0 && ru@[i].gid == uids[i].1
            },
            _ => r == Err::<(Vec<ResolvedUser>, Vec<ResolvedGroup>), IdError>(IdError::Exhausted),
        },
{
    let ghost gids_in = declared_gids(groups@);
    let ghost ids_in = declared_ids(users@);
    let ghost uid_start = existing_uids@.to_set();
    let ghost gid_start = existing_gids@.to_set();
    let mut uid_alloc = IdAllocator::with_existing(existing_uids);
    let mut gid_alloc = IdAllocator::with_existing(existing_gids);

    let mut resolved_groups: Vec<ResolvedGroup> = Vec::new();
    let ghost mut gids_done: Seq<u32> = seq![];
    let mut i: usize = 0;
    assert(gids_in.take(0) =~= seq![]);
    while i < groups.len()
        invariant
            i <= groups@.len(),
            gids_in == declared_gids(groups@),
            gid_start == existing_gids@.to_set(),
            resolve_groups_spec(gids_in.take(i as int), gid_start) == Some((gids_done, gid_alloc@)),
            resolved_groups@.len() == i,
            forall|j: int|
                0 <= j < i ==> #[trigger] resolved_groups@[j].group@ == groups@[j]@
                    && resolved_groups@[j].gid == gids_done[j],
            gids_done.len() == i,
        decreases groups@.len() - i,
    {
        let group = &groups[i];
        let ghost before = gid_alloc@;
        proof {
            assert(gids_in.take(i + 1).drop_last() =~= gids_in.take(i as int));
            assert(gids_in.take(i + 1).last() == groups@[i as int]@.gid);
        }
        let gid = match group.declared_gid() {
            Some(id) => {
                let _ = gid_alloc.reserve(id);
                id
            },
            None => match gid_alloc.allocate(IdKind::System) {
                Ok(id) => id,
                Err(e) => {
                    proof {
                        lemma_resolve_groups_prefix_none(gids_in, gid_start, i + 1);
                    }
                    assert(resolve_groups_spec(declared_gids(groups@), existing_gids@.to_set()) is None);
                    assert(e == IdError::Exhausted);
                    return Err(e);
                },
            },
        };
        let ghost old_done = gids_done;
        proof {
            if group@.gid is Some {
                assert(gid_alloc@ =~= before.insert(gid));
            }
            gids_done = gids_done.push(gid);
        }
        let copy = group.clone();
        let ghost prev = resolved_groups@;
        resolved_groups.push(ResolvedGroup { group: copy, gid });
        assert forall|j: int| 0 <= j < i + 1 implies #[trigger] resolved_groups@[j].group@
            == groups@[j]@ && resolved_groups@[j].gid == gids_done[j] by {
            if j < i {
                assert(resolved_groups@[j] == prev[j]);
                assert(prev[j].group@ == groups@[j]@);
                assert(prev[j].gid == old_done[j]);
                assert(gids_done[j] == old_done[j]);
            } else {
                assert(copy@ == group@);
                assert(group@ == groups@[i as int]@);
                assert(resolved_groups@[j].gid == gid);
                assert(gids_done[j] == gid);
            }
        }
        i = i + 1;
    }
    assert(gids_in.take(groups@.len() as int) =~= gids_in);
    let ghost all_gids = gids_done;

    let mut resolved_users: Vec<ResolvedUser> = Vec::new();
    let ghost mut ids_done: Seq<(u32, u32)> = seq![];
    let mut i: usize = 0;
    assert(ids_in.take(0) =~= seq![]);
    while i < users.len()
        invariant
            i <= users@.len(),
            ids_in == declared_ids(users@),
            uid_start == existing_uids@.to_set(),
            gids_in == declared_gids(groups@),
            gid_start == existing_gids@.to_set(),
            resolve_users_spec(ids_in.take(i as int), uid_start) == Some((ids_done, uid_alloc@)),
            resolve_groups_spec(gids_in, gid_start) matches Some((g, _)) && g == all_gids,
            all_gids.len() == groups@.len(),
            resolved_groups@.len() == groups@.len(),
            forall|j: int|
                0 <= j < groups@.len() ==> #[trigger] resolved_groups@[j].group@ == groups@[j]@
                    && resolved_groups@[j].gid == all_gids[j],
            resolved_users@.len() == i,
            forall|j: int|
                0 <= j < i ==> #[trigger] resolved_users@[j].user@ == users@[j]@
                    && resolved_users@[j].uid == ids_done[j].0 && resolved_users@[j].gid
                    == ids_done[j].1,
            ids_done.len() == i,
        decreases users@.len() - i,
    {
        let user = &users[i];
        proof {
            assert(ids_in.take(i + 1).drop_last() =~= ids_in.take(i as int));
            assert(ids_in.take(i + 1).last() == (users@[i as int].uid, users@[i as int].primary_gid));
        }
        let ghost before = uid_alloc@;
        let uid = match user.uid {
            Some(id) => {
                let _ = uid_alloc.reserve(id);
                assert(uid_alloc@ =~= before.insert(id));
                id
            },
            None => match uid_alloc.allocate(IdKind::User) {
                Ok(id) => id,
                Err(e) => {
                    proof {
                        lemma_resolve_users_prefix_none(ids_in, uid_start, i + 1);
                    }
                    return Err(e);
                },
            },
        };
        let gid = match user.primary_gid {
            Some(id) => id,
            None => match uid_alloc.allocate(IdKind::User) {
                Ok(id) => id,
                Err(e) => {
                    proof {
                        lemma_resolve_users_prefix_none(ids_in, uid_start, i + 1);
                    }
                    return Err(e);
                },
            },
        };
        let ghost old_done = ids_done;
        proof {
            ids_done = ids_done.push((uid, gid));
        }
        let copy = user.clone();
        let ghost prev = resolved_users@;
        resolved_users.push(ResolvedUser { user: copy, uid, gid });
        assert forall|j: int| 0 <= j < i + 1 implies #[trigger] resolved_users@[j].user@
            == users@[j]@ && resolved_users@[j].uid == ids_done[j].0 && resolved_users@[j].gid
            == ids_done[j].1 by {
            if j < i {
                assert(resolved_users@[j] == prev[j]);
                assert(prev[j].user@ == users@[j]@);
                assert(prev[j].uid == old_done[j].0 && prev[j].gid == old_done[j].1);
                assert(ids_done[j] == old_done[j]);
            } else {
                assert(copy@ == user@);
                assert(resolved_users@[j].uid == uid && resolved_users@[j].gid == gid);
                assert(ids_done[j] == (uid, gid));
            }
        }
        i = i + 1;
    }
    assert(ids_in.take(users@.len() as int) =~= ids_in);
    Ok((resolved_users, resolved_groups))
}

/// Once a prefix of the groups runs out of ids, so do all the groups.
pub proof fn lemma_resolve_groups_prefix_none(gids: Seq<Option<u32>>, used: Set<u32>, n: int)
    requires
        0 <= n <= gids.len(),
        resolve_groups_spec(gids.take(n), used) is None,
    ensures
        resolve_groups_spec(gids, used) is None,
    decreases gids.len() - n,
{
    if n < gids.len() {
        assert(gids.take(n + 1).drop_last() =~= gids.take(n));
        lemma_resolve_groups_prefix_none(gids, used, n + 1);
    } else {
        assert(gids.take(n) =~= gids);
    }
}

/// Once a prefix of the users runs out of ids, so do all the users.
pub proof fn lemma_resolve_users_prefix_none(
    ids: Seq<(Option<u32>, Option<u32>)>,
    used: Set<u32>,
    n: int,
)
    requires
        0 <= n <= ids.len(),
        resolve_users_spec(ids.take(n), used) is None,
    ensures
        resolve_users_spec(ids, used) is None,
    decreases ids.len() - n,
{
    if n < ids.len() {
        assert(ids.take(n + 1).drop_last() =~= ids.take(n));
        lemma_resolve_users_prefix_none(ids, used, n + 1);
    } else {
        assert(ids.take(n) =~= ids);
    }
}

/// The account name an account-file line starts with: the text before its
/// first `:` (or the whole line).
pub open spec fn entry_name(line: Seq<char>) -> Seq<char> {
    split(line, ':')[0]
}

/// The account name is the text before the first `:`.
pub proof fn lemma_entry_name(line: Seq<char>)
    ensures
        entry_name(line) == line.take(index_of(line, CharClass::Exactly(':')) as int),
{
    lemma_index_of_bounds(line, CharClass::Exactly(':'));
    if index_of(line, CharClass::Exactly(':')) >= line.len() {
        assert(line.take(line.len() as int) =~= line);
    }
}

/// Whether `line` is the entry of account `name`.
pub fn is_entry_of(line: &[char], name: &[char]) -> (b: bool)
    ensures
        b == (entry_name(line@) == name@),
{
    let k = find_class(line, CharClass::Exactly(':'), 0);
    proof {
        assert(line@.skip(0) =~= line@);
        lemma_entry_name(line@);
    }
    let head = crate::text::slice_vec(line, 0, k);
    assert(head@ =~= line@.take(k as int));
    crate::text::eq_chars(head.as_slice(), name)
}

/// Whether some line of the file text `content` is the entry of `name`.
pub open spec fn has_entry_spec(content: Seq<char>, name: Seq<char>) -> bool {
    exists|j: int| 0 <= j < lines(content).len() && entry_name(#[trigger] lines(content)[j]) == name
}

/// Whether the file text `content` holds an entry for account `name`.
pub fn has_entry(content: &str, name: &str) -> (b: bool)
    ensures
        b == has_entry_spec(content@, name@),
{
    let text = chars_of(content);
    let ls = lines_of(text.as_slice());
    let who = chars_of(name);
    let mut j: usize = 0;
    while j < ls.len()
        invariant
            j <= ls@.len(),
            views(ls@) == lines(content@),
            who@ == name@,
            forall|k: int| 0 <= k < j ==> entry_name(#[trigger] lines(content@)[k]) != name@,
        decreases ls@.len() - j,
    {
        assert(views(ls@)[j as int] == ls@[j as int]@);
        if is_entry_of(ls[j].as_slice(), who.as_slice()) {
            return true;
        }
        j = j + 1;
    }
    false
}

/// The file text `content` with every entry of `name` replaced by
/// `new_line`, lines joined by `\n` and ended by one.
pub open spec fn replaced_entries(content: Seq<char>, name: Seq<char>, new_line: Seq<char>) -> Seq<
    char,
> {
    join(replaced_lines(lines(content), name, new_line), "\n"@) + "\n"@
}

/// The lines `ls` with every entry of `name` replaced by `new_line`.
pub open spec fn replaced_lines(ls: Seq<Seq<char>>, name: Seq<char>, new_line: Seq<char>) -> Seq<
    Seq<char>,
> {
    Seq::new(ls.len(), |j: int| if entry_name(ls[j]) == name { new_line } else { ls[j] })
}

/// The file text `content` without the entries of `name`, lines joined by
/// `\n` and ended by one.
pub open spec fn removed_entries(content: Seq<char>, name: Seq<char>) -> Seq<char> {
    join(lines(content).filter(|l: Seq<char>| entry_name(l) != name), "\n"@) + "\n"@
}

/// Replaces every entry of `name` in the file text `content` by `new_line`.
pub fn replace_entry(content: &str, name: &str, new_line: &str) -> (r: String)
    ensures
        r@ == replaced_entries(content@, name@, new_line@),
{
    let text = chars_of(content);
    let ls = lines_of(text.as_slice());
    let who = chars_of(name);
    let replacement = chars_of(new_line);
    let ghost target = replaced_lines(lines(content@), name@, new_line@);
    let mut out: Vec<Vec<char>> = Vec::new();
    let mut j: usize = 0;
    while j < ls.len()
        invariant
            j <= ls@.len(),
            views(ls@) == lines(content@),
            who@ == name@,
            replacement@ == new_line@,
            target.len() == ls@.len(),
            target == replaced_lines(lines(content@), name@, new_line@),
            views(out@) == target.take(j as int),
        decreases ls@.len() - j,
    {
        assert(views(ls@)[j as int] == ls@[j as int]@);
        let ghost before = views(out@);
        if is_entry_of(ls[j].as_slice(), who.as_slice()) {
            out.push(crate::text::slice_vec(replacement.as_slice(), 0, replacement.len()));
        } else {
            out.push(crate::text::slice_vec(ls[j].as_slice(), 0, ls[j].len()));
        }
        assert(replacement@.subrange(0, replacement@.len() as int) =~= replacement@);
        assert(ls@[j as int]@.subrange(0, ls@[j as int]@.len() as int) =~= ls@[j as int]@);
        assert(views(out@) =~= before.push(target[j as int]));
        assert(target.take(j + 1) =~= target.take(j as int).push(target[j as int]));
        j = j + 1;
    }
    assert(target.take(ls@.len() as int) =~= target);
    let newline = chars_of("\n");
    let mut joined = join_with(&out, newline.as_slice());
    push_all(&mut joined, newline.as_slice());
    string_of(joined.as_slice())
}

/// Removes every entry of `name` from the file text `content`.
pub fn remove_entry(content: &str, name: &str) -> (r: String)
    ensures
        r@ == removed_entries(content@, name@),
{
    let text = chars_of(content);
    let ls = lines_of(text.as_slice());
    let who = chars_of(name);
    let ghost pred = |l: Seq<char>| entry_name(l) != name@;
    let mut out: Vec<Vec<char>> = Vec::new();
    let mut j: usize = 0;
    while j < ls.len()
        invariant
            j <= ls@.len(),
            views(ls@) == lines(content@),
            who@ == name@,
            pred == (|l: Seq<char>| entry_name(l) != name@),
            views(out@) == views(ls@).take(j as int).filter(pred),
        decreases ls@.len() - j,
    {
        assert(views(ls@)[j as int] == ls@[j as int]@);
        let ghost before = views(out@);
        proof {
            let pre = views(ls@).take(j as int);
            let post = views(ls@).take(j + 1);
            assert(post.drop_last() =~= pre);
            reveal_with_fuel(Seq::filter, 1);
        }
        if !is_entry_of(ls[j].as_slice(), who.as_slice()) {
            out.push(crate::text::slice_vec(ls[j].as_slice(), 0, ls[j].len()));
            assert(ls@[j as int]@.subrange(0, ls@[j as int]@.len() as int) =~= ls@[j as int]@);
            assert(views(out@) =~= before.push(ls@[j as int]@));
        }
        j = j + 1;
    }
    assert(views(ls@).take(ls@.len() as int) =~= views(ls@));
    let newline = chars_of("\n");
    let mut joined = join_with(&out, newline.as_slice());
    push_all(&mut joined, newline.as_slice());
    string_of(joined.as_slice())
}

/// The `/etc/passwd` line of a user with the given uid and gid.
pub open spec fn passwd_line(u: UserView, uid: u32, gid: u32) -> Seq<char> {
    u.name + ":x:"@ + decimal(uid as nat) + ":"@ + decimal(gid as nat) + ":"@ + u.name + ":"@
        + u.home_dir + ":"@ + u.shell.path()
}

/// The password field of a shadow line: `!` for a locked account.
pub open spec fn password_field(p: PasswordView) -> Seq<char> {
    match p {
        PasswordView::Locked => "!"@,
        PasswordView::Hashed(h) => h,
    }
}

/// The `/etc/shadow` line of a user whose password changed `days` days
/// after the epoch.
pub open spec fn shadow_line(u: UserView, days: u64) -> Seq<char> {
    u.name + ":"@ + password_field(u.password) + ":"@ + decimal(days as nat) + ":0:99999:7:::"@
}

/// The `/etc/group` line of a group with the given gid.
pub open spec fn group_line(g: GroupView, gid: u32) -> Seq<char> {
    g.name + ":x:"@ + decimal(gid as nat) + ":"@ + join(g.members, ","@)
}

/// The `/etc/passwd` entry of a resolved user.
pub fn passwd_entry(ru: &ResolvedUser) -> (r: String)
    ensures
        r@ == passwd_line(ru.user@, ru.uid, ru.gid),
{
    let name = chars_of(ru.user.name.as_str());
    let mut out: Vec<char> = Vec::new();
    push_all(&mut out, name.as_slice());
    push_all(&mut out, chars_of(":x:").as_slice());
    push_all(&mut out, decimal_of(ru.uid as u64).as_slice());
    push_all(&mut out, chars_of(":").as_slice());
    push_all(&mut out, decimal_of(ru.gid as u64).as_slice());
    push_all(&mut out, chars_of(":").as_slice());
    push_all(&mut out, name.as_slice());
    push_all(&mut out, chars_of(":").as_slice());
    push_all(&mut out, chars_of(ru.user.home_dir.as_str()).as_slice());
    push_all(&mut out, chars_of(":").as_slice());
    push_all(&mut out, chars_of(ru.user.shell.as_path()).as_slice());
    string_of(out.as_slice())
}

/// The `/etc/shadow` entry of a user, dated `days` days after the epoch.
pub fn shadow_entry(user: &User, days: u64) -> (r: String)
    ensures
        r@ == shadow_line(user@, days),
{
    let mut out: Vec<char> = Vec::new();
    push_all(&mut out, chars_of(user.name.as_str()).as_slice());
    push_all(&mut out, chars_of(":").as_slice());
    match &user.password {
        Password::Locked => push_all(&mut out, chars_of("!").as_slice()),
        Password::Hashed(h) => push_all(&mut out, chars_of(h.as_str()).as_slice()),
    }
    push_all(&mut out, chars_of(":").as_slice());
    push_all(&mut out, decimal_of(days).as_slice());
    push_all(&mut out, chars_of(":0:99999:7:::").as_slice());
    string_of(out.as_slice())
}

/// The `/etc/group` entry of a resolved group, members joined by `,`.
pub fn group_entry(rg: &ResolvedGroup) -> (r: String)
    ensures
        r@ == group_line(rg.group@, rg.gid),
{
    let members = crate::text::char_vecs_of_slice(rg.group.members());
    let mut out: Vec<char> = Vec::new();
    push_all(&mut out, chars_of(rg.group.group_name()).as_slice());
    push_all(&mut out, chars_of(":x:").as_slice());
    push_all(&mut out, decimal_of(rg.gid as u64).as_slice());
    push_all(&mut out, chars_of(":").as_slice());
    push_all(&mut out, join_with(&members, chars_of(",").as_slice()).as_slice());
    string_of(out.as_slice())
}

/// The `/etc/passwd` text `content` with the entry of `ru`'s user replaced.
pub fn update_passwd_entry(content: &str, ru: &ResolvedUser) -> (r: String)
    ensures
        r@ == replaced_entries(content@, ru.user@.name, passwd_line(ru.user@, ru.uid, ru.gid)),
{
    let line = passwd_entry(ru);
    replace_entry(content, ru.user.name.as_str(), line.as_str())
}

/// The `/etc/shadow` text `content` with the entry of `user` replaced,
/// dated `days` days after the epoch.
pub fn update_shadow_entry(content: &str, user: &User, days: u64) -> (r: String)
    ensures
        r@ == replaced_entries(content@, user@.name, shadow_line(user@, days)),
{
    let line = shadow_entry(user, days);
    replace_entry(content, user.name.as_str(), line.as_str())
}

/// The `/etc/group` text `content` with the entry of `rg`'s group replaced.
pub fn update_group_entry(content: &str, rg: &ResolvedGroup) -> (r: String)
    ensures
        r@ == replaced_entries(content@, rg.group@.name, group_line(rg.group@, rg.gid)),
{
    let line = group_entry(rg);
    replace_entry(content, rg.group.group_name(), line.as_str())
}

/// The id in the third `:`-separated field of an account-file line, if
/// that field is a `u32`.
pub open spec fn id_of_line(line: Seq<char>) -> Option<u32> {
    let fields = split(line, ':');
    if fields.len() > 2 {
        parse_u32_spec(fields[2])
    } else {
        None
    }
}

/// The ids of the lines `ls`, in order, skipping lines without one.
pub open spec fn ids_of_lines(ls: Seq<Seq<char>>) -> Seq<u32>
    decreases ls.len(),
{
    if ls.len() == 0 {
        seq![]
    } else {
        let rest = ids_of_lines(ls.drop_last());
        match id_of_line(ls.last()) {
            Some(id) => rest.push(id),
            None => rest,
        }
    }
}

/// The ids listed in the third field of the lines of an account file's
/// text (`/etc/passwd` or `/etc/group`).
pub fn existing_ids(content: &str) -> (ids: Vec<u32>)
    ensures
        ids@ == ids_of_lines(lines(content@)),
{
    let text = chars_of(content);
    let ls = lines_of(text.as_slice());
    let mut ids: Vec<u32> = Vec::new();
    let mut j: usize = 0;
    while j < ls.len()
        invariant
            j <= ls@.len(),
            views(ls@) == lines(content@),
            ids@ == ids_of_lines(views(ls@).take(j as int)),
        decreases ls@.len() - j,
    {
        assert(views(ls@)[j as int] == ls@[j as int]@);
        assert(views(ls@).take(j + 1).drop_last() =~= views(ls@).take(j as int));
        let fields = split_on(ls[j].as_slice(), ':');
        if fields.len() > 2 {
            assert(views(fields@)[2] == fields@[2]@);
            if let Some(id) = parse_u32(fields[2].as_slice()) {
                ids.push(id);
            }
        }
        j = j + 1;
    }
    assert(views(ls@).take(ls@.len() as int) =~= views(ls@));
    ids
}

/// The gids given to groups: a declared gid is kept; a generated one is a
/// system id that was neither in use nor given to an earlier group; the ids
/// in use afterwards are the ones before and every gid given.
pub proof fn law_resolved_gids_are_fresh(gids: Seq<Option<u32>>, used: Set<u32>)
    ensures
        resolve_groups_spec(gids, used) matches Some((ids, u)) ==> {
            &&& ids.len() == gids.len()
            &&& u == used.union(ids.to_set())
            &&& forall|i: int| 0 <= i < gids.len() && (#[trigger] gids[i]) is Some ==> ids[i] == gids[i]->0
            &&& forall|i: int|
                0 <= i < gids.len() && (#[trigger] gids[i]) is None ==> {
                    &&& 1 <= ids[i] <= 999
                    &&& !used.contains(ids[i])
                    &&& forall|j: int| 0 <= j < i ==> ids[j] != ids[i]
                }
        },
    decreases gids.len(),
{
    broadcast use vstd::seq_lib::group_seq_properties;
    if gids.len() > 0 {
        let t = gids.drop_last();
        law_resolved_gids_are_fresh(t, used);
        if let Some((ids0, u0)) = resolve_groups_spec(t, used) {
            if let Some((id, u1)) = group_step(gids.last(), u0) {
                let ids = ids0.push(id);
                assert(ids.to_set() =~= ids0.to_set().insert(id));
                assert(u1 =~= used.union(ids.to_set()));
                if gids.last() is None {
                    crate::access_control::id_alloc::law_allocated_id_is_fresh(u0, IdKind::System);
                    assert forall|j: int| 0 <= j < t.len() implies ids[j] != id by {
                        assert(ids0.to_set().contains(ids0[j]));
                    }
                }
                assert forall|i: int| 0 <= i < gids.len() && (#[trigger] gids[i]) is None implies {
                    &&& 1 <= ids[i] <= 999
                    &&& !used.contains(ids[i])
                    &&& forall|j: int| 0 <= j < i ==> ids[j] != ids[i]
                } by {
                    if i < t.len() {
                        assert(gids[i] == t[i]);
                        assert(ids[i] == ids0[i]);
                        assert forall|j: int| 0 <= j < i implies ids[j] != ids[i] by {
                            assert(ids[j] == ids0[j]);
                        }
                    } else {
                        assert forall|j: int| 0 <= j < i implies ids[j] != ids[i] by {
                            assert(ids[j] == ids0[j]);
                        }
                    }
                }
                assert forall|i: int| 0 <= i < gids.len() && (#[trigger] gids[i]) is Some implies ids[i]
                    == gids[i]->0 by {
                    if i < t.len() {
                        assert(gids[i] == t[i]);
                    }
                }
            }
        }
    }
}

/// What the user allocator holds after resolving users `ids` from `used`:
/// the ids before, every uid given and every primary gid it generated.
pub open spec fn holds_all(ids: Seq<(Option<u32>, Option<u32>)>, used: Set<u32>, res: Seq<(u32, u32)>, u: Set<u32>) -> bool {
    &&& used.subset_of(u)
    &&& forall|i: int| 0 <= i < res.len() ==> u.contains(#[trigger] res[i].0)
    &&& forall|i: int| 0 <= i < res.len() && (#[trigger] ids[i]).1 is None ==> u.contains(res[i].1)
}

/// The uids and primary gids given to users: declared ones are kept; a
/// generated uid is a user id neither in use nor given to an earlier user
/// (as uid or generated gid); a generated primary gid is a user id neither
/// in use, nor the user's own uid, nor given to an earlier user.
pub proof fn law_resolved_uids_are_fresh(ids: Seq<(Option<u32>, Option<u32>)>, used: Set<u32>)
    ensures
        resolve_users_spec(ids, used) matches Some((res, u)) ==> {
            &&& res.len() == ids.len()
            &&& holds_all(ids, used, res, u)
            &&& forall|i: int| 0 <= i < ids.len() && (#[trigger] ids[i]).0 is Some ==> res[i].0 == ids[i].0->0
            &&& forall|i: int| 0 <= i < ids.len() && (#[trigger] ids[i]).1 is Some ==> res[i].1 == ids[i].1->0
            &&& forall|i: int|
                0 <= i < ids.len() && (#[trigger] ids[i]).0 is None ==> {
                    &&& 1000 <= res[i].0 <= 65534
                    &&& !used.contains(res[i].0)
                    &&& forall|j: int| 0 <= j < i ==> res[j].0 != res[i].0 && (ids[j].1 is None ==> res[j].1 != res[i].0)
                }
            &&& forall|i: int|
                0 <= i < ids.len() && (#[trigger] ids[i]).1 is None ==> {
                    &&& 1000 <= res[i].1 <= 65534
                    &&& !used.contains(res[i].1)
                    &&& res[i].1 != res[i].0
                    &&& forall|j: int| 0 <= j < i ==> res[j].0 != res[i].1 && (ids[j].1 is None ==> res[j].1 != res[i].1)
                }
        },
    decreases ids.len(),
{
    if ids.len() > 0 {
        let t = ids.drop_last();
        law_resolved_uids_are_fresh(t, used);
        if let Some((res0, u0)) = resolve_users_spec(t, used) {
            let last = ids.last();
            if let Some((uid, gid, u2)) = user_step(last.0, last.1, u0) {
                let res = res0.push((uid, gid));
                let u1 = match last.0 {
                    Some(id) => u0.insert(id),
                    None => u0.insert(uid),
                };
                if last.0 is None {
                    crate::access_control::id_alloc::law_allocated_id_is_fresh(u0, IdKind::User);
                }
                if last.1 is None {
                    crate::access_control::id_alloc::law_allocated_id_is_fresh(u1, IdKind::User);
                }
                assert(u1.contains(uid));
                assert(u1.subset_of(u2));
                assert forall|j: int| 0 <= j < t.len() implies u0.contains(#[trigger] res0[j].0) by {}
                assert(holds_all(ids, used, res, u2)) by {
                    assert forall|i: int| 0 <= i < res.len() implies u2.contains(#[trigger] res[i].0) by {
                        if i < t.len() {
                            assert(res[i] == res0[i]);
                        }
                    }
                    assert forall|i: int| 0 <= i < res.len() && (#[trigger] ids[i]).1 is None implies u2.contains(
                        res[i].1,
                    ) by {
                        if i < t.len() {
                            assert(res[i] == res0[i]);
                            assert(ids[i] == t[i]);
                        }
                    }
                }
                assert forall|i: int| 0 <= i < ids.len() && (#[trigger] ids[i]).0 is None implies {
                    &&& 1000 <= res[i].0 <= 65534
                    &&& !used.contains(res[i].0)
                    &&& forall|j: int| 0 <= j < i ==> res[j].0 != res[i].0 && (ids[j].1 is None ==> res[j].1 != res[i].0)
                } by {
                    if i < t.len() {
                        assert(ids[i] == t[i] && res[i] == res0[i]);
                        assert forall|j: int| 0 <= j < i implies res[j].0 != res[i].0 && (ids[j].1 is None ==> res[j].1 != res[i].0) by {
                            assert(ids[j] == t[j] && res[j] == res0[j]);
                        }
                    } else {
                        assert forall|j: int| 0 <= j < i implies res[j].0 != res[i].0 && (ids[j].1 is None ==> res[j].1 != res[i].0) by {
                            assert(ids[j] == t[j] && res[j] == res0[j]);
                            assert(u0.contains(res0[j].0));
                            if t[j].1 is None {
                                assert(u0.contains(res0[j].1));
                            }
                        }
                    }
                }
                assert forall|i: int| 0 <= i < ids.len() && (#[trigger] ids[i]).1 is None implies {
                    &&& 1000 <= res[i].1 <= 65534
                    &&& !used.contains(res[i].1)
                    &&& res[i].1 != res[i].0
                    &&& forall|j: int| 0 <= j < i ==> res[j].0 != res[i].1 && (ids[j].1 is None ==> res[j].1 != res[i].1)
                } by {
                    if i < t.len() {
                        assert(ids[i] == t[i] && res[i] == res0[i]);
                        assert forall|j: int| 0 <= j < i implies res[j].0 != res[i].1 && (ids[j].1 is None ==> res[j].1 != res[i].1) by {
                            assert(ids[j] == t[j] && res[j] == res0[j]);
                        }
                    } else {
                        assert forall|j: int| 0 <= j < i implies res[j].0 != res[i].1 && (ids[j].1 is None ==> res[j].1 != res[i].1) by {
                            assert(ids[j] == t[j] && res[j] == res0[j]);
                            assert(u0.contains(res0[j].0));
                            if t[j].1 is None {
                                assert(u0.contains(res0[j].1));
                            }
                        }
                    }
                }
                assert forall|i: int| 0 <= i < ids.len() && (#[trigger] ids[i]).0 is Some implies res[i].0
                    == ids[i].0->0 by {
                    if i < t.len() {
                        assert(ids[i] == t[i] && res[i] == res0[i]);
                    }
                }
                assert forall|i: int| 0 <= i < ids.len() && (#[trigger] ids[i]).1 is Some implies res[i].1
                    == ids[i].1->0 by {
                    if i < t.len() {
                        assert(ids[i] == t[i] && res[i] == res0[i]);
                    }
                }
            }
        }
    }
}

} // verus!
