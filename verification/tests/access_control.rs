use thanatos::access_control::account_files::{
    append_entry, apply_groups, apply_users, needs_write, remove_group, remove_user,
    shadow_required,
};
use thanatos::access_control::application::{
    existing_ids, group_entry, has_entry, passwd_entry, remove_entry, replace_entry, resolve_ids,
    shadow_entry, update_group_entry, update_passwd_entry, update_shadow_entry, ResolvedGroup,
    ResolvedUser,
};
use thanatos::access_control::group::Group;
use thanatos::access_control::id_alloc::{IdAllocator, IdError, IdKind};
use thanatos::access_control::user::{Password, Shell, User};

fn resolved(user: User, uid: u32, gid: u32) -> ResolvedUser {
    ResolvedUser { user, uid, gid }
}

#[test]
fn allocator_hands_out_lowest_free_ids() {
    let mut a = IdAllocator::new();
    assert!(a.allocate(IdKind::System) == Ok(1));
    assert!(a.allocate(IdKind::System) == Ok(2));
    assert!(a.allocate(IdKind::User) == Ok(1000));
    assert!(a.is_used(1));
    assert!(a.is_used(1000));
    assert!(!a.is_used(3));
}

#[test]
fn allocator_skips_existing_ids() {
    let mut a = IdAllocator::with_existing(vec![1000, 1001, 1003]);
    assert!(a.allocate(IdKind::User) == Ok(1002));
    assert!(a.allocate(IdKind::User) == Ok(1004));
}

#[test]
fn allocator_reserve_refuses_used_id() {
    let mut a = IdAllocator::new();
    assert!(a.reserve(5) == Ok(()));
    assert!(a.is_used(5));
    assert!(a.reserve(5) == Err(IdError::InUse(5)));
}

#[test]
fn allocator_release_frees_id() {
    let mut a = IdAllocator::with_existing(vec![7]);
    a.release(7);
    assert!(!a.is_used(7));
    assert!(a.reserve(7) == Ok(()));
}

#[test]
fn allocator_exhausts_system_range() {
    let mut a = IdAllocator::with_existing((1..=999).collect());
    assert!(a.allocate(IdKind::System) == Err(IdError::Exhausted));
    assert!(a.allocate(IdKind::User) == Ok(1000));
}

#[test]
fn allocated_id_is_fresh_and_then_used() {
    let mut a = IdAllocator::with_existing(vec![1, 2, 3]);
    let id = a.allocate(IdKind::System).unwrap();
    assert!(id >= 1 && id <= 999);
    assert!(id != 1 && id != 2 && id != 3);
    assert!(a.is_used(id));
}

#[test]
fn user_defaults() {
    let u = User::new("alice");
    assert_eq!(u.name, "alice");
    assert_eq!(u.uid, None);
    assert_eq!(u.primary_gid, None);
    assert!(u.secondary_gids.is_empty());
    assert_eq!(u.home_dir, "/home/alice");
    assert_eq!(u.shell.as_path(), "/bin/bash");
    assert!(matches!(u.password, Password::Locked));
}

#[test]
fn user_builders() {
    let u = User::new("bob")
        .uid(1500)
        .primary_group(100)
        .shell(Shell::Custom("/opt/sh".to_string()))
        .home_dir("/srv/bob")
        .password(Password::Hashed("$6$abc".to_string()));
    assert_eq!(u.uid, Some(1500));
    assert_eq!(u.primary_gid, Some(100));
    assert_eq!(u.shell.as_path(), "/opt/sh");
    assert_eq!(u.home_dir, "/srv/bob");
    assert!(matches!(u.password, Password::Hashed(ref h) if h == "$6$abc"));
}

#[test]
fn shell_paths() {
    assert_eq!(Shell::Bash.as_path(), "/bin/bash");
    assert_eq!(Shell::Zsh.as_path(), "/bin/zsh");
    assert_eq!(Shell::Fish.as_path(), "/usr/bin/fish");
    assert_eq!(Shell::Sh.as_path(), "/bin/sh");
}

#[test]
fn user_groups() {
    let mut u = User::new("carol").primary_group(100);
    assert!(u.in_group(100));
    assert!(!u.in_group(10));
    u.add_group(10);
    u.add_group(10);
    assert_eq!(u.secondary_gids, vec![10]);
    assert!(u.in_group(10));
    u.add_group(20);
    u.remove_group(10);
    assert_eq!(u.secondary_gids, vec![20]);
    assert!(!u.in_group(10));
}

#[test]
fn group_members() {
    let mut g = Group::new("wheel").gid(10);
    assert_eq!(g.gid, Some(10));
    assert_eq!(g.declared_gid(), Some(10));
    assert_eq!(g.group_name(), "wheel");
    g.add_member("alice");
    g.add_member("bob");
    g.add_member("alice");
    assert_eq!(g.members(), &["alice".to_string(), "bob".to_string()]);
    assert!(g.has_member("bob"));
    g.remove_member("alice");
    assert!(!g.has_member("alice"));
    assert_eq!(g.members(), &["bob".to_string()]);
}

#[test]
fn resolve_ids_gives_fresh_ids() {
    let users = vec![User::new("alice"), User::new("bob").uid(1500).primary_group(100)];
    let groups = vec![Group::new("wheel"), Group::new("docker").gid(998)];
    let (ru, rg) = match resolve_ids(&users, &groups, vec![0, 1000], vec![0, 1]) {
        Ok(r) => r,
        Err(_) => panic!("ids should resolve"),
    };
    assert_eq!(rg.len(), 2);
    assert_eq!(rg[0].group.name, "wheel");
    assert_eq!(rg[0].gid, 2);
    assert_eq!(rg[1].group.name, "docker");
    assert_eq!(rg[1].gid, 998);
    assert_eq!(ru.len(), 2);
    assert_eq!(ru[0].user.name, "alice");
    assert_eq!((ru[0].uid, ru[0].gid), (1001, 1002));
    assert_eq!(ru[1].user.name, "bob");
    assert_eq!((ru[1].uid, ru[1].gid), (1500, 100));
}

#[test]
fn resolve_ids_fails_when_range_runs_out() {
    let groups = vec![Group::new("extra")];
    let r = resolve_ids(&[], &groups, vec![], (1..=999).collect());
    assert!(matches!(r, Err(IdError::Exhausted)));
}

#[test]
fn passwd_shadow_group_lines() {
    let ru = resolved(User::new("alice"), 1001, 1002);
    assert_eq!(
        passwd_entry(&ru),
        "alice:x:1001:1002:alice:/home/alice:/bin/bash"
    );
    assert_eq!(shadow_entry(&ru.user, 19000), "alice:!:19000:0:99999:7:::");
    let hashed = User::new("bob").password(Password::Hashed("$6$x".to_string()));
    assert_eq!(shadow_entry(&hashed, 7), "bob:$6$x:7:0:99999:7:::");
    let mut g = Group::new("wheel");
    g.add_member("alice");
    g.add_member("bob");
    let rg = ResolvedGroup { group: g, gid: 10 };
    assert_eq!(group_entry(&rg), "wheel:x:10:alice,bob");
    let empty = ResolvedGroup { group: Group::new("docker"), gid: 998 };
    assert_eq!(group_entry(&empty), "docker:x:998:");
}

#[test]
fn entries_are_found_by_name() {
    let content = "root:x:0:0:root:/root:/bin/bash\nalice:x:1000:1000::/home/alice:/bin/sh\n";
    assert!(has_entry(content, "root"));
    assert!(has_entry(content, "alice"));
    assert!(!has_entry(content, "ali"));
    assert!(!has_entry(content, "bob"));
    assert!(!has_entry("", "root"));
}

#[test]
fn replace_entry_rewrites_matching_lines() {
    let content = "root:x:0\nalice:x:1\nbob:x:2";
    assert_eq!(
        replace_entry(content, "alice", "alice:x:9"),
        "root:x:0\nalice:x:9\nbob:x:2\n"
    );
    assert_eq!(replace_entry("", "alice", "alice:x:9"), "\n");
}

#[test]
fn remove_entry_drops_matching_lines() {
    let content = "root:x:0\r\nalice:x:1\nbob:x:2\n";
    assert_eq!(remove_entry(content, "alice"), "root:x:0\nbob:x:2\n");
    assert_eq!(remove_entry("alice:x:1\n", "alice"), "\n");
}

#[test]
fn update_entries() {
    let ru = resolved(User::new("alice").shell(Shell::Zsh), 1001, 1002);
    let passwd = "root:x:0:0:root:/root:/bin/bash\nalice:x:1:1:old:/old:/bin/sh\n";
    assert_eq!(
        update_passwd_entry(passwd, &ru),
        "root:x:0:0:root:/root:/bin/bash\nalice:x:1001:1002:alice:/home/alice:/bin/zsh\n"
    );
    let shadow = "alice:old:1:0:99999:7:::\n";
    assert_eq!(
        update_shadow_entry(shadow, &ru.user, 20000),
        "alice:!:20000:0:99999:7:::\n"
    );
    let rg = ResolvedGroup { group: Group::new("wheel"), gid: 10 };
    assert_eq!(update_group_entry("wheel:x:5:root\n", &rg), "wheel:x:10:\n");
}

#[test]
fn existing_ids_reads_third_field() {
    let content = "root:x:0:0::/root:/bin/bash\nbad line\nx:x:notnum:1\nalice:x:1001:1002:alice:/home/alice:/bin/bash";
    assert_eq!(existing_ids(content), vec![0, 1001]);
    assert_eq!(existing_ids(""), Vec::<u32>::new());
    assert_eq!(existing_ids("a:b:+7\nc:d:4294967296\n"), vec![7]);
}

#[test]
fn written_uid_is_read_back() {
    let ru = resolved(User::new("dave"), 4242, 17);
    let line = passwd_entry(&ru);
    assert_eq!(existing_ids(&line), vec![4242]);
    let rg = ResolvedGroup { group: Group::new("staff"), gid: 50 };
    assert_eq!(existing_ids(&group_entry(&rg)), vec![50]);
}

#[test]
fn append_entry_adds_line() {
    assert_eq!(append_entry("a\n", "b"), "a\nb\n");
    assert_eq!(append_entry("", "b"), "b\n");
}

#[test]
fn apply_users_updates_and_appends() {
    let passwd = "root:x:0:0:root:/root:/bin/bash\nalice:x:1:1:old:/old:/bin/sh\n";
    let shadow = "root:!:1:0:99999:7:::\nalice:old:1:0:99999:7:::\n";
    let users = vec![
        resolved(User::new("alice"), 1001, 1002),
        resolved(
            User::new("bob")
                .shell(Shell::Zsh)
                .password(Password::Hashed("$6$x".to_string())),
            1500,
            100,
        ),
    ];
    let files = apply_users(passwd, shadow, &users, 19000);
    assert_eq!(
        files.passwd,
        "root:x:0:0:root:/root:/bin/bash\nalice:x:1001:1002:alice:/home/alice:/bin/bash\nbob:x:1500:100:bob:/home/bob:/bin/zsh\n"
    );
    assert_eq!(
        files.shadow,
        "root:!:1:0:99999:7:::\nalice:!:19000:0:99999:7:::\nbob:$6$x:19000:0:99999:7:::\n"
    );
    assert_eq!(files.new_homes, vec![1]);
}

#[test]
fn applied_users_have_entries() {
    let users = vec![
        resolved(User::new("erin"), 1000, 1000),
        resolved(User::new("frank"), 1001, 1001),
        resolved(User::new("erin").shell(Shell::Sh), 1000, 1000),
    ];
    let files = apply_users("", "", &users, 1);
    assert!(has_entry(&files.passwd, "erin"));
    assert!(has_entry(&files.passwd, "frank"));
    assert_eq!(files.new_homes, vec![0, 1]);
    assert_eq!(
        files.passwd,
        "erin:x:1000:1000:erin:/home/erin:/bin/sh\nfrank:x:1001:1001:frank:/home/frank:/bin/bash\n"
    );
}

#[test]
fn apply_groups_updates_and_appends() {
    let mut wheel = Group::new("wheel");
    wheel.add_member("alice");
    wheel.add_member("bob");
    let groups = vec![
        ResolvedGroup { group: wheel, gid: 10 },
        ResolvedGroup { group: Group::new("docker"), gid: 998 },
    ];
    let out = apply_groups("wheel:x:10:root\n", &groups);
    assert_eq!(out, "wheel:x:10:alice,bob\ndocker:x:998:\n");
    assert!(has_entry(&out, "wheel"));
    assert!(has_entry(&out, "docker"));
}

#[test]
fn remove_user_and_group() {
    let passwd = "root:x:0:0::/root:/bin/bash\nalice:x:1000:1000::/home/alice:/bin/bash\n";
    let shadow = "root:!:1:0:99999:7:::\nalice:!:1:0:99999:7:::\n";
    let (p, s) = remove_user(passwd, shadow, "alice");
    assert_eq!(p, "root:x:0:0::/root:/bin/bash\n");
    assert_eq!(s, "root:!:1:0:99999:7:::\n");
    assert!(!has_entry(&p, "alice"));
    let g = remove_group("wheel:x:10:\nstaff:x:50:\n", "wheel");
    assert_eq!(g, "staff:x:50:\n");
    assert!(!has_entry(&g, "wheel"));
}

#[test]
fn id_error_messages() {
    assert_eq!(IdError::Exhausted.message(), "no available IDs in range");
    assert_eq!(IdError::InUse(1000).message(), "id 1000 is already in use");
}

#[test]
fn group_keeps_members_as_given() {
    let g = Group::with_members(
        "audio",
        Some(63),
        vec!["alice".to_string(), "bob".to_string(), "alice".to_string()],
    );
    assert_eq!(g.name, "audio");
    assert_eq!(g.gid, Some(63));
    assert_eq!(
        g.members(),
        &["alice".to_string(), "bob".to_string(), "alice".to_string()]
    );
    let rg = ResolvedGroup { group: g, gid: 63 };
    assert_eq!(group_entry(&rg), "audio:x:63:alice,bob,alice");
}

#[test]
fn removing_applied_user_restores_files() {
    let passwd = "root:x:0:0:root:/root:/bin/bash\n";
    let shadow = "root:!:1:0:99999:7:::\n";
    let users = vec![resolved(User::new("gina"), 1000, 1000)];
    let files = apply_users(passwd, shadow, &users, 19000);
    let (p, s) = remove_user(&files.passwd, &files.shadow, "gina");
    assert_eq!(p, passwd);
    assert_eq!(s, shadow);
}

#[test]
fn shadow_needed_only_for_existing_users() {
    let passwd = "root:x:0:0::/root:/bin/bash\n";
    assert!(shadow_required(passwd, &[resolved(User::new("root"), 0, 0)]));
    assert!(!shadow_required(passwd, &[resolved(User::new("hal"), 1000, 1000)]));
    assert!(!shadow_required(passwd, &[]));
}

#[test]
fn write_decisions() {
    assert!(!needs_write(Some("a\n"), "a\n"));
    assert!(needs_write(Some("a\n"), "b\n"));
    assert!(needs_write(None, "a\n"));
    assert!(!needs_write(None, ""));
    assert!(needs_write(Some(""), "x"));
}
