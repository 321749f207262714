use hirust_router::group::{
    add_group, chain_depth, chain_prefix, find_group, first_too_deep, freeze_resolved, global_auth, group_middleware, inherited_auth,
    set_global_auth, GroupError, GroupRegistry,
};
use hirust_router::middleware::{authorization_accepted, middleware_chain};

fn admin_user() -> GroupRegistry<u8> {
    let mut g: GroupRegistry<u8> = GroupRegistry::new();
    add_group(&mut g, "/admin", None, &[1], Some(true)).unwrap();
    add_group(&mut g, "/user", Some("/admin"), &[2, 3], None).unwrap();
    g
}

#[test]
fn nested_group_full_prefix() {
    let g = admin_user();
    let child = find_group(&g, "/admin/user").unwrap();
    assert_eq!(child.segment, "/user");
    assert_eq!(child.full, "/admin/user");
    assert_eq!(child.parent.as_deref(), Some("/admin"));
    assert_eq!(child.middleware, vec![2, 3]);
    assert_eq!(child.auth, None);
    assert!(find_group(&g, "/user").is_none());
    assert_eq!(chain_prefix(&g, "/admin/user"), "/admin/user");
    assert_eq!(chain_prefix(&g, "/nope"), "");
}

#[test]
fn group_middleware_outer_first() {
    let g = admin_user();
    assert_eq!(group_middleware(&g, "/admin"), vec![1]);
    assert_eq!(group_middleware(&g, "/admin/user"), vec![1, 2, 3]);
    assert!(group_middleware(&g, "").is_empty());
    assert!(group_middleware(&g, "/missing").is_empty());
}

#[test]
fn auth_innermost_explicit_wins() {
    let mut g = admin_user();
    add_group(&mut g, "/open", Some("/admin/user"), &[], Some(false)).unwrap();
    assert!(inherited_auth(&g, "/admin"));
    // no flag of its own: the parent's flag
    assert!(inherited_auth(&g, "/admin/user"));
    // its own flag overrides the parent's
    assert!(!inherited_auth(&g, "/admin/user/open"));
    // no group: the global flag
    assert!(!inherited_auth(&g, ""));
    set_global_auth(&mut g, true);
    assert!(global_auth(&g));
    assert!(inherited_auth(&g, ""));
    assert!(inherited_auth(&g, "/unknown"));
}

#[test]
fn group_without_flag_uses_global() {
    let mut g: GroupRegistry<u8> = GroupRegistry::new();
    add_group(&mut g, "/plain", None, &[], None).unwrap();
    assert!(!inherited_auth(&g, "/plain"));
    set_global_auth(&mut g, true);
    assert!(inherited_auth(&g, "/plain"));
}

#[test]
fn parent_must_be_registered() {
    let mut g: GroupRegistry<u8> = GroupRegistry::new();
    let err = add_group(&mut g, "/user", Some("/admin"), &[], None).unwrap_err();
    assert!(matches!(err, GroupError::ParentNotRegistered(p) if p == "/admin"));
    assert!(find_group(&g, "/admin/user").is_none());
}

#[test]
fn duplicate_group_rejected() {
    let mut g = admin_user();
    let err = add_group(&mut g, "/admin", None, &[9], None).unwrap_err();
    assert!(matches!(err, GroupError::AlreadyExist(f) if f == "/admin"));
    // full prefixes collide even when spelled through a parent
    let err = add_group(&mut g, "/user", Some("/admin"), &[], None).unwrap_err();
    assert!(matches!(err, GroupError::AlreadyExist(f) if f == "/admin/user"));
    assert_eq!(group_middleware(&g, "/admin"), vec![1]);
}

#[test]
fn chain_depth_counts_groups() {
    let g = admin_user();
    assert_eq!(chain_depth(&g, "/admin"), 1);
    assert_eq!(chain_depth(&g, "/admin/user"), 2);
    assert_eq!(chain_depth(&g, "/x"), 0);
}

#[test]
fn frozen_snapshot_keeps_answers() {
    let mut g = admin_user();
    freeze_resolved(&mut g);
    assert_eq!(group_middleware(&g, "/admin/user"), vec![1, 2, 3]);
    assert!(inherited_auth(&g, "/admin/user"));
    // a group registered after the snapshot takes no effect
    add_group(&mut g, "/late", Some("/admin"), &[7], Some(true)).unwrap();
    assert!(find_group(&g, "/admin/late").is_some());
    assert!(group_middleware(&g, "/admin/late").is_empty());
    assert!(!inherited_auth(&g, "/admin/late"));
    set_global_auth(&mut g, true);
    assert!(inherited_auth(&g, "/admin/late"));
    // freezing again keeps the first snapshot
    freeze_resolved(&mut g);
    assert!(group_middleware(&g, "/admin/late").is_empty());
    assert_eq!(group_middleware(&g, "/admin/user"), vec![1, 2, 3]);
}

#[test]
fn empty_segment_group_at_root() {
    let mut g: GroupRegistry<u8> = GroupRegistry::new();
    add_group(&mut g, "", None, &[5], Some(true)).unwrap();
    // before the snapshot the empty prefix means "no group"
    assert!(group_middleware(&g, "").is_empty());
    assert!(!inherited_auth(&g, ""));
    freeze_resolved(&mut g);
    // the snapshot holds a group with the empty prefix
    assert_eq!(group_middleware(&g, ""), vec![5]);
    assert!(inherited_auth(&g, ""));
}

#[test]
fn middleware_chain_global_then_groups() {
    let g = admin_user();
    assert_eq!(middleware_chain(&vec![10, 11], &g, "/admin/user"), vec![10, 11, 1, 2, 3]);
    assert_eq!(middleware_chain(&vec![10], &g, ""), vec![10]);
}

#[test]
fn authorization_header_check() {
    assert!(authorization_accepted(Some("Bearer x")));
    assert!(!authorization_accepted(Some("")));
    assert!(!authorization_accepted(None));
}

#[test]
fn chains_deeper_than_64_are_reported() {
    let mut g: GroupRegistry<u8> = GroupRegistry::new();
    let mut parent: Option<String> = None;
    let mut fulls: Vec<String> = Vec::new();
    for _ in 0..64 {
        add_group(&mut g, "/n", parent.as_deref(), &[], None).unwrap();
        let full = format!("{}/n", parent.clone().unwrap_or_default());
        fulls.push(full.clone());
        parent = Some(full);
    }
    assert!(first_too_deep(&g).is_none());
    assert_eq!(chain_depth(&g, &fulls[63]), 64);
    add_group(&mut g, "/n", parent.as_deref(), &[], None).unwrap();
    let deepest = format!("{}/n", fulls[63]);
    assert_eq!(first_too_deep(&g), Some(deepest.clone()));
    assert_eq!(chain_depth(&g, &deepest), 65);
}

#[test]
fn adding_a_group_keeps_the_others() {
    let mut g = admin_user();
    let before = (group_middleware(&g, "/admin/user"), inherited_auth(&g, "/admin/user"), chain_depth(&g, "/admin/user"));
    add_group(&mut g, "/other", None, &[8], Some(false)).unwrap();
    add_group(&mut g, "/deep", Some("/admin/user"), &[9], None).unwrap();
    let after = (group_middleware(&g, "/admin/user"), inherited_auth(&g, "/admin/user"), chain_depth(&g, "/admin/user"));
    assert_eq!(before, after);
    assert_eq!(group_middleware(&g, "/admin/user/deep"), vec![1, 2, 3, 9]);
    assert_eq!(chain_depth(&g, "/admin/user/deep"), 3);
}
