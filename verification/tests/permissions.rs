use modelflat_bot::permissions::{PermissionLevel, PermissionList};

fn exhaustive_list_of_variants() -> Vec<PermissionLevel> {
    let variants = vec![PermissionLevel::User, PermissionLevel::Admin];
    for var in variants.iter() {
        match var {
            PermissionLevel::Admin => assert!(true),
            PermissionLevel::User => assert!(true),
        }
    }
    variants
}

#[test]
fn test_lowest_is_lowest() {
    let lowest = PermissionLevel::lowest();
    for level in exhaustive_list_of_variants().iter() {
        assert!(level.permits(lowest), "{:?} is lowest, but is not permitted by {:?}", lowest, level);
    }
}

#[test]
fn test_highest_is_highest() {
    let highest = PermissionLevel::highest();
    for level in exhaustive_list_of_variants().iter() {
        assert!(highest.permits(*level), "{:?} is highest, but does not permit {:?}", highest, level);
    }
}

#[test]
fn a_user_does_not_reach_an_admin() {
    assert!(!PermissionLevel::User.permits(PermissionLevel::Admin));
    assert!(PermissionLevel::Admin.permits(PermissionLevel::User));
    assert!(PermissionLevel::User.permits(PermissionLevel::User));
}

#[test]
fn an_unlisted_user_has_the_lowest_level() {
    let list = PermissionList::new(vec![
        ("modelflat".to_string(), PermissionLevel::Admin),
        ("guest".to_string(), PermissionLevel::User),
        ("modelflat".to_string(), PermissionLevel::User),
    ]);
    assert_eq!(list.get("modelflat"), PermissionLevel::Admin);
    assert_eq!(list.get("guest"), PermissionLevel::User);
    assert_eq!(list.get("nobody"), PermissionLevel::User);
    assert_eq!(list.get(""), PermissionLevel::lowest());
}
