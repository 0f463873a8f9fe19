use skynet::access::AccessLevel;
use skynet::access::AccessLevelManager;
use skynet::access::is_owner;
use skynet::autocompletes::limits_autocomplete;
use skynet::errors::Error;
use skynet::limits::UserLimitActions;
use skynet::limits::UserLimitActionsChoices;
use skynet::limits::UserLimitTypes;
use skynet::limits::UserLimitTypesChoices;
use skynet::store::AccessRow;
use skynet::store::Store;
use skynet::tasks::StatusKind;
use skynet::tasks::Task;
use skynet::tasks::pick_status;
use skynet::utils::Interval;
use skynet::utils::Unit;
use skynet::utils::is_guild_admin;
use skynet::utils::parse_pg_interval;

#[test]
fn limit_validation_errors() {
    let mut store = Store::new();
    store.setup(1).unwrap();
    let zero_threshold = store.limits_add(
        1,
        "a".to_string(),
        UserLimitTypes::Kick,
        0,
        5,
        Unit::Minutes,
        UserLimitActions::BanUser,
    );
    assert_eq!(zero_threshold, Err(Error::Validation));
    let zero_window = store.limits_add(
        1,
        "b".to_string(),
        UserLimitTypes::Kick,
        1,
        0,
        Unit::Minutes,
        UserLimitActions::BanUser,
    );
    assert_eq!(zero_window, Err(Error::Validation));
    let negative_window = store.limits_add(
        1,
        "c".to_string(),
        UserLimitTypes::Kick,
        1,
        -3,
        Unit::Hours,
        UserLimitActions::BanUser,
    );
    assert_eq!(negative_window, Err(Error::Validation));
    let oversized_window = store.limits_add(
        1,
        "d".to_string(),
        UserLimitTypes::Kick,
        1,
        i64::MAX,
        Unit::Days,
        UserLimitActions::BanUser,
    );
    assert_eq!(oversized_window, Err(Error::Validation));
    let unknown_guild = store.limits_add(
        2,
        "e".to_string(),
        UserLimitTypes::Kick,
        1,
        5,
        Unit::Minutes,
        UserLimitActions::BanUser,
    );
    assert_eq!(unknown_guild, Err(Error::NotFound));
    assert!(store.limits.is_empty());
}

#[test]
fn limit_window_is_converted_to_microseconds() {
    let mut store = Store::new();
    store.setup(1).unwrap();
    store
        .limits_add(
            1,
            "w".to_string(),
            UserLimitTypes::Ban,
            2,
            10,
            Unit::Minutes,
            UserLimitActions::KickUser,
        )
        .unwrap();
    assert_eq!(store.limits.len(), 1);
    assert_eq!(store.limits[0].limit_time, 600_000_000);
    assert_eq!(store.limits[0].limit_per, 2);
    assert_eq!(store.limits[0].limit_name, "w".to_string());
}

#[test]
fn setup_twice_already_exists() {
    let mut store = Store::new();
    assert_eq!(store.setup(5), Ok(()));
    assert_eq!(store.setup(5), Err(Error::AlreadyExists));
}

#[test]
fn limits_remove_unknown_not_found() {
    let mut store = Store::new();
    store.setup(5).unwrap();
    assert_eq!(store.limits_remove(5, 42), Err(Error::NotFound));
}

#[test]
fn delete_unknown_guild_not_found() {
    let mut store = Store::new();
    assert_eq!(store.delete_guild(5), Err(Error::NotFound));
}

#[test]
fn admin_roll_rules() {
    let owner = 100;
    let mut store = Store::new();
    assert_eq!(store.add_admin(1, 7, owner, 8), Err(Error::Auth));
    assert_eq!(store.add_admin(1, owner, owner, 8), Ok(()));
    assert_eq!(store.add_admin(1, owner, owner, 8), Err(Error::AlreadyExists));
    assert_eq!(store.remove_admin(1, 7, owner, 8), Err(Error::Auth));
    assert_eq!(store.remove_admin(1, owner, owner, 9), Err(Error::NotFound));
    assert_eq!(store.remove_admin(1, owner, owner, 8), Ok(()));
    assert!(!store.is_admin(1, 8));
}

#[test]
fn guild_admin_gate() {
    let owner = 100;
    let mut store = Store::new();
    store.add_admin(1, owner, owner, 8).unwrap();
    assert_eq!(is_guild_admin(&store, 1, owner, owner), Ok(()));
    assert_eq!(is_guild_admin(&store, 1, 8, owner), Ok(()));
    assert_eq!(is_guild_admin(&store, 1, 9, owner), Err(Error::Auth));
    // Admin status is per guild.
    assert_eq!(is_guild_admin(&store, 2, 8, owner), Err(Error::Auth));
}

#[test]
fn access_levels_for_user() {
    let mut store = Store::new();
    store.guild_access.push(AccessRow {
        guild_id: 1,
        user_id: 8,
        level: AccessLevel::Manager,
    });
    store.guild_access.push(AccessRow {
        guild_id: 1,
        user_id: 9,
        level: AccessLevel::Admin,
    });
    let owner_mgr = AccessLevel::for_user(&store, 100, 1, 100);
    assert!(owner_mgr.has(AccessLevel::Owner));
    assert!(owner_mgr.has(AccessLevel::Admin));
    assert!(owner_mgr.has(AccessLevel::Manager));
    let manager_mgr = AccessLevel::for_user(&store, 8, 1, 100);
    assert!(manager_mgr.has(AccessLevel::Manager));
    assert!(!manager_mgr.has(AccessLevel::Admin));
    assert!(manager_mgr.error_if_not(AccessLevel::Manager).is_ok());
    let refused = AccessLevel::for_user(&store, 9, 1, 100).error_if_not(AccessLevel::Manager);
    assert!(matches!(refused, Err(Error::Auth)));
}

#[test]
fn requirement_message_text() {
    assert_eq!(
        AccessLevel::Admin.requirement_message(),
        "Whoa there! You need to be a admin to do that!".to_string()
    );
    assert_eq!(AccessLevel::Owner.string_form(), "owner");
    assert_eq!(AccessLevel::Manager.string_form(), "manager");
}

#[test]
fn owner_list_check() {
    let owners = vec![10, 20];
    assert!(is_owner(&owners, 10));
    assert!(!is_owner(&owners, 30));
}

#[test]
fn has_requires_owner_or_level() {
    let mgr = AccessLevelManager {
        perms: vec![AccessLevel::Admin],
    };
    assert!(mgr.has(AccessLevel::Admin));
    assert!(!mgr.has(AccessLevel::Manager));
    let empty = AccessLevelManager { perms: vec![] };
    assert!(!empty.has(AccessLevel::Manager));
}

#[test]
fn choice_resolution() {
    assert_eq!(
        UserLimitTypesChoices::RoleAdd.resolve(),
        UserLimitTypes::RoleAdd
    );
    assert_eq!(
        UserLimitTypesChoices::ChannelUpdate.resolve(),
        UserLimitTypes::ChannelUpdate
    );
    assert_eq!(UserLimitTypesChoices::Unban.resolve(), UserLimitTypes::Unban);
    assert_eq!(
        UserLimitActionsChoices::RemoveAllRoles.resolve(),
        UserLimitActions::RemoveAllRoles
    );
    assert_eq!(
        UserLimitActionsChoices::BanUser.resolve(),
        UserLimitActions::BanUser
    );
}

#[test]
fn display_labels() {
    assert_eq!(UserLimitTypes::RoleAdd.to_cond(), "Roles Created".to_string());
    assert_eq!(UserLimitTypes::Kick.to_cond(), "Kicks".to_string());
    assert_eq!(
        UserLimitTypes::ChannelRemove.to_cond(),
        "Channels Removed".to_string()
    );
    assert_eq!(
        UserLimitActions::RemoveAllRoles.to_cond(),
        "Remove All Roles".to_string()
    );
    assert_eq!(UserLimitActions::KickUser.to_cond(), "Kick User".to_string());
    assert_eq!(
        UserLimitTypes::ChannelAdd.string_form(),
        "channel_add".to_string()
    );
    assert_eq!(UserLimitTypes::Unban.string_form(), "unban".to_string());
    assert_eq!(
        UserLimitActions::BanUser.string_form(),
        "ban_user".to_string()
    );
}

#[test]
fn persisted_names_round_trip() {
    let kinds = [
        UserLimitTypes::RoleAdd,
        UserLimitTypes::RoleUpdate,
        UserLimitTypes::RoleRemove,
        UserLimitTypes::ChannelAdd,
        UserLimitTypes::ChannelUpdate,
        UserLimitTypes::ChannelRemove,
        UserLimitTypes::Kick,
        UserLimitTypes::Ban,
        UserLimitTypes::Unban,
    ];
    for kind in kinds {
        assert_eq!(UserLimitTypes::from_string_form(&kind.string_form()), Some(kind));
    }
    let mitigations = [
        UserLimitActions::RemoveAllRoles,
        UserLimitActions::KickUser,
        UserLimitActions::BanUser,
    ];
    for m in mitigations {
        assert_eq!(UserLimitActions::from_string_form(&m.string_form()), Some(m));
    }
    assert_eq!(UserLimitTypes::from_string_form(&"nonsense".to_string()), None);
    assert_eq!(UserLimitActions::from_string_form(&"".to_string()), None);
}

#[test]
fn unit_seconds() {
    assert_eq!(Unit::Seconds.to_seconds(), 1);
    assert_eq!(Unit::Minutes.to_seconds(), 60);
    assert_eq!(Unit::Hours.to_seconds(), 3600);
    assert_eq!(Unit::Days.to_seconds(), 86400);
}

#[test]
fn interval_rendering() {
    let ten_minutes = Interval {
        months: 0,
        days: 0,
        microseconds: 600_000_000,
    };
    assert_eq!(parse_pg_interval(ten_minutes), "600s".to_string());
    let mixed = Interval {
        months: 1,
        days: 2,
        microseconds: 3_500_000,
    };
    // 2628000 + 2 * 86400 + 3 whole seconds.
    assert_eq!(parse_pg_interval(mixed), "2800803s".to_string());
    let zero = Interval {
        months: 0,
        days: 0,
        microseconds: 0,
    };
    assert_eq!(parse_pg_interval(zero), "0s".to_string());
}

#[test]
fn task_schedule() {
    assert_eq!(Task::UpdateStatus.interval_secs(), 600);
    assert_eq!(Task::UpdateStatus.description(), "Update status");
}

#[test]
fn status_rotation_draws_valid_pairs() {
    let mut seen_watch = false;
    let mut seen_play = false;
    let mut seen_listen = false;
    for _ in 0..300 {
        let (kind, text) = pick_status();
        match kind {
            StatusKind::Watch => {
                assert_eq!(text, "sky!help");
                seen_watch = true;
            }
            StatusKind::Play => {
                assert_eq!(text, "stopping raids");
                seen_play = true;
            }
            StatusKind::Listen => {
                assert_eq!(text, "to your commands");
                seen_listen = true;
            }
        }
    }
    // A uniform draw over three statuses reaches more than one of them in
    // 300 tries, which a constant stand-in for the random draw would not.
    assert!(seen_watch as u32 + seen_play as u32 + seen_listen as u32 >= 2);
}

#[test]
fn error_messages() {
    assert_eq!(Error::Validation.message(), "Invalid limit specification");
    assert_eq!(Error::NotFound.message(), "Could not find the requested record");
    assert_eq!(Error::Auth.message(), "You are not allowed to do that");
    assert_eq!(Error::AlreadyExists.message(), "The record already exists");
    assert_eq!(Error::Persistence.message(), "The store could not be reached");
    assert_eq!(Error::Mitigation.message(), "The mitigation call failed");
}

#[test]
fn user_scoped_action_history() {
    let mut store = Store::new();
    store.setup(1).unwrap();
    store.append(1, 5, UserLimitTypes::Kick, 2, 10);
    store.append(1, 6, UserLimitTypes::Kick, 3, 20);
    store.append(1, 5, UserLimitTypes::Ban, 4, 30);
    let all = skynet::limits::Action::from_guild(&store, 1);
    assert_eq!(all.len(), 3);
    let of_five = skynet::limits::Action::user(&store, 1, 5);
    assert_eq!(of_five.len(), 2);
    assert!(of_five.iter().all(|a| a.user_id == 5));
}

#[test]
fn autocomplete_matches_name_prefixes() {
    let mut store = Store::new();
    store.setup(1).unwrap();
    store.setup(2).unwrap();
    let nuke = store
        .limits_add(1, "anti nuke".to_string(), UserLimitTypes::ChannelRemove, 3, 1, Unit::Minutes, UserLimitActions::BanUser)
        .unwrap();
    let raid = store
        .limits_add(1, "anti raid".to_string(), UserLimitTypes::Ban, 5, 1, Unit::Minutes, UserLimitActions::KickUser)
        .unwrap();
    store
        .limits_add(1, "slowmode".to_string(), UserLimitTypes::ChannelUpdate, 2, 1, Unit::Hours, UserLimitActions::RemoveAllRoles)
        .unwrap();
    store
        .limits_add(2, "anti other".to_string(), UserLimitTypes::Kick, 2, 1, Unit::Hours, UserLimitActions::BanUser)
        .unwrap();
    let anti = limits_autocomplete(&store, 1, &"anti".to_string());
    assert_eq!(anti.len(), 2);
    assert_eq!(anti[0], ("anti nuke".to_string(), nuke));
    assert_eq!(anti[1], ("anti raid".to_string(), raid));
    let all = limits_autocomplete(&store, 1, &"".to_string());
    assert_eq!(all.len(), 3);
    let slow = limits_autocomplete(&store, 1, &"slow".to_string());
    assert_eq!(slow.len(), 1);
    let none = limits_autocomplete(&store, 1, &"zz".to_string());
    assert!(none.is_empty());
    let longer_than_name = limits_autocomplete(&store, 1, &"slowmode plus".to_string());
    assert!(longer_than_name.is_empty());
}
