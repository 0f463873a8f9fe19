use skynet::handler::handle_mod_action;
use skynet::limits::UserLimitActions;
use skynet::limits::UserLimitTypes;
use skynet::limits::UserLimitsHit;
use skynet::store::Store;
use skynet::utils::Unit;

const MINUTE: u64 = 60_000_000;
const SECOND: u64 = 1_000_000;

fn store_with_limit(
    guild: u64,
    kind: UserLimitTypes,
    per: u32,
    amount: i64,
    unit: Unit,
    action: UserLimitActions,
) -> (Store, u64) {
    let mut store = Store::new();
    store.setup(guild).unwrap();
    let limit_id = store
        .limits_add(
            guild,
            "test limit".to_string(),
            kind,
            per,
            amount,
            unit,
            action,
        )
        .unwrap();
    (store, limit_id)
}

#[test]
fn three_kicks_trigger_ban() {
    // Limit{kind=kick, threshold=3, window=10m, mitigation=ban-actor}: three
    // kicks by one actor inside five minutes give one violation referencing
    // all three, resolved to a ban; a fourth kick alone does not re-trigger.
    let guild = 10;
    let actor = 77;
    let (mut store, limit_id) = store_with_limit(
        guild,
        UserLimitTypes::Kick,
        3,
        10,
        Unit::Minutes,
        UserLimitActions::BanUser,
    );
    let t0 = 1_000_000 * MINUTE;
    let h1 = handle_mod_action(&mut store, guild, actor, UserLimitTypes::Kick, 501, t0);
    assert!(h1.is_empty());
    let h2 = handle_mod_action(
        &mut store,
        guild,
        actor,
        UserLimitTypes::Kick,
        502,
        t0 + 2 * MINUTE,
    );
    assert!(h2.is_empty());
    let h3 = handle_mod_action(
        &mut store,
        guild,
        actor,
        UserLimitTypes::Kick,
        503,
        t0 + 5 * MINUTE,
    );
    assert_eq!(h3.len(), 1);
    assert_eq!(h3[0].limit.limit_id, limit_id);
    assert_eq!(h3[0].cause.len(), 3);
    assert_eq!(store.hit_limits.len(), 1);
    let violation = &store.hit_limits[0];
    assert_eq!(violation.limit_id, limit_id);
    assert_eq!(violation.user_id, actor);
    assert_eq!(violation.cause.len(), 3);
    for (hit_action, id) in h3[0].cause.iter().zip(violation.cause.iter()) {
        assert_eq!(hit_action.action_id, *id);
    }
    assert_eq!(
        store.resolve_mitigation(violation),
        Ok(UserLimitActions::BanUser)
    );
    // A fourth kick one minute later: only one unconsumed kick, 1 < 3.
    let h4 = handle_mod_action(
        &mut store,
        guild,
        actor,
        UserLimitTypes::Kick,
        504,
        t0 + 6 * MINUTE,
    );
    assert!(h4.is_empty());
    assert_eq!(store.hit_limits.len(), 1);
}

#[test]
fn window_too_old_action_does_not_count() {
    // Limit{threshold=5, window=1m}: five matching actions, but the first is
    // 61 seconds older than the fifth, so only four are in-window.
    let guild = 20;
    let actor = 5;
    let (mut store, _limit_id) = store_with_limit(
        guild,
        UserLimitTypes::Ban,
        5,
        1,
        Unit::Minutes,
        UserLimitActions::KickUser,
    );
    let t0 = 500 * MINUTE;
    let times = [0, 20, 40, 50, 61];
    for (i, offset) in times.iter().enumerate() {
        let hits = handle_mod_action(
            &mut store,
            guild,
            actor,
            UserLimitTypes::Ban,
            600 + i as u64,
            t0 + offset * SECOND,
        );
        assert!(hits.is_empty());
    }
    assert!(store.hit_limits.is_empty());
}

#[test]
fn window_boundary_is_strict() {
    // An action exactly `window` old is excluded; one a microsecond younger
    // is included.
    let store = {
        let mut s = Store::new();
        s.setup(30).unwrap();
        s.append(30, 1, UserLimitTypes::Kick, 2, 1000 * SECOND);
        s.append(30, 1, UserLimitTypes::Kick, 3, 1000 * SECOND + 1);
        s
    };
    let window = 60 * SECOND;
    let now = 1000 * SECOND + window;
    let q = store.query(30, UserLimitTypes::Kick, window, now, 0);
    // The first action is exactly `window` old: excluded.  The second is one
    // microsecond younger: included.
    assert_eq!(q.len(), 1);
    assert_eq!(q[0].created_at, 1000 * SECOND + 1);
    let q_earlier = store.query(30, UserLimitTypes::Kick, window, now - 1, 0);
    assert_eq!(q_earlier.len(), 2);
}

#[test]
fn threshold_one_fires_immediately() {
    let guild = 40;
    let (mut store, _limit_id) = store_with_limit(
        guild,
        UserLimitTypes::ChannelRemove,
        1,
        30,
        Unit::Seconds,
        UserLimitActions::RemoveAllRoles,
    );
    let hits = handle_mod_action(&mut store, guild, 9, UserLimitTypes::ChannelRemove, 800, 1);
    assert_eq!(hits.len(), 1);
    assert_eq!(hits[0].cause.len(), 1);
    assert_eq!(store.hit_limits.len(), 1);
}

#[test]
fn consumed_actions_never_recounted() {
    // After a violation fires on three actions, re-evaluating without new
    // actions reports nothing.
    let guild = 50;
    let (mut store, _limit_id) = store_with_limit(
        guild,
        UserLimitTypes::RoleRemove,
        3,
        10,
        Unit::Minutes,
        UserLimitActions::BanUser,
    );
    let t0 = 9000 * SECOND;
    for k in 0..3 {
        handle_mod_action(
            &mut store,
            guild,
            4,
            UserLimitTypes::RoleRemove,
            900 + k,
            t0 + k * SECOND,
        );
    }
    assert_eq!(store.hit_limits.len(), 1);
    let again = UserLimitsHit::hit(&store, guild, t0 + 3 * SECOND);
    assert!(again.is_empty());
    let much_later = UserLimitsHit::hit(&store, guild, t0 + 600 * SECOND);
    assert!(much_later.is_empty());
}

#[test]
fn back_to_back_events_one_violation() {
    // Two qualifying events at the same instant produce exactly one
    // violation covering both actions, never two violations over subsets.
    let guild = 60;
    let actor = 3;
    let (mut store, _limit_id) = store_with_limit(
        guild,
        UserLimitTypes::ChannelAdd,
        2,
        1,
        Unit::Hours,
        UserLimitActions::KickUser,
    );
    let now = 777 * MINUTE;
    let first = handle_mod_action(&mut store, guild, actor, UserLimitTypes::ChannelAdd, 71, now);
    assert!(first.is_empty());
    let second = handle_mod_action(&mut store, guild, actor, UserLimitTypes::ChannelAdd, 72, now);
    assert_eq!(second.len(), 1);
    assert_eq!(second[0].cause.len(), 2);
    assert_eq!(store.hit_limits.len(), 1);
    assert_eq!(store.hit_limits[0].cause.len(), 2);
}

#[test]
fn mark_consumed_is_idempotent() {
    let mut store = Store::new();
    store.setup(70).unwrap();
    let a1 = store.append(70, 1, UserLimitTypes::Unban, 2, 100);
    let a2 = store.append(70, 1, UserLimitTypes::Unban, 3, 200);
    let ids = vec![a1, a2];
    store.mark_consumed(&ids, 999);
    let marks_once: Vec<Vec<u64>> = store
        .actions
        .iter()
        .map(|a| a.limits_hit.clone())
        .collect();
    assert_eq!(marks_once, vec![vec![999], vec![999]]);
    store.mark_consumed(&ids, 999);
    let marks_twice: Vec<Vec<u64>> = store
        .actions
        .iter()
        .map(|a| a.limits_hit.clone())
        .collect();
    assert_eq!(marks_once, marks_twice);
}

#[test]
fn cascade_deletes_everything_of_the_guild() {
    let guild = 80;
    let other = 81;
    let (mut store, limit_id) = store_with_limit(
        guild,
        UserLimitTypes::Kick,
        1,
        5,
        Unit::Minutes,
        UserLimitActions::BanUser,
    );
    store.setup(other).unwrap();
    store
        .limits_add(
            other,
            "other limit".to_string(),
            UserLimitTypes::Ban,
            2,
            1,
            Unit::Hours,
            UserLimitActions::KickUser,
        )
        .unwrap();
    handle_mod_action(&mut store, guild, 1, UserLimitTypes::Kick, 2, 100);
    handle_mod_action(&mut store, other, 1, UserLimitTypes::Ban, 2, 100);
    store.add_admin(guild, 500, 500, 501).unwrap();
    assert_eq!(store.hit_limits.len(), 1);
    store.delete_guild(guild).unwrap();
    assert!(!store.has_guild(guild));
    assert!(skynet::limits::Limit::from_guild(&store, guild).is_empty());
    assert!(skynet::limits::Action::from_guild(&store, guild).is_empty());
    assert!(skynet::limits::PastHitLimit::from_guild(&store, guild).is_empty());
    assert!(!store.is_admin(guild, 501));
    assert_eq!(
        store.limits_remove(guild, limit_id),
        Err(skynet::errors::Error::NotFound)
    );
    // The other guild is untouched.
    assert!(store.has_guild(other));
    assert_eq!(skynet::limits::Limit::from_guild(&store, other).len(), 1);
    assert_eq!(skynet::limits::Action::from_guild(&store, other).len(), 1);
}

#[test]
fn unknown_guild_is_auto_registered_by_ingress() {
    let mut store = Store::new();
    assert!(!store.has_guild(90));
    handle_mod_action(&mut store, 90, 1, UserLimitTypes::RoleAdd, 2, 50);
    assert!(store.has_guild(90));
    assert_eq!(skynet::limits::Action::from_guild(&store, 90).len(), 1);
}

#[test]
fn ledger_keeps_append_order_and_never_deduplicates() {
    let mut store = Store::new();
    store.setup(100).unwrap();
    let a1 = store.append(100, 1, UserLimitTypes::Kick, 7, 300);
    let a2 = store.append(100, 1, UserLimitTypes::Kick, 7, 300);
    assert_ne!(a1, a2);
    let q = store.query(100, UserLimitTypes::Kick, 60 * SECOND, 310, 0);
    assert_eq!(q.len(), 2);
    assert_eq!(q[0].action_id, a1);
    assert_eq!(q[1].action_id, a2);
}

#[test]
fn two_limits_same_kind_tracked_independently() {
    // Two limits watching the same kind each fire on their own marks.
    let guild = 110;
    let mut store = Store::new();
    store.setup(guild).unwrap();
    let l1 = store
        .limits_add(
            guild,
            "fast".to_string(),
            UserLimitTypes::Ban,
            2,
            10,
            Unit::Minutes,
            UserLimitActions::KickUser,
        )
        .unwrap();
    let l2 = store
        .limits_add(
            guild,
            "slow".to_string(),
            UserLimitTypes::Ban,
            3,
            10,
            Unit::Minutes,
            UserLimitActions::BanUser,
        )
        .unwrap();
    let t0 = 4000 * SECOND;
    assert!(handle_mod_action(&mut store, guild, 8, UserLimitTypes::Ban, 1, t0).is_empty());
    let second = handle_mod_action(&mut store, guild, 8, UserLimitTypes::Ban, 2, t0 + SECOND);
    assert_eq!(second.len(), 1);
    assert_eq!(second[0].limit.limit_id, l1);
    // The third ban: the slow limit still counts all three (it consumed
    // nothing yet), while the fast limit only sees the one unconsumed ban.
    let third = handle_mod_action(&mut store, guild, 8, UserLimitTypes::Ban, 3, t0 + 2 * SECOND);
    assert_eq!(third.len(), 1);
    assert_eq!(third[0].limit.limit_id, l2);
    assert_eq!(third[0].cause.len(), 3);
    assert_eq!(store.hit_limits.len(), 2);
}

#[test]
fn resolve_mitigation_after_limit_deleted() {
    let guild = 120;
    let (mut store, limit_id) = store_with_limit(
        guild,
        UserLimitTypes::Kick,
        1,
        5,
        Unit::Minutes,
        UserLimitActions::RemoveAllRoles,
    );
    handle_mod_action(&mut store, guild, 1, UserLimitTypes::Kick, 2, 100);
    assert_eq!(store.hit_limits.len(), 1);
    let violation = store.hit_limits[0].clone();
    assert_eq!(
        store.resolve_mitigation(&violation),
        Ok(UserLimitActions::RemoveAllRoles)
    );
    store.limits_remove(guild, limit_id).unwrap();
    // The violation record stays valid; only the mitigation no longer
    // resolves.
    assert_eq!(store.hit_limits.len(), 1);
    assert_eq!(
        store.resolve_mitigation(&violation),
        Err(skynet::errors::Error::NotFound)
    );
}
