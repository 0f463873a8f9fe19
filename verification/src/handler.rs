use vstd::prelude::*;

use crate::errors::Error;
use crate::limits::Action;
use crate::limits::ActionV;
use crate::limits::LimitV;
use crate::limits::PastHitLimit;
use crate::limits::PastHitLimitV;
use crate::limits::UserLimitActions;
use crate::limits::UserLimitTypes;
use crate::limits::UserLimitsHit;
use crate::limits::UserLimitsHitV;
use crate::limits::hit_model;
use crate::limits::ids_of;
use crate::limits::qualifying;
use crate::limits::query_matches;
use crate::limits::lemma_query_model_is_keep;
use crate::seqs::distinct_by;
use crate::seqs::keep;
use crate::seqs::lemma_keep_contains;
use crate::seqs::lemma_keep_distinct_by;
use crate::seqs::lemma_keep_empty;
use crate::seqs::lemma_keep_membership;
use crate::seqs::lemma_keep_pred;
use crate::seqs::lemma_push_contains;
use crate::store::Store;
use crate::store::StoreV;
use crate::store::disjoint_ids;
use crate::store::has_limit;
use crate::store::mark_action;
use crate::store::mark_all;
use crate::store::lemma_mark_all_index;

verus! {

/// The store with `g` registered: unknown guilds are auto-registered by the
/// ingress path, since a monitored event is proof the engine is present.
pub open spec fn upsert_guild_model(s: StoreV, g: u64) -> StoreV {
    if s.guilds.contains(g) {
        s
    } else {
        StoreV { guilds: s.guilds.push(g), ..s }
    }
}

/// The ledger action one external event becomes.
pub open spec fn appended_action(
    s: StoreV,
    g: u64,
    u: u64,
    t: UserLimitTypes,
    target: u64,
    now: u64,
) -> ActionV {
    ActionV {
        action_id: (s.next_id) as u64,
        limit_type: t,
        created_at: now,
        user_id: u,
        guild_id: g,
        action_target: target,
        limits_hit: Seq::empty(),
    }
}

/// The store after one external event was registered and appended, before
/// any limit evaluation.
pub open spec fn ingest_model(
    s: StoreV,
    g: u64,
    u: u64,
    t: UserLimitTypes,
    target: u64,
    now: u64,
) -> StoreV {
    let s0 = upsert_guild_model(s, g);
    StoreV {
        actions: s0.actions.push(appended_action(s0, g, u, t, target, now)),
        next_id: s0.next_id + 1,
        ..s0
    }
}

/// The violation record written for one hit.
pub open spec fn violation_record(
    s: StoreV,
    h: UserLimitsHitV,
    g: u64,
    u: u64,
    now: u64,
) -> PastHitLimitV {
    PastHitLimitV {
        id: (s.next_id) as u64,
        guild_id: g,
        user_id: u,
        limit_id: h.limit.limit_id,
        cause: ids_of(h.cause),
        created_at: now,
        notes: Seq::empty(),
    }
}

/// The store after one hit was recorded: the cause actions are marked
/// consumed by the hit limit, and the violation record is appended.
pub open spec fn record_hit(s: StoreV, h: UserLimitsHitV, g: u64, u: u64, now: u64) -> StoreV {
    StoreV {
        actions: mark_all(s.actions, ids_of(h.cause), h.limit.limit_id),
        hit_limits: s.hit_limits.push(violation_record(s, h, g, u, now)),
        next_id: s.next_id + 1,
        ..s
    }
}

/// The store after a sequence of hits was recorded, in order.
pub open spec fn record_hits(
    s: StoreV,
    hs: Seq<UserLimitsHitV>,
    g: u64,
    u: u64,
    now: u64,
) -> StoreV
    decreases hs.len(),
{
    if hs.len() == 0 {
        s
    } else {
        record_hit(record_hits(s, hs.drop_last(), g, u, now), hs.last(), g, u, now)
    }
}

/// The hits one evaluation pass reports for an external event.
pub open spec fn pass_hits(
    s: StoreV,
    g: u64,
    u: u64,
    t: UserLimitTypes,
    target: u64,
    now: u64,
) -> Seq<UserLimitsHitV> {
    let s1 = ingest_model(s, g, u, t, target, now);
    hit_model(s1.limits, s1.actions, g, now)
}

/// The store after a whole evaluation pass for one external event: register
/// the guild, append the action, evaluate every limit of the guild, and
/// record every hit.
pub open spec fn pass_model(
    s: StoreV,
    g: u64,
    u: u64,
    t: UserLimitTypes,
    target: u64,
    now: u64,
) -> StoreV {
    let s1 = ingest_model(s, g, u, t, target, now);
    record_hits(s1, pass_hits(s, g, u, t, target, now), g, u, now)
}

/// No limit of guild `g` has reached its threshold at `now`: evaluating the
/// guild again without new actions reports nothing.
pub open spec fn quiescent_for(s: StoreV, g: u64, now: u64) -> bool {
    forall|k: int|
        0 <= k < s.limits.len() && (#[trigger] s.limits[k]).guild_id == g ==> qualifying(
            s.actions,
            s.limits[k],
            now,
        ).len() < s.limits[k].limit_per
}

/// What the evaluator guarantees about each hit it reports against the state
/// it read: the limit is configured for the guild, and the cause is exactly
/// the qualifying set, which has reached the threshold.
pub open spec fn hits_props(
    limits: Seq<LimitV>,
    actions: Seq<ActionV>,
    hs: Seq<UserLimitsHitV>,
    g: u64,
    now: u64,
) -> bool {
    forall|j: int|
        0 <= j < hs.len() ==> (limits.contains((#[trigger] hs[j]).limit) && hs[j].limit.guild_id
            == g && hs[j].cause == qualifying(actions, hs[j].limit, now) && hs[j].cause.len()
            >= hs[j].limit.limit_per)
}

/// No two reported hits concern the same limit.
pub open spec fn hits_distinct(hs: Seq<UserLimitsHitV>) -> bool {
    forall|i: int, j: int|
        0 <= i < j < hs.len() ==> (#[trigger] hs[i]).limit.limit_id != (
        #[trigger] hs[j]).limit.limit_id
}

/// Whether some hit in `hs` concerns the limit with id `lid`.
pub open spec fn hs_covers(hs: Seq<UserLimitsHitV>, lid: u64) -> bool {
    exists|j: int| 0 <= j < hs.len() && (#[trigger] hs[j]).limit.limit_id == lid
}

/// `a1` is `a0` with only consumption marks added: same length, all fields
/// equal, and every old mark kept.
pub open spec fn actions_evolved(a0: Seq<ActionV>, a1: Seq<ActionV>) -> bool {
    &&& a1.len() == a0.len()
    &&& forall|k: int|
        0 <= k < a0.len() ==> ((#[trigger] a1[k]).action_id == a0[k].action_id && a1[k].guild_id
            == a0[k].guild_id && a1[k].limit_type == a0[k].limit_type && a1[k].created_at
            == a0[k].created_at && a1[k].user_id == a0[k].user_id && a1[k].action_target
            == a0[k].action_target && (forall|x: u64| #[trigger]
            a0[k].limits_hit.contains(x) ==> a1[k].limits_hit.contains(x)))
}

/// Marking only adds marks.
pub proof fn lemma_mark_all_evolves(a0: Seq<ActionV>, ids: Seq<u64>, lid: u64)
    ensures
        actions_evolved(a0, mark_all(a0, ids, lid)),
{
    let a1 = mark_all(a0, ids, lid);
    lemma_mark_all_index(a0, ids, lid);
    assert forall|k: int| 0 <= k < a0.len() implies ((#[trigger] a1[k]).action_id
        == a0[k].action_id && a1[k].guild_id == a0[k].guild_id && a1[k].limit_type
        == a0[k].limit_type && a1[k].created_at == a0[k].created_at && a1[k].user_id
        == a0[k].user_id && a1[k].action_target == a0[k].action_target && (forall|x: u64| #[trigger]
        a0[k].limits_hit.contains(x) ==> a1[k].limits_hit.contains(x))) by {
        assert(a1[k] == mark_action(a0[k], ids, lid));
        let b = a0[k].limits_hit;
        if ids.contains(a0[k].action_id) && !b.contains(lid) {
            assert forall|x: u64| #[trigger] b.contains(x) implies a1[k].limits_hit.contains(
                x,
            ) by {
                lemma_push_contains(b, lid, x);
            }
        }
    }
}

/// Evolution composes.
pub proof fn lemma_evolved_trans(a0: Seq<ActionV>, a1: Seq<ActionV>, a2: Seq<ActionV>)
    requires
        actions_evolved(a0, a1),
        actions_evolved(a1, a2),
    ensures
        actions_evolved(a0, a2),
{
    assert forall|k: int| 0 <= k < a0.len() implies ((#[trigger] a2[k]).action_id
        == a0[k].action_id && a2[k].guild_id == a0[k].guild_id && a2[k].limit_type
        == a0[k].limit_type && a2[k].created_at == a0[k].created_at && a2[k].user_id
        == a0[k].user_id && a2[k].action_target == a0[k].action_target && (forall|x: u64| #[trigger]
        a0[k].limits_hit.contains(x) ==> a2[k].limits_hit.contains(x))) by {
        assert(a1[k].action_id == a0[k].action_id);
        assert(a2[k].action_id == a1[k].action_id);
        assert forall|x: u64| #[trigger] a0[k].limits_hit.contains(x) implies a2[
            k
        ].limits_hit.contains(x) by {
            assert(a1[k].limits_hit.contains(x));
        }
    }
}

/// Marking for one limit does not change which actions qualify for any
/// other limit: the qualifying ids are untouched.
pub proof fn lemma_mark_preserves_other(
    actions: Seq<ActionV>,
    ids: Seq<u64>,
    lid: u64,
    l: LimitV,
    now: u64,
)
    requires
        l.limit_id != lid,
    ensures
        ids_of(qualifying(mark_all(actions, ids, lid), l, now)) == ids_of(
            qualifying(actions, l, now),
        ),
        qualifying(mark_all(actions, ids, lid), l, now).len() == qualifying(
            actions,
            l,
            now,
        ).len(),
    decreases actions.len(),
{
    if actions.len() > 0 {
        lemma_mark_preserves_other(actions.drop_last(), ids, lid, l, now);
        let m = mark_all(actions, ids, lid);
        assert(m.drop_last() =~= mark_all(actions.drop_last(), ids, lid));
        assert(m.last() == mark_action(actions.last(), ids, lid));
        let a = actions.last();
        lemma_push_contains(a.limits_hit, lid, l.limit_id);
        assert(query_matches(m.last(), l.guild_id, l.limit_type, l.limit_time, now, l.limit_id)
            == query_matches(a, l.guild_id, l.limit_type, l.limit_time, now, l.limit_id));
        let qm_rest = qualifying(m.drop_last(), l, now);
        let qa_rest = qualifying(actions.drop_last(), l, now);
        if query_matches(a, l.guild_id, l.limit_type, l.limit_time, now, l.limit_id) {
            assert(ids_of(qm_rest.push(m.last())) =~= ids_of(qm_rest).push(m.last().action_id));
            assert(ids_of(qa_rest.push(a)) =~= ids_of(qa_rest).push(a.action_id));
            assert(m.last().action_id == a.action_id);
        }
    }
}

/// Marking exactly the qualifying actions of a limit empties its qualifying
/// set: every cause is excluded from all future counts against that limit.
pub proof fn lemma_mark_own_empties(actions: Seq<ActionV>, l: LimitV, now: u64)
    requires
        distinct_by(actions, |a: ActionV| a.action_id),
    ensures
        qualifying(
            mark_all(actions, ids_of(qualifying(actions, l, now)), l.limit_id),
            l,
            now,
        ) == Seq::<ActionV>::empty(),
{
    let q = qualifying(actions, l, now);
    let ids = ids_of(q);
    let lid = l.limit_id;
    let m = mark_all(actions, ids, lid);
    let p = |a: ActionV| query_matches(a, l.guild_id, l.limit_type, l.limit_time, now, lid);
    lemma_query_model_is_keep(actions, l.guild_id, l.limit_type, l.limit_time, now, lid, p);
    lemma_query_model_is_keep(m, l.guild_id, l.limit_type, l.limit_time, now, lid, p);
    lemma_keep_contains(actions, p);
    lemma_mark_all_index(actions, ids, lid);
    assert forall|k: int| 0 <= k < m.len() implies !p(#[trigger] m[k]) by {
        let a = actions[k];
        assert(m[k] == mark_action(a, ids, lid));
        if query_matches(a, l.guild_id, l.limit_type, l.limit_time, now, lid) {
            assert(keep(actions, p).contains(a));
            assert(q.contains(a));
            let j = choose|j: int| 0 <= j < q.len() && q[j] == a;
            assert(ids[j] == a.action_id);
            assert(ids.contains(a.action_id));
            assert(m[k].limits_hit == a.limits_hit.push(lid));
            lemma_push_contains(a.limits_hit, lid, lid);
            assert(m[k].limits_hit.contains(lid));
        } else {
            if ids.contains(a.action_id) && !a.limits_hit.contains(lid) {
                lemma_push_contains(a.limits_hit, lid, lid);
                assert(m[k].limits_hit.contains(lid));
            } else {
                assert(m[k] == a);
            }
        }
    }
    lemma_keep_empty(m, p);
}

/// Every reported hit names a configured limit of the guild whose qualifying
/// set, read from the evaluated state, reached its threshold — never
/// earlier.  This is one half of the evaluator's exactness; the other half
/// is [`lemma_hit_model_complete`].
pub proof fn lemma_hit_model_props(limits: Seq<LimitV>, actions: Seq<ActionV>, g: u64, now: u64)
    ensures
        hit_model(limits, actions, g, now).len() <= limits.len(),
        hits_props(limits, actions, hit_model(limits, actions, g, now), g, now),
    decreases limits.len(),
{
    let hm = hit_model(limits, actions, g, now);
    if limits.len() > 0 {
        lemma_hit_model_props(limits.drop_last(), actions, g, now);
        let rest = hit_model(limits.drop_last(), actions, g, now);
        assert forall|j: int| 0 <= j < hm.len() implies (limits.contains(
            (#[trigger] hm[j]).limit,
        ) && hm[j].limit.guild_id == g && hm[j].cause == qualifying(actions, hm[j].limit, now)
            && hm[j].cause.len() >= hm[j].limit.limit_per) by {
            if j < rest.len() {
                assert(hm[j] == rest[j]);
                assert(limits.drop_last().contains(rest[j].limit));
                let k = choose|k: int|
                    0 <= k < limits.drop_last().len() && limits.drop_last()[k] == rest[j].limit;
                assert(limits[k] == rest[j].limit);
            } else {
                assert(hm[j].limit == limits.last());
                assert(limits[limits.len() - 1] == limits.last());
            }
        }
    }
}

/// Distinct configured limits give hits over distinct limits.
pub proof fn lemma_hit_model_distinct(limits: Seq<LimitV>, actions: Seq<ActionV>, g: u64, now: u64)
    requires
        distinct_by(limits, |l: LimitV| l.limit_id),
    ensures
        hits_distinct(hit_model(limits, actions, g, now)),
    decreases limits.len(),
{
    let hm = hit_model(limits, actions, g, now);
    if limits.len() > 0 {
        let head = limits.drop_last();
        assert forall|i: int, j: int| 0 <= i < j < head.len() implies (|l: LimitV| l.limit_id)(
            #[trigger] head[i],
        ) != (|l: LimitV| l.limit_id)(#[trigger] head[j]) by {
            assert(head[i] == limits[i]);
            assert(head[j] == limits[j]);
        }
        lemma_hit_model_distinct(head, actions, g, now);
        lemma_hit_model_props(head, actions, g, now);
        let rest = hit_model(head, actions, g, now);
        assert forall|i: int, j: int| 0 <= i < j < hm.len() implies (#[trigger] hm[
            i
        ]).limit.limit_id != (#[trigger] hm[j]).limit.limit_id by {
            if j < rest.len() {
                assert(hm[i] == rest[i]);
                assert(hm[j] == rest[j]);
            } else {
                assert(hm[j].limit == limits.last());
                assert(hm[i] == rest[i]);
                assert(head.contains(rest[i].limit));
                let k = choose|k: int| 0 <= k < head.len() && head[k] == rest[i].limit;
                assert(limits[k] == rest[i].limit);
                assert(limits[limits.len() - 1] == limits.last());
                assert((|l: LimitV| l.limit_id)(limits[k]) != (|l: LimitV| l.limit_id)(
                    limits[limits.len() - 1],
                ));
            }
        }
    }
}

/// Every configured limit of the guild whose qualifying set reached its
/// threshold is reported: a hit is never skipped.
pub proof fn lemma_hit_model_complete(limits: Seq<LimitV>, actions: Seq<ActionV>, g: u64, now: u64)
    ensures
        forall|k: int|
            0 <= k < limits.len() && (#[trigger] limits[k]).guild_id == g && qualifying(
                actions,
                limits[k],
                now,
            ).len() >= limits[k].limit_per ==> hs_covers(
                hit_model(limits, actions, g, now),
                limits[k].limit_id,
            ),
    decreases limits.len(),
{
    let hm = hit_model(limits, actions, g, now);
    if limits.len() > 0 {
        let head = limits.drop_last();
        lemma_hit_model_complete(head, actions, g, now);
        let rest = hit_model(head, actions, g, now);
        assert forall|k: int|
            0 <= k < limits.len() && (#[trigger] limits[k]).guild_id == g && qualifying(
                actions,
                limits[k],
                now,
            ).len() >= limits[k].limit_per implies hs_covers(hm, limits[k].limit_id) by {
            if k < limits.len() - 1 {
                assert(head[k] == limits[k]);
                assert(hs_covers(rest, limits[k].limit_id));
                let j = choose|j: int|
                    0 <= j < rest.len() && (#[trigger] rest[j]).limit.limit_id
                        == limits[k].limit_id;
                if limits.last().guild_id == g && qualifying(actions, limits.last(), now).len()
                    >= limits.last().limit_per {
                    assert(hm[j] == rest[j]);
                } else {
                    assert(hm[j] == rest[j]);
                }
            } else {
                assert(limits[k] == limits.last());
                assert(hm[hm.len() - 1].limit.limit_id == limits[k].limit_id);
            }
        }
    }
}

/// If no limit of the guild has reached its threshold, an evaluation pass
/// reports nothing.
pub proof fn lemma_hit_model_empty(limits: Seq<LimitV>, actions: Seq<ActionV>, g: u64, now: u64)
    requires
        forall|k: int|
            0 <= k < limits.len() && (#[trigger] limits[k]).guild_id == g ==> qualifying(
                actions,
                limits[k],
                now,
            ).len() < limits[k].limit_per,
    ensures
        hit_model(limits, actions, g, now) == Seq::<UserLimitsHitV>::empty(),
    decreases limits.len(),
{
    if limits.len() > 0 {
        let head = limits.drop_last();
        assert forall|k: int|
            0 <= k < head.len() && (#[trigger] head[k]).guild_id == g implies qualifying(
            actions,
            head[k],
            now,
        ).len() < head[k].limit_per by {
            assert(head[k] == limits[k]);
        }
        lemma_hit_model_empty(head, actions, g, now);
        assert(limits[limits.len() - 1] == limits.last());
    }
}


/// The heart of the pass: recording a sequence of distinct, exact hits
/// preserves well-formedness, empties each hit limit's qualifying set, and
/// leaves every other limit's qualifying ids untouched.
pub proof fn lemma_record_hits_all(s1: StoreV, hs: Seq<UserLimitsHitV>, g: u64, u: u64, now: u64)
    requires
        s1.wf(),
        hits_props(s1.limits, s1.actions, hs, g, now),
        hits_distinct(hs),
        s1.next_id + hs.len() <= u64::MAX,
    ensures
        ({
            let post = record_hits(s1, hs, g, u, now);
            &&& post.wf()
            &&& post.guilds == s1.guilds
            &&& post.limits == s1.limits
            &&& post.guild_admins == s1.guild_admins
            &&& post.guild_access == s1.guild_access
            &&& post.next_id == s1.next_id + hs.len()
            &&& actions_evolved(s1.actions, post.actions)
            &&& post.hit_limits.len() == s1.hit_limits.len() + hs.len()
            &&& (forall|m: int|
                0 <= m < s1.hit_limits.len() ==> #[trigger] post.hit_limits[m]
                    == s1.hit_limits[m])
            &&& (forall|m: int|
                s1.hit_limits.len() <= m < post.hit_limits.len() ==> (#[trigger] post.hit_limits[
                    m
                ]).limit_id == hs[m - s1.hit_limits.len()].limit.limit_id)
            &&& (forall|j: int|
                0 <= j < hs.len() ==> (#[trigger] qualifying(
                    post.actions,
                    hs[j].limit,
                    now,
                )).len() == 0)
            &&& (forall|l: LimitV|
                !hs_covers(hs, l.limit_id) ==> #[trigger] ids_of(
                    qualifying(post.actions, l, now),
                ) == ids_of(qualifying(s1.actions, l, now)))
            &&& (forall|l: LimitV|
                !hs_covers(hs, l.limit_id) ==> (#[trigger] qualifying(post.actions, l, now)).len()
                    == qualifying(s1.actions, l, now).len())
        }),
    decreases hs.len(),
{
    let post = record_hits(s1, hs, g, u, now);
    if hs.len() == 0 {
        assert(post == s1);
    } else {
        let head = hs.drop_last();
        let h = hs.last();
        assert(hs[hs.len() - 1] == h);
        assert forall|j: int| 0 <= j < head.len() implies (s1.limits.contains(
            (#[trigger] head[j]).limit,
        ) && head[j].limit.guild_id == g && head[j].cause == qualifying(
            s1.actions,
            head[j].limit,
            now,
        ) && head[j].cause.len() >= head[j].limit.limit_per) by {
            assert(head[j] == hs[j]);
        }
        assert forall|i: int, j: int| 0 <= i < j < head.len() implies (#[trigger] head[
            i
        ]).limit.limit_id != (#[trigger] head[j]).limit.limit_id by {
            assert(head[i] == hs[i]);
            assert(head[j] == hs[j]);
        }
        lemma_record_hits_all(s1, head, g, u, now);
        let prev = record_hits(s1, head, g, u, now);
        assert(post == record_hit(prev, h, g, u, now));
        let lid = h.limit.limit_id;
        let ids = ids_of(h.cause);
        // This pass has not recorded `h`'s limit yet.
        assert(!hs_covers(head, lid)) by {
            if hs_covers(head, lid) {
                let j = choose|j: int|
                    0 <= j < head.len() && (#[trigger] head[j]).limit.limit_id == lid;
                assert(hs[j] == head[j]);
                assert(hs[j].limit.limit_id != hs[hs.len() - 1].limit.limit_id);
            }
        }
        // The cause ids are exactly the current qualifying ids of the hit
        // limit.
        assert(ids_of(qualifying(prev.actions, h.limit, now)) == ids_of(
            qualifying(s1.actions, h.limit, now),
        ));
        assert(h.cause == qualifying(s1.actions, h.limit, now));
        // The step is a marking followed by a record push.
        let t0 = StoreV { actions: mark_all(prev.actions, ids, lid), ..prev };
        let rec = violation_record(prev, h, g, u, now);
        assert(post =~= StoreV {
            hit_limits: t0.hit_limits.push(rec),
            next_id: t0.next_id + 1,
            ..t0
        });
        crate::store::lemma_mark_all_wf(prev, ids, lid);
        assert(t0.wf());
        lemma_mark_all_evolves(prev.actions, ids, lid);
        lemma_evolved_trans(s1.actions, prev.actions, t0.actions);
        lemma_mark_all_index(prev.actions, ids, lid);
        // Facts about the cause, read off the qualifying set at `s1`.
        let p = |a: ActionV|
            query_matches(a, h.limit.guild_id, h.limit.limit_type, h.limit.limit_time, now, lid);
        lemma_query_model_is_keep(
            s1.actions,
            h.limit.guild_id,
            h.limit.limit_type,
            h.limit.limit_time,
            now,
            lid,
            p,
        );
        lemma_keep_membership(s1.actions, p);
        lemma_keep_pred(s1.actions, p);
        lemma_keep_distinct_by(s1.actions, p, |a: ActionV| a.action_id);
        // The hit limit is a configured limit of the guild, so its guild is
        // registered and its threshold is positive.
        assert(s1.limits.contains(h.limit));
        let kl = choose|kl: int| 0 <= kl < s1.limits.len() && s1.limits[kl] == h.limit;
        assert(s1.limit_ok(s1.limits[kl]));
        assert(s1.guilds.contains(g));
        assert(h.limit.guild_id == g);
        // The new record is a well-formed hit of the new store.
        assert(rec.cause.len() >= 1);
        assert forall|m: int, n: int| 0 <= m < n < rec.cause.len() implies rec.cause[m]
            != rec.cause[n] by {
            assert(rec.cause[m] == h.cause[m].action_id);
            assert(rec.cause[n] == h.cause[n].action_id);
        }
        assert forall|n: int| 0 <= n < rec.cause.len() implies post.cause_recorded(
            rec,
            #[trigger] rec.cause[n],
        ) by {
            let ca = h.cause[n];
            assert(rec.cause[n] == ca.action_id);
            assert(s1.actions.contains(ca));
            let k = choose|k: int| 0 <= k < s1.actions.len() && s1.actions[k] == ca;
            assert(p(ca));
            assert(prev.actions[k].action_id == ca.action_id);
            assert(prev.actions[k].guild_id == ca.guild_id);
            assert(ca.guild_id == g);
            assert(post.actions[k] == mark_action(prev.actions[k], ids, lid));
            assert(ids[n] == ca.action_id);
            assert(ids.contains(ca.action_id));
            if !prev.actions[k].limits_hit.contains(lid) {
                lemma_push_contains(prev.actions[k].limits_hit, lid, lid);
            }
            assert(post.actions[k].limits_hit.contains(lid));
            assert(post.actions[k].action_id == rec.cause[n]);
            assert(post.actions[k].guild_id == rec.guild_id);
        }
        // The new record's id is fresh.
        assert((rec.id as int) == prev.next_id);
        // Disjointness of the new record against every existing one of the
        // same limit.
        assert forall|m: int|
            0 <= m < t0.hit_limits.len() && (#[trigger] t0.hit_limits[m]).limit_id
                == rec.limit_id implies disjoint_ids(t0.hit_limits[m].cause, rec.cause) by {
            if m < s1.hit_limits.len() {
                let o = s1.hit_limits[m];
                assert(t0.hit_limits[m] == o);
                assert(s1.hit_ok(o));
                assert forall|x: u64| o.cause.contains(x) implies !rec.cause.contains(x) by {
                    if rec.cause.contains(x) {
                        let n = choose|n: int| 0 <= n < rec.cause.len() && rec.cause[n] == x;
                        let ca = h.cause[n];
                        assert(rec.cause[n] == ca.action_id);
                        assert(s1.actions.contains(ca));
                        let k1 = choose|k1: int|
                            0 <= k1 < s1.actions.len() && s1.actions[k1] == ca;
                        assert(p(ca));
                        assert(!ca.limits_hit.contains(lid));
                        let no = choose|no: int| 0 <= no < o.cause.len() && o.cause[no] == x;
                        assert(s1.cause_recorded(o, o.cause[no]));
                        let k2 = choose|k2: int|
                            0 <= k2 < s1.actions.len() && (#[trigger] s1.actions[k2]).action_id
                                == x && s1.actions[k2].guild_id == o.guild_id
                                && s1.actions[k2].limits_hit.contains(o.limit_id);
                        if k1 != k2 {
                            assert((|a: ActionV| a.action_id)(s1.actions[k1]) != (|a: ActionV|
                                a.action_id)(s1.actions[k2]));
                        }
                        assert(false);
                    }
                }
            } else {
                let mm = m - s1.hit_limits.len();
                assert(t0.hit_limits[m].limit_id == head[mm].limit.limit_id);
                assert(head[mm] == hs[mm]);
                assert(hs[mm].limit.limit_id != hs[hs.len() - 1].limit.limit_id);
            }
        }
        // Well-formedness of the new store.
        assert forall|i: int, j: int| 0 <= i < j < post.hit_limits.len() implies (|x:
            PastHitLimitV|
            x.id)(#[trigger] post.hit_limits[i]) != (|x: PastHitLimitV| x.id)(
            #[trigger] post.hit_limits[j],
        ) by {
            if j < t0.hit_limits.len() {
                assert(post.hit_limits[i] == t0.hit_limits[i]);
                assert(post.hit_limits[j] == t0.hit_limits[j]);
            } else {
                assert(post.hit_limits[j] == rec);
                assert(post.hit_limits[i] == t0.hit_limits[i]);
                assert(t0.hit_ok(t0.hit_limits[i]));
            }
        }
        assert forall|i: int| 0 <= i < post.hit_limits.len() implies post.hit_ok(
            #[trigger] post.hit_limits[i],
        ) by {
            if i < t0.hit_limits.len() {
                assert(t0.hit_ok(t0.hit_limits[i]));
                assert(post.hit_limits[i] == t0.hit_limits[i]);
                assert forall|m: int| 0 <= m < post.hit_limits[i].cause.len() implies
                    post.cause_recorded(
                    post.hit_limits[i],
                    #[trigger] post.hit_limits[i].cause[m],
                ) by {
                    assert(t0.cause_recorded(t0.hit_limits[i], t0.hit_limits[i].cause[m]));
                }
            } else {
                assert(post.hit_limits[i] == rec);
            }
        }
        assert forall|i: int| 0 <= i < post.limits.len() implies post.limit_ok(
            #[trigger] post.limits[i],
        ) by {
            assert(t0.limit_ok(t0.limits[i]));
        }
        assert forall|i: int| 0 <= i < post.actions.len() implies post.action_ok(
            #[trigger] post.actions[i],
        ) by {
            assert(t0.action_ok(t0.actions[i]));
        }
        assert forall|i: int, j: int|
            0 <= i < j < post.hit_limits.len() && (#[trigger] post.hit_limits[i]).limit_id == (
            #[trigger] post.hit_limits[j]).limit_id implies disjoint_ids(
            post.hit_limits[i].cause,
            post.hit_limits[j].cause,
        ) by {
            if j < t0.hit_limits.len() {
                assert(post.hit_limits[i] == t0.hit_limits[i]);
                assert(post.hit_limits[j] == t0.hit_limits[j]);
            } else {
                assert(post.hit_limits[j] == rec);
                assert(post.hit_limits[i] == t0.hit_limits[i]);
            }
        }
        assert(post.wf());
        // The prefix of old records is untouched.
        assert forall|m: int| 0 <= m < s1.hit_limits.len() implies #[trigger] post.hit_limits[m]
            == s1.hit_limits[m] by {
            assert(post.hit_limits[m] == t0.hit_limits[m]);
        }
        assert forall|m: int|
            s1.hit_limits.len() <= m < post.hit_limits.len() implies (#[trigger] post.hit_limits[
                m
            ]).limit_id == hs[m - s1.hit_limits.len()].limit.limit_id by {
            if m < t0.hit_limits.len() {
                assert(post.hit_limits[m] == t0.hit_limits[m]);
                assert(head[m - s1.hit_limits.len()] == hs[m - s1.hit_limits.len()]);
            } else {
                assert(post.hit_limits[m] == rec);
                assert(m - s1.hit_limits.len() == hs.len() - 1);
            }
        }
        // The hit limit's qualifying set is now empty; every other limit is
        // untouched.
        assert(ids == ids_of(qualifying(prev.actions, h.limit, now)));
        lemma_mark_own_empties(prev.actions, h.limit, now);
        assert(qualifying(post.actions, h.limit, now).len() == 0);
        assert forall|j: int| 0 <= j < hs.len() implies (#[trigger] qualifying(
            post.actions,
            hs[j].limit,
            now,
        )).len() == 0 by {
            if j < hs.len() - 1 {
                assert(hs[j] == head[j]);
                assert(qualifying(prev.actions, hs[j].limit, now).len() == 0);
                assert(hs[j].limit.limit_id != hs[hs.len() - 1].limit.limit_id);
                lemma_mark_preserves_other(prev.actions, ids, lid, hs[j].limit, now);
            } else {
                assert(hs[j] == h);
            }
        }
        assert forall|l: LimitV| !hs_covers(hs, l.limit_id) implies #[trigger] ids_of(
            qualifying(post.actions, l, now),
        ) == ids_of(qualifying(s1.actions, l, now)) by {
            assert(!hs_covers(head, l.limit_id)) by {
                if hs_covers(head, l.limit_id) {
                    let j = choose|j: int|
                        0 <= j < head.len() && (#[trigger] head[j]).limit.limit_id == l.limit_id;
                    assert(hs[j] == head[j]);
                    assert(hs[j].limit.limit_id == l.limit_id);
                }
            }
            assert(l.limit_id != lid) by {
                if l.limit_id == lid {
                    assert(hs[hs.len() - 1].limit.limit_id == l.limit_id);
                }
            }
            lemma_mark_preserves_other(prev.actions, ids, lid, l, now);
        }
        assert forall|l: LimitV| !hs_covers(hs, l.limit_id) implies (#[trigger] qualifying(
            post.actions,
            l,
            now,
        )).len() == qualifying(s1.actions, l, now).len() by {
            assert(ids_of(qualifying(post.actions, l, now)) == ids_of(
                qualifying(s1.actions, l, now),
            ));
            assert(ids_of(qualifying(post.actions, l, now)).len() == qualifying(
                post.actions,
                l,
                now,
            ).len());
            assert(ids_of(qualifying(s1.actions, l, now)).len() == qualifying(
                s1.actions,
                l,
                now,
            ).len());
        }
    }
}


/// Ingesting one event preserves well-formedness: the guild is registered
/// and the fresh action is appended.
pub proof fn lemma_ingest_wf(s: StoreV, g: u64, u: u64, t: UserLimitTypes, target: u64, now: u64)
    requires
        s.wf(),
        s.next_id < u64::MAX,
    ensures
        ({
            let s1 = ingest_model(s, g, u, t, target, now);
            &&& s1.wf()
            &&& s1.guilds.contains(g)
            &&& s1.limits == s.limits
            &&& s1.hit_limits == s.hit_limits
            &&& s1.guild_admins == s.guild_admins
            &&& s1.guild_access == s.guild_access
            &&& s1.next_id == s.next_id + 1
        }),
{
    let s0 = upsert_guild_model(s, g);
    if !s.guilds.contains(g) {
        crate::store::lemma_guild_push_wf(s, g);
        assert(s0.guilds[s0.guilds.len() - 1] == g);
    }
    assert(s0.guilds.contains(g));
    crate::store::lemma_append_wf(s0, g, u, t, target, now);
    assert(ingest_model(s, g, u, t, target, now) =~= StoreV {
        actions: s0.actions.push(
            ActionV {
                action_id: (s0.next_id) as u64,
                limit_type: t,
                created_at: now,
                user_id: u,
                guild_id: g,
                action_target: target,
                limits_hit: Seq::empty(),
            },
        ),
        next_id: s0.next_id + 1,
        ..s0
    });
}

/// A whole evaluation pass leaves a well-formed store in which no limit of
/// the guild still fires at the same instant: everything that could be
/// reported has been reported and consumed.
pub proof fn lemma_pass_properties(
    s: StoreV,
    g: u64,
    u: u64,
    t: UserLimitTypes,
    target: u64,
    now: u64,
)
    requires
        s.wf(),
        s.next_id + 1 + s.limits.len() <= u64::MAX,
    ensures
        ({
            let post = pass_model(s, g, u, t, target, now);
            &&& post.wf()
            &&& post.limits == s.limits
            &&& quiescent_for(post, g, now)
        }),
{
    let s1 = ingest_model(s, g, u, t, target, now);
    lemma_ingest_wf(s, g, u, t, target, now);
    let hm = hit_model(s1.limits, s1.actions, g, now);
    lemma_hit_model_props(s1.limits, s1.actions, g, now);
    lemma_hit_model_distinct(s1.limits, s1.actions, g, now);
    lemma_hit_model_complete(s1.limits, s1.actions, g, now);
    lemma_record_hits_all(s1, hm, g, u, now);
    let post = pass_model(s, g, u, t, target, now);
    assert(post == record_hits(s1, hm, g, u, now));
    assert forall|k: int|
        0 <= k < post.limits.len() && (#[trigger] post.limits[k]).guild_id == g implies qualifying(
        post.actions,
        post.limits[k],
        now,
    ).len() < post.limits[k].limit_per by {
        let l = s1.limits[k];
        assert(s1.limit_ok(l));
        if qualifying(s1.actions, l, now).len() >= l.limit_per {
            assert(hs_covers(hm, l.limit_id));
            let j = choose|j: int|
                0 <= j < hm.len() && (#[trigger] hm[j]).limit.limit_id == l.limit_id;
            assert(s1.limits.contains(hm[j].limit));
            let k2 = choose|k2: int| 0 <= k2 < s1.limits.len() && s1.limits[k2] == hm[j].limit;
            if k2 != k {
                if k2 < k {
                    assert((|x: LimitV| x.limit_id)(s1.limits[k2]) != (|x: LimitV| x.limit_id)(
                        s1.limits[k],
                    ));
                } else {
                    assert((|x: LimitV| x.limit_id)(s1.limits[k]) != (|x: LimitV| x.limit_id)(
                        s1.limits[k2],
                    ));
                }
            }
            assert(hm[j].limit == l);
            assert(qualifying(post.actions, l, now).len() == 0);
        } else {
            assert(!hs_covers(hm, l.limit_id)) by {
                if hs_covers(hm, l.limit_id) {
                    let j = choose|j: int|
                        0 <= j < hm.len() && (#[trigger] hm[j]).limit.limit_id == l.limit_id;
                    assert(s1.limits.contains(hm[j].limit));
                    let k2 = choose|k2: int|
                        0 <= k2 < s1.limits.len() && s1.limits[k2] == hm[j].limit;
                    if k2 != k {
                        if k2 < k {
                            assert((|x: LimitV| x.limit_id)(s1.limits[k2]) != (|x: LimitV|
                                x.limit_id)(s1.limits[k]));
                        } else {
                            assert((|x: LimitV| x.limit_id)(s1.limits[k]) != (|x: LimitV|
                                x.limit_id)(s1.limits[k2]));
                        }
                    }
                    assert(hm[j].limit == l);
                    assert(hm[j].cause.len() >= hm[j].limit.limit_per);
                    assert(false);
                }
            }
            assert(qualifying(post.actions, l, now).len() == qualifying(s1.actions, l, now).len());
        }
    }
}

/// Two recorded hits of the same limit never share a cause action: a given
/// set of actions triggers a violation of a limit at most once, even across
/// racing passes, because the records themselves carry the guarantee.
pub proof fn lemma_no_double_count(s: StoreV, i: int, j: int)
    requires
        s.wf(),
        0 <= i < j < s.hit_limits.len(),
        s.hit_limits[i].limit_id == s.hit_limits[j].limit_id,
    ensures
        disjoint_ids(s.hit_limits[i].cause, s.hit_limits[j].cause),
{
}

/// Re-marking an already marked pair is a no-op: consumption marks behave as
/// a set, not a list.
pub proof fn lemma_mark_consumed_idempotent(actions: Seq<ActionV>, ids: Seq<u64>, lid: u64)
    ensures
        mark_all(mark_all(actions, ids, lid), ids, lid) == mark_all(actions, ids, lid),
{
    let m1 = mark_all(actions, ids, lid);
    let m2 = mark_all(m1, ids, lid);
    lemma_mark_all_index(actions, ids, lid);
    lemma_mark_all_index(m1, ids, lid);
    assert forall|k: int| 0 <= k < actions.len() implies #[trigger] m2[k] == m1[k] by {
        let a = actions[k];
        assert(m1[k] == mark_action(a, ids, lid));
        assert(m2[k] == mark_action(m1[k], ids, lid));
        if ids.contains(a.action_id) && !a.limits_hit.contains(lid) {
            lemma_push_contains(a.limits_hit, lid, lid);
            assert(m1[k].limits_hit.contains(lid));
        }
    }
    assert(m2 =~= m1);
}

/// After a pass, re-evaluating the guild at the same or any later instant
/// with no new actions reports nothing: consumed actions are excluded from
/// all future counts against their limit, and the rest age out but never
/// age in.
pub proof fn lemma_consumed_excluded(
    s: StoreV,
    g: u64,
    u: u64,
    t: UserLimitTypes,
    target: u64,
    now: u64,
    later: u64,
)
    requires
        s.wf(),
        s.next_id + 1 + s.limits.len() <= u64::MAX,
        now <= later,
    ensures
        ({
            let post = pass_model(s, g, u, t, target, now);
            hit_model(post.limits, post.actions, g, later) == Seq::<UserLimitsHitV>::empty()
        }),
{
    lemma_pass_properties(s, g, u, t, target, now);
    let post = pass_model(s, g, u, t, target, now);
    assert forall|k: int|
        0 <= k < post.limits.len() && (#[trigger] post.limits[k]).guild_id == g implies qualifying(
        post.actions,
        post.limits[k],
        later,
    ).len() < post.limits[k].limit_per by {
        crate::limits::lemma_qualifying_time_mono(post.actions, post.limits[k], now, later);
    }
    lemma_hit_model_empty(post.limits, post.actions, g, later);
}

/// Registers `guild_id` if the ingress has not seen it before.  Idempotent.
pub fn create_guild_if_not_exists(store: &mut Store, guild_id: u64)
    requires
        old(store)@.wf(),
    ensures
        final(store)@.wf(),
        final(store)@ == upsert_guild_model(old(store)@, guild_id),
{
    if !store.has_guild(guild_id) {
        let _ = store.setup(guild_id);
    }
}

/// The ids of the given actions, in order.
#[verifier::loop_isolation(false)]
fn collect_action_ids(v: &Vec<Action>) -> (r: Vec<u64>)
    ensures
        r@ == ids_of(v.deep_view()),
{
    let mut r: Vec<u64> = Vec::new();
    let mut i: usize = 0;
    while i < v.len()
        invariant
            i <= v.len(),
            r@ == ids_of(v.deep_view().take(i as int)),
        decreases v.len() - i,
    {
        proof {
            let dv = v.deep_view();
            assert(dv[i as int] == v@[i as int]@);
            assert(ids_of(dv.take(i + 1 as int)) =~= ids_of(dv.take(i as int)).push(
                dv[i as int].action_id,
            ));
        }
        r.push(v[i].action_id);
        i = i + 1;
    }
    proof {
        assert(ids_of(v.deep_view().take(v.len() as int)) =~= ids_of(v.deep_view()));
    }
    r
}

/// Appends one violation record with a fresh id.
fn record_violation(
    store: &mut Store,
    guild_id: u64,
    user_id: u64,
    limit_id: u64,
    cause: Vec<u64>,
    created_at: u64,
)
    requires
        old(store)@.next_id < u64::MAX,
    ensures
        final(store)@ == (StoreV {
            hit_limits: old(store)@.hit_limits.push(
                PastHitLimitV {
                    id: (old(store)@.next_id) as u64,
                    guild_id,
                    user_id,
                    limit_id,
                    cause: cause@,
                    created_at,
                    notes: Seq::empty(),
                },
            ),
            next_id: old(store)@.next_id + 1,
            ..old(store)@
        }),
{
    let id = store.next_id;
    let ghost cv = cause@;
    let rec = PastHitLimit {
        id,
        guild_id,
        user_id,
        limit_id,
        cause,
        created_at,
        notes: Vec::new(),
    };
    proof {
        assert(rec@.notes =~= Seq::<Seq<char>>::empty());
    }
    store.hit_limits.push(rec);
    store.next_id = store.next_id + 1;
    proof {
        assert(final(store)@.hit_limits =~= old(store)@.hit_limits.push(
            PastHitLimitV {
                id: (old(store)@.next_id) as u64,
                guild_id,
                user_id,
                limit_id,
                cause: cv,
                created_at,
                notes: Seq::empty(),
            },
        ));
    }
}

impl UserLimitsHit {
    /// Every limit of `guild_id` whose threshold is reached at `now` by its
    /// unconsumed in-window actions, in registry order, each carrying the
    /// qualifying actions as its cause.  Read-only: marking the causes
    /// consumed and recording the violations is the ingress path's step.
    #[verifier::loop_isolation(false)]
    pub fn hit(store: &Store, guild_id: u64, now: u64) -> (r: Vec<UserLimitsHit>)
        ensures
            r.deep_view() == hit_model(store@.limits, store@.actions, guild_id, now),
    {
        let mut r: Vec<UserLimitsHit> = Vec::new();
        let mut i: usize = 0;
        while i < store.limits.len()
            invariant
                i <= store.limits.len(),
                r.deep_view() == hit_model(
                    store@.limits.take(i as int),
                    store@.actions,
                    guild_id,
                    now,
                ),
            decreases store.limits.len() - i,
        {
            let l = &store.limits[i];
            proof {
                let dl = store.limits.deep_view();
                assert(dl[i as int] == store.limits@[i as int]@);
                assert(dl.take(i + 1 as int).drop_last() =~= dl.take(i as int));
                assert(dl.take(i + 1 as int).last() == dl[i as int]);
            }
            if l.guild_id == guild_id {
                let cause = store.query(guild_id, l.limit_type, l.limit_time, now, l.limit_id);
                if cause.len() >= (l.limit_per as usize) {
                    let hit_entry = UserLimitsHit { limit: l.clone(), cause };
                    proof {
                        assert(hit_entry@.cause == qualifying(
                            store@.actions,
                            store.limits.deep_view()[i as int],
                            now,
                        ));
                    }
                    r.push(hit_entry);
                }
            }
            i = i + 1;
        }
        proof {
            assert(store@.limits.take(store.limits.len() as int) =~= store@.limits);
        }
        r
    }
}

/// Handles one observed moderation event: registers the guild if unknown,
/// appends the action to the ledger, evaluates every limit of the guild,
/// and, for each limit whose threshold is reached, marks the qualifying
/// actions consumed and records the violation — atomically with respect to
/// any other pass, since the pass holds the store exclusively.  Returns the
/// hits so the caller can dispatch their mitigations.
#[verifier::loop_isolation(false)]
pub fn handle_mod_action(
    store: &mut Store,
    guild_id: u64,
    user_id: u64,
    limit_type: UserLimitTypes,
    action_target: u64,
    now: u64,
) -> (hits: Vec<UserLimitsHit>)
    requires
        old(store)@.wf(),
        old(store)@.next_id + 1 + old(store)@.limits.len() <= u64::MAX,
    ensures
        final(store)@.wf(),
        final(store)@ == pass_model(
            old(store)@,
            guild_id,
            user_id,
            limit_type,
            action_target,
            now,
        ),
        hits.deep_view() == pass_hits(
            old(store)@,
            guild_id,
            user_id,
            limit_type,
            action_target,
            now,
        ),
        quiescent_for(final(store)@, guild_id, now),
{
    proof {
        lemma_ingest_wf(old(store)@, guild_id, user_id, limit_type, action_target, now);
    }
    create_guild_if_not_exists(store, guild_id);
    let _aid = store.append(guild_id, user_id, limit_type, action_target, now);
    let ghost s1 = ingest_model(old(store)@, guild_id, user_id, limit_type, action_target, now);
    proof {
        assert(store@ =~= s1);
    }
    let hits = UserLimitsHit::hit(store, guild_id, now);
    proof {
        lemma_hit_model_props(s1.limits, s1.actions, guild_id, now);
        lemma_hit_model_distinct(s1.limits, s1.actions, guild_id, now);
        assert(hits.deep_view().len() <= s1.limits.len());
    }
    let mut i: usize = 0;
    while i < hits.len()
        invariant
            i <= hits.len(),
            s1 == ingest_model(old(store)@, guild_id, user_id, limit_type, action_target, now),
            s1.wf(),
            s1.next_id + hits.deep_view().len() <= u64::MAX,
            hits.deep_view() == hit_model(s1.limits, s1.actions, guild_id, now),
            hits_props(s1.limits, s1.actions, hits.deep_view(), guild_id, now),
            hits_distinct(hits.deep_view()),
            store@ == record_hits(s1, hits.deep_view().take(i as int), guild_id, user_id, now),
        decreases hits.len() - i,
    {
        let ghost hv = hits.deep_view();
        proof {
            assert forall|j: int| 0 <= j < hv.take(i as int).len() implies (s1.limits.contains(
                (#[trigger] hv.take(i as int)[j]).limit,
            ) && hv.take(i as int)[j].limit.guild_id == guild_id && hv.take(i as int)[j].cause
                == qualifying(s1.actions, hv.take(i as int)[j].limit, now) && hv.take(
                i as int,
            )[j].cause.len() >= hv.take(i as int)[j].limit.limit_per) by {
                assert(hv.take(i as int)[j] == hv[j]);
            }
            assert forall|m: int, n: int| 0 <= m < n < hv.take(i as int).len() implies (
            #[trigger] hv.take(i as int)[m]).limit.limit_id != (#[trigger] hv.take(
                i as int,
            )[n]).limit.limit_id by {
                assert(hv.take(i as int)[m] == hv[m]);
                assert(hv.take(i as int)[n] == hv[n]);
            }
            lemma_record_hits_all(s1, hv.take(i as int), guild_id, user_id, now);
            assert(store@.wf());
            assert(store@.next_id == s1.next_id + i);
            assert(hits@[i as int]@ == hv[i as int]);
        }
        let h = &hits[i];
        let cause_ids = collect_action_ids(&h.cause);
        let ghost before = store@;
        store.mark_consumed(&cause_ids, h.limit.limit_id);
        record_violation(store, guild_id, user_id, h.limit.limit_id, cause_ids, now);
        proof {
            assert(store@ =~= record_hit(before, hv[i as int], guild_id, user_id, now));
            assert(hv.take(i + 1 as int).drop_last() =~= hv.take(i as int));
            assert(hv.take(i + 1 as int).last() == hv[i as int]);
        }
        i = i + 1;
    }
    proof {
        let hv = hits.deep_view();
        assert(hv.take(hits.len() as int) =~= hv);
        lemma_pass_properties(old(store)@, guild_id, user_id, limit_type, action_target, now);
        assert(final(store)@ == pass_model(
            old(store)@,
            guild_id,
            user_id,
            limit_type,
            action_target,
            now,
        ));
    }
    hits
}

impl Store {
    /// Resolves the mitigation a recorded hit calls for: the configured
    /// `limit_action` of the limit it names.  The limit may have been
    /// deleted since the hit was recorded; the record then resolves to
    /// nothing, and the violation itself remains valid.
    pub fn resolve_mitigation(&self, violation: &PastHitLimit) -> (r: Result<
        UserLimitActions,
        Error,
    >)
        ensures
            (r is Ok) == has_limit(self@.limits, violation.guild_id, violation.limit_id),
            (r matches Ok(m) ==> exists|k: int|
                0 <= k < self@.limits.len() && (#[trigger] self@.limits[k]).guild_id
                    == violation.guild_id && self@.limits[k].limit_id == violation.limit_id
                    && self@.limits[k].limit_action == m),
            r is Err ==> r == Err::<UserLimitActions, Error>(Error::NotFound),
    {
        match crate::store::lookup_limit(&self.limits, violation.guild_id, violation.limit_id) {
            Some(k) => {
                let act = self.limits[k].limit_action;
                proof {
                    assert(self@.limits[k as int].limit_action == act);
                }
                Ok(act)
            },
            None => Err(Error::NotFound),
        }
    }
}


/// A limit fires exactly when the count of its unconsumed matching actions
/// inside the window reaches its threshold — never earlier, and every limit
/// that reaches it is reported.
pub proof fn lemma_fires_iff_threshold(
    limits: Seq<LimitV>,
    actions: Seq<ActionV>,
    g: u64,
    now: u64,
    k: int,
)
    requires
        distinct_by(limits, |l: LimitV| l.limit_id),
        0 <= k < limits.len(),
        limits[k].guild_id == g,
    ensures
        hs_covers(hit_model(limits, actions, g, now), limits[k].limit_id) == (qualifying(
            actions,
            limits[k],
            now,
        ).len() >= limits[k].limit_per),
{
    let hm = hit_model(limits, actions, g, now);
    let l = limits[k];
    lemma_hit_model_complete(limits, actions, g, now);
    lemma_hit_model_props(limits, actions, g, now);
    if hs_covers(hm, l.limit_id) {
        let j = choose|j: int| 0 <= j < hm.len() && (#[trigger] hm[j]).limit.limit_id == l.limit_id;
        assert(limits.contains(hm[j].limit));
        let k2 = choose|k2: int| 0 <= k2 < limits.len() && limits[k2] == hm[j].limit;
        if k2 != k {
            if k2 < k {
                assert((|x: LimitV| x.limit_id)(limits[k2]) != (|x: LimitV| x.limit_id)(
                    limits[k],
                ));
            } else {
                assert((|x: LimitV| x.limit_id)(limits[k]) != (|x: LimitV| x.limit_id)(
                    limits[k2],
                ));
            }
        }
        assert(hm[j].limit == l);
        assert(hm[j].cause.len() >= l.limit_per);
    }
}

} // verus!
