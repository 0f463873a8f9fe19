use vstd::prelude::*;

use crate::access::AccessLevel;
use crate::errors::Error;
use crate::limits::Action;
use crate::limits::ActionV;
use crate::limits::Limit;
use crate::limits::LimitV;
use crate::limits::PastHitLimit;
use crate::limits::PastHitLimitV;
use crate::limits::UserLimitActions;
use crate::limits::UserLimitTypes;
use crate::limits::contains_id;
use crate::limits::query_matches;
use crate::limits::query_model;
use crate::seqs::distinct_by;
use crate::seqs::keep;
use crate::seqs::lemma_keep_contains;
use crate::seqs::lemma_keep_distinct_by;
use crate::seqs::lemma_keep_membership;
use crate::seqs::lemma_keep_pred;
use crate::utils::Unit;

verus! {

/// One grant of an access level to a user inside a guild.
#[derive(Clone, Copy, Debug, PartialEq, Eq, Structural)]
pub struct AccessRow {
    pub guild_id: u64,
    pub user_id: u64,
    pub level: AccessLevel,
}

/// The mathematical value of a [`Store`].
#[verifier::ext_equal]
pub struct StoreV {
    pub guilds: Seq<u64>,
    pub limits: Seq<LimitV>,
    pub actions: Seq<ActionV>,
    pub hit_limits: Seq<PastHitLimitV>,
    pub guild_admins: Seq<(u64, u64)>,
    pub guild_access: Seq<AccessRow>,
    pub next_id: int,
}

/// The engine's state: registered guilds, their configured limits, the
/// append-only action ledger, the recorded hits, and the access rolls.
///
/// All opaque ids are drawn from one counter, so every id is unique across
/// the store.  A `&mut Store` is exclusive, which is what makes an
/// evaluation pass atomic with respect to any other pass: two passes for the
/// same guild can never interleave between reading the ledger and marking
/// its actions consumed.
pub struct Store {
    pub guilds: Vec<u64>,
    pub limits: Vec<Limit>,
    pub actions: Vec<Action>,
    pub hit_limits: Vec<PastHitLimit>,
    pub guild_admins: Vec<(u64, u64)>,
    pub guild_access: Vec<AccessRow>,
    pub next_id: u64,
}

impl View for Store {
    type V = StoreV;

    open spec fn view(&self) -> StoreV {
        StoreV {
            guilds: self.guilds@,
            limits: self.limits.deep_view(),
            actions: self.actions.deep_view(),
            hit_limits: self.hit_limits.deep_view(),
            guild_admins: self.guild_admins@,
            guild_access: self.guild_access@,
            next_id: self.next_id as int,
        }
    }
}

/// No id occurs in both sequences.
pub open spec fn disjoint_ids(a: Seq<u64>, b: Seq<u64>) -> bool {
    forall|x: u64| a.contains(x) ==> !b.contains(x)
}

impl StoreV {
    /// A configured limit references a registered guild, has a positive
    /// threshold and a non-empty window, and an id the counter has passed.
    pub open spec fn limit_ok(self, l: LimitV) -> bool {
        &&& self.guilds.contains(l.guild_id)
        &&& 1 <= l.limit_per
        &&& 1 <= l.limit_time
        &&& (l.limit_id as int) < self.next_id
    }

    /// A ledger action references a registered guild, has an id the counter
    /// has passed, and carries its consumption marks as a set.
    pub open spec fn action_ok(self, a: ActionV) -> bool {
        &&& self.guilds.contains(a.guild_id)
        &&& (a.action_id as int) < self.next_id
        &&& forall|i: int, j: int|
            0 <= i < j < a.limits_hit.len() ==> a.limits_hit[i] != a.limits_hit[j]
    }

    /// The ledger holds an action with id `aid`, in the guild of `h`, already
    /// marked consumed by the limit `h` records.
    pub open spec fn cause_recorded(self, h: PastHitLimitV, aid: u64) -> bool {
        exists|k: int|
            0 <= k < self.actions.len() && (#[trigger] self.actions[k]).action_id == aid
                && self.actions[k].guild_id == h.guild_id && self.actions[k].limits_hit.contains(
                h.limit_id,
            )
    }

    /// A recorded hit references a registered guild, names at least one
    /// distinct cause action, and every cause action is in the ledger and
    /// marked consumed by the hit's limit.
    pub open spec fn hit_ok(self, h: PastHitLimitV) -> bool {
        &&& self.guilds.contains(h.guild_id)
        &&& (h.id as int) < self.next_id
        &&& 1 <= h.cause.len()
        &&& forall|i: int, j: int| 0 <= i < j < h.cause.len() ==> h.cause[i] != h.cause[j]
        &&& forall|i: int| 0 <= i < h.cause.len() ==> self.cause_recorded(h, #[trigger] h.cause[i])
    }

    /// Well-formedness of the whole store.  The last clause is the
    /// exactly-once guarantee: two hits of the same limit never share a
    /// cause action.
    pub open spec fn wf(self) -> bool {
        &&& 1 <= self.next_id <= u64::MAX
        &&& distinct_by(self.guilds, |g: u64| g)
        &&& distinct_by(self.limits, |l: LimitV| l.limit_id)
        &&& distinct_by(self.actions, |a: ActionV| a.action_id)
        &&& distinct_by(self.hit_limits, |h: PastHitLimitV| h.id)
        &&& forall|i: int| 0 <= i < self.limits.len() ==> self.limit_ok(#[trigger] self.limits[i])
        &&& forall|i: int|
            0 <= i < self.actions.len() ==> self.action_ok(#[trigger] self.actions[i])
        &&& forall|i: int|
            0 <= i < self.hit_limits.len() ==> self.hit_ok(#[trigger] self.hit_limits[i])
        &&& forall|i: int, j: int|
            0 <= i < j < self.hit_limits.len() && (#[trigger] self.hit_limits[i]).limit_id == (
            #[trigger] self.hit_limits[j]).limit_id ==> disjoint_ids(
                self.hit_limits[i].cause,
                self.hit_limits[j].cause,
            )
    }
}

/// `a` after `mark_consumed(ids, lid)`: if the action is named and not yet
/// marked, the mark is appended; otherwise the action is unchanged.
pub open spec fn mark_action(a: ActionV, ids: Seq<u64>, lid: u64) -> ActionV {
    if ids.contains(a.action_id) && !a.limits_hit.contains(lid) {
        ActionV { limits_hit: a.limits_hit.push(lid), ..a }
    } else {
        a
    }
}

/// The whole ledger after `mark_consumed(ids, lid)`.
pub open spec fn mark_all(actions: Seq<ActionV>, ids: Seq<u64>, lid: u64) -> Seq<ActionV>
    decreases actions.len(),
{
    if actions.len() == 0 {
        Seq::empty()
    } else {
        mark_all(actions.drop_last(), ids, lid).push(mark_action(actions.last(), ids, lid))
    }
}

/// Marking acts pointwise on the ledger.
pub proof fn lemma_mark_all_index(actions: Seq<ActionV>, ids: Seq<u64>, lid: u64)
    ensures
        mark_all(actions, ids, lid).len() == actions.len(),
        forall|k: int|
            0 <= k < actions.len() ==> #[trigger] mark_all(actions, ids, lid)[k] == mark_action(
                actions[k],
                ids,
                lid,
            ),
    decreases actions.len(),
{
    if actions.len() > 0 {
        lemma_mark_all_index(actions.drop_last(), ids, lid);
        assert forall|k: int| 0 <= k < actions.len() implies #[trigger] mark_all(
            actions,
            ids,
            lid,
        )[k] == mark_action(actions[k], ids, lid) by {
            if k < actions.len() - 1 {
                assert(actions.drop_last()[k] == actions[k]);
                assert(mark_all(actions, ids, lid)[k] == mark_all(
                    actions.drop_last(),
                    ids,
                    lid,
                )[k]);
            }
        }
    }
}

/// The limits configured for guild `g`, in creation (insertion) order.
pub open spec fn guild_limits(limits: Seq<LimitV>, g: u64) -> Seq<LimitV>
    decreases limits.len(),
{
    if limits.len() == 0 {
        Seq::empty()
    } else {
        let rest = guild_limits(limits.drop_last(), g);
        if limits.last().guild_id == g {
            rest.push(limits.last())
        } else {
            rest
        }
    }
}

/// The recorded actions of guild `g`, in ledger order.
pub open spec fn guild_actions(actions: Seq<ActionV>, g: u64) -> Seq<ActionV>
    decreases actions.len(),
{
    if actions.len() == 0 {
        Seq::empty()
    } else {
        let rest = guild_actions(actions.drop_last(), g);
        if actions.last().guild_id == g {
            rest.push(actions.last())
        } else {
            rest
        }
    }
}

/// The recorded actions of one actor in guild `g`, in ledger order.
pub open spec fn user_actions(actions: Seq<ActionV>, g: u64, u: u64) -> Seq<ActionV>
    decreases actions.len(),
{
    if actions.len() == 0 {
        Seq::empty()
    } else {
        let rest = user_actions(actions.drop_last(), g, u);
        if actions.last().guild_id == g && actions.last().user_id == u {
            rest.push(actions.last())
        } else {
            rest
        }
    }
}

/// The recorded hits of guild `g`, in recording order.
pub open spec fn guild_hits(hits: Seq<PastHitLimitV>, g: u64) -> Seq<PastHitLimitV>
    decreases hits.len(),
{
    if hits.len() == 0 {
        Seq::empty()
    } else {
        let rest = guild_hits(hits.drop_last(), g);
        if hits.last().guild_id == g {
            rest.push(hits.last())
        } else {
            rest
        }
    }
}

/// The registry without the limit `lid` of guild `g`.
pub open spec fn without_limit(limits: Seq<LimitV>, g: u64, lid: u64) -> Seq<LimitV>
    decreases limits.len(),
{
    if limits.len() == 0 {
        Seq::empty()
    } else {
        let rest = without_limit(limits.drop_last(), g, lid);
        if !(limits.last().guild_id == g && limits.last().limit_id == lid) {
            rest.push(limits.last())
        } else {
            rest
        }
    }
}

/// The admin roll without the pair `(g, u)`.
pub open spec fn without_admin(admins: Seq<(u64, u64)>, g: u64, u: u64) -> Seq<(u64, u64)>
    decreases admins.len(),
{
    if admins.len() == 0 {
        Seq::empty()
    } else {
        let rest = without_admin(admins.drop_last(), g, u);
        if !(admins.last().0 == g && admins.last().1 == u) {
            rest.push(admins.last())
        } else {
            rest
        }
    }
}

/// The guild ids other than `g`.
pub open spec fn guilds_without(guilds: Seq<u64>, g: u64) -> Seq<u64>
    decreases guilds.len(),
{
    if guilds.len() == 0 {
        Seq::empty()
    } else {
        let rest = guilds_without(guilds.drop_last(), g);
        if guilds.last() != g {
            rest.push(guilds.last())
        } else {
            rest
        }
    }
}

/// The limits of guilds other than `g`.
pub open spec fn limits_without(limits: Seq<LimitV>, g: u64) -> Seq<LimitV>
    decreases limits.len(),
{
    if limits.len() == 0 {
        Seq::empty()
    } else {
        let rest = limits_without(limits.drop_last(), g);
        if limits.last().guild_id != g {
            rest.push(limits.last())
        } else {
            rest
        }
    }
}

/// The actions of guilds other than `g`.
pub open spec fn actions_without(actions: Seq<ActionV>, g: u64) -> Seq<ActionV>
    decreases actions.len(),
{
    if actions.len() == 0 {
        Seq::empty()
    } else {
        let rest = actions_without(actions.drop_last(), g);
        if actions.last().guild_id != g {
            rest.push(actions.last())
        } else {
            rest
        }
    }
}

/// The hit records of guilds other than `g`.
pub open spec fn hits_without(hits: Seq<PastHitLimitV>, g: u64) -> Seq<PastHitLimitV>
    decreases hits.len(),
{
    if hits.len() == 0 {
        Seq::empty()
    } else {
        let rest = hits_without(hits.drop_last(), g);
        if hits.last().guild_id != g {
            rest.push(hits.last())
        } else {
            rest
        }
    }
}

/// The admin entries of guilds other than `g`.
pub open spec fn admins_without(admins: Seq<(u64, u64)>, g: u64) -> Seq<(u64, u64)>
    decreases admins.len(),
{
    if admins.len() == 0 {
        Seq::empty()
    } else {
        let rest = admins_without(admins.drop_last(), g);
        if admins.last().0 != g {
            rest.push(admins.last())
        } else {
            rest
        }
    }
}

/// The access entries of guilds other than `g`.
pub open spec fn access_without(rows: Seq<AccessRow>, g: u64) -> Seq<AccessRow>
    decreases rows.len(),
{
    if rows.len() == 0 {
        Seq::empty()
    } else {
        let rest = access_without(rows.drop_last(), g);
        if rows.last().guild_id != g {
            rest.push(rows.last())
        } else {
            rest
        }
    }
}

/// Whether guild `g` has a limit with id `lid`.
pub open spec fn has_limit(limits: Seq<LimitV>, g: u64, lid: u64) -> bool {
    exists|k: int|
        0 <= k < limits.len() && (#[trigger] limits[k]).guild_id == g && limits[k].limit_id == lid
}

/// The store after the cascading deletion of guild `g`: the guild itself,
/// its limits, its actions, its hits and its access rolls are all gone.
pub open spec fn delete_guild_model(s: StoreV, g: u64) -> StoreV {
    StoreV {
        guilds: guilds_without(s.guilds, g),
        limits: limits_without(s.limits, g),
        actions: actions_without(s.actions, g),
        hit_limits: hits_without(s.hit_limits, g),
        guild_admins: admins_without(s.guild_admins, g),
        guild_access: access_without(s.guild_access, g),
        next_id: s.next_id,
    }
}

/// The window of a limit entered as `limit_time` units, in microseconds.
pub open spec fn window_micros(limit_time: i64, unit: Unit) -> int {
    limit_time * unit.to_seconds_spec() * 1_000_000
}

/// A limit specification is rejected when its threshold is zero, its window
/// is empty, or its window does not fit the store's microsecond type.
pub open spec fn limits_add_rejected(limit_per: u32, limit_time: i64, unit: Unit) -> bool {
    ||| limit_per == 0
    ||| limit_time <= 0
    ||| window_micros(limit_time, unit) > u64::MAX
}

/// `guilds_without` is the generic filter at its predicate.
proof fn lemma_guilds_without_is_keep(guilds: Seq<u64>, g: u64, p: spec_fn(u64) -> bool)
    requires
        forall|x: u64| #[trigger] p(x) == (x != g),
    ensures
        guilds_without(guilds, g) == keep(guilds, p),
    decreases guilds.len(),
{
    if guilds.len() > 0 {
        lemma_guilds_without_is_keep(guilds.drop_last(), g, p);
    }
}

/// `limits_without` is the generic filter at its predicate.
proof fn lemma_limits_without_is_keep(limits: Seq<LimitV>, g: u64, p: spec_fn(LimitV) -> bool)
    requires
        forall|l: LimitV| #[trigger] p(l) == (l.guild_id != g),
    ensures
        limits_without(limits, g) == keep(limits, p),
    decreases limits.len(),
{
    if limits.len() > 0 {
        lemma_limits_without_is_keep(limits.drop_last(), g, p);
    }
}

/// `actions_without` is the generic filter at its predicate.
proof fn lemma_actions_without_is_keep(actions: Seq<ActionV>, g: u64, p: spec_fn(ActionV) -> bool)
    requires
        forall|a: ActionV| #[trigger] p(a) == (a.guild_id != g),
    ensures
        actions_without(actions, g) == keep(actions, p),
    decreases actions.len(),
{
    if actions.len() > 0 {
        lemma_actions_without_is_keep(actions.drop_last(), g, p);
    }
}

/// `hits_without` is the generic filter at its predicate.
proof fn lemma_hits_without_is_keep(
    hits: Seq<PastHitLimitV>,
    g: u64,
    p: spec_fn(PastHitLimitV) -> bool,
)
    requires
        forall|h: PastHitLimitV| #[trigger] p(h) == (h.guild_id != g),
    ensures
        hits_without(hits, g) == keep(hits, p),
    decreases hits.len(),
{
    if hits.len() > 0 {
        lemma_hits_without_is_keep(hits.drop_last(), g, p);
    }
}

/// `without_limit` is the generic filter at its predicate.
proof fn lemma_without_limit_is_keep(
    limits: Seq<LimitV>,
    g: u64,
    lid: u64,
    p: spec_fn(LimitV) -> bool,
)
    requires
        forall|l: LimitV| #[trigger] p(l) == !(l.guild_id == g && l.limit_id == lid),
    ensures
        without_limit(limits, g, lid) == keep(limits, p),
    decreases limits.len(),
{
    if limits.len() > 0 {
        lemma_without_limit_is_keep(limits.drop_last(), g, lid, p);
    }
}

/// Returns whether the pair `(g, u)` occurs in `v`.
fn contains_pair(v: &Vec<(u64, u64)>, g: u64, u: u64) -> (b: bool)
    ensures
        b == v@.contains((g, u)),
{
    let mut i: usize = 0;
    while i < v.len()
        invariant
            i <= v.len(),
            forall|k: int| 0 <= k < i ==> v@[k] != (g, u),
        decreases v.len() - i,
    {
        if v[i].0 == g && v[i].1 == u {
            proof {
                assert(v@[i as int] == (g, u));
            }
            return true;
        }
        i = i + 1;
    }
    false
}

/// Returns the index of guild `g`'s limit with id `lid`, if it exists.
#[verifier::loop_isolation(false)]
pub(crate) fn lookup_limit(limits: &Vec<Limit>, guild_id: u64, limit_id: u64) -> (r: Option<usize>)
    ensures
        (r is Some) == has_limit(limits.deep_view(), guild_id, limit_id),
        (r matches Some(k) ==> k < limits.len() && limits.deep_view()[k as int].guild_id
            == guild_id && limits.deep_view()[k as int].limit_id == limit_id),
{
    let mut i: usize = 0;
    while i < limits.len()
        invariant
            i <= limits.len(),
            forall|m: int|
                0 <= m < i ==> !((#[trigger] limits.deep_view()[m]).guild_id == guild_id
                    && limits.deep_view()[m].limit_id == limit_id),
        decreases limits.len() - i,
    {
        if limits[i].guild_id == guild_id && limits[i].limit_id == limit_id {
            proof {
                assert((limits.deep_view()[i as int]).guild_id == guild_id);
            }
            return Some(i);
        }
        i = i + 1;
    }
    None
}

impl Store {
    /// An empty store.
    pub fn new() -> (r: Store)
        ensures
            r@.wf(),
            r@.guilds == Seq::<u64>::empty(),
            r@.limits == Seq::<LimitV>::empty(),
            r@.actions == Seq::<ActionV>::empty(),
            r@.hit_limits == Seq::<PastHitLimitV>::empty(),
            r@.guild_admins == Seq::<(u64, u64)>::empty(),
            r@.guild_access == Seq::<AccessRow>::empty(),
            r@.next_id == 1,
    {
        let r = Store {
            guilds: Vec::new(),
            limits: Vec::new(),
            actions: Vec::new(),
            hit_limits: Vec::new(),
            guild_admins: Vec::new(),
            guild_access: Vec::new(),
            next_id: 1,
        };
        proof {
            assert(r@.limits =~= Seq::<LimitV>::empty());
            assert(r@.actions =~= Seq::<ActionV>::empty());
            assert(r@.hit_limits =~= Seq::<PastHitLimitV>::empty());
        }
        r
    }

    /// Whether `user_id` is on `guild_id`'s admin roll.
    pub fn is_admin(&self, guild_id: u64, user_id: u64) -> (b: bool)
        ensures
            b == self@.guild_admins.contains((guild_id, user_id)),
    {
        contains_pair(&self.guild_admins, guild_id, user_id)
    }

    /// Whether `guild_id` is registered.
    pub fn has_guild(&self, guild_id: u64) -> (b: bool)
        ensures
            b == self@.guilds.contains(guild_id),
    {
        contains_id(&self.guilds, guild_id)
    }

    /// All actions of `guild_id` of kind `limit_type` whose `created_at`
    /// lies strictly inside `window` of `now` and that are not yet consumed
    /// by the limit `excluding_consumer`, in ledger (append) order.
    #[verifier::loop_isolation(false)]
    pub fn query(
        &self,
        guild_id: u64,
        limit_type: UserLimitTypes,
        window: u64,
        now: u64,
        excluding_consumer: u64,
    ) -> (r: Vec<Action>)
        ensures
            r.deep_view() == query_model(
                self@.actions,
                guild_id,
                limit_type,
                window,
                now,
                excluding_consumer,
            ),
    {
        let mut r: Vec<Action> = Vec::new();
        let mut i: usize = 0;
        while i < self.actions.len()
            invariant
                i <= self.actions.len(),
                r.deep_view() == query_model(
                    self.actions.deep_view().take(i as int),
                    guild_id,
                    limit_type,
                    window,
                    now,
                    excluding_consumer,
                ),
            decreases self.actions.len() - i,
        {
            let a = &self.actions[i];
            let in_win = if a.created_at > now {
                true
            } else {
                now - a.created_at < window
            };
            let not_consumed = !contains_id(&a.limits_hit, excluding_consumer);
            let qualifies = a.guild_id == guild_id && a.limit_type == limit_type && in_win
                && not_consumed;
            proof {
                let dv = self.actions.deep_view();
                assert(dv[i as int] == self.actions@[i as int]@);
                assert(qualifies == query_matches(
                    dv[i as int],
                    guild_id,
                    limit_type,
                    window,
                    now,
                    excluding_consumer,
                ));
                assert(dv.take(i + 1 as int).drop_last() =~= dv.take(i as int));
                assert(dv.take(i + 1 as int).last() == dv[i as int]);
            }
            if qualifies {
                r.push(a.clone());
            }
            i = i + 1;
        }
        proof {
            assert(self.actions.deep_view().take(self.actions.len() as int)
                =~= self.actions.deep_view());
        }
        r
    }

    /// Appends one observed action to the ledger, registering the guild if
    /// it is unknown, and returns the fresh action id.  The ledger never
    /// deduplicates: every qualifying event produces a new action.
    pub fn append(
        &mut self,
        guild_id: u64,
        user_id: u64,
        limit_type: UserLimitTypes,
        action_target: u64,
        created_at: u64,
    ) -> (r: u64)
        requires
            old(self)@.wf(),
            old(self)@.next_id < u64::MAX,
        ensures
            final(self)@.wf(),
            r == old(self)@.next_id,
            final(self)@.guilds == if old(self)@.guilds.contains(guild_id) {
                old(self)@.guilds
            } else {
                old(self)@.guilds.push(guild_id)
            },
            final(self)@.actions == old(self)@.actions.push(
                ActionV {
                    action_id: r,
                    limit_type,
                    created_at,
                    user_id,
                    guild_id,
                    action_target,
                    limits_hit: Seq::empty(),
                },
            ),
            final(self)@.next_id == old(self)@.next_id + 1,
            final(self)@.limits == old(self)@.limits,
            final(self)@.hit_limits == old(self)@.hit_limits,
            final(self)@.guild_admins == old(self)@.guild_admins,
            final(self)@.guild_access == old(self)@.guild_access,
    {
        if !self.has_guild(guild_id) {
            self.guilds.push(guild_id);
            proof {
                lemma_guild_push_wf(old(self)@, guild_id);
            }
        }
        let id = self.next_id;
        let a = Action {
            action_id: id,
            limit_type,
            created_at,
            user_id,
            guild_id,
            action_target,
            limits_hit: Vec::new(),
        };
        self.actions.push(a);
        self.next_id = self.next_id + 1;
        proof {
            let pre = if old(self)@.guilds.contains(guild_id) {
                old(self)@
            } else {
                StoreV { guilds: old(self)@.guilds.push(guild_id), ..old(self)@ }
            };
            if !old(self)@.guilds.contains(guild_id) {
                assert(pre.guilds[pre.guilds.len() - 1] == guild_id);
                assert(pre.guilds.contains(guild_id));
            }
            assert(final(self)@.actions =~= pre.actions.push(
                ActionV {
                    action_id: id,
                    limit_type,
                    created_at,
                    user_id,
                    guild_id,
                    action_target,
                    limits_hit: Seq::empty(),
                },
            ));
            lemma_append_wf(pre, guild_id, user_id, limit_type, action_target, created_at);
        }
        id
    }

    /// Marks every named action as consumed by `limit_id`.  Idempotent:
    /// re-marking an already consumed pair changes nothing.
    #[verifier::loop_isolation(false)]
    pub fn mark_consumed(&mut self, action_ids: &Vec<u64>, limit_id: u64)
        requires
            old(self)@.wf(),
        ensures
            final(self)@.wf(),
            final(self)@.actions == mark_all(old(self)@.actions, action_ids@, limit_id),
            final(self)@.guilds == old(self)@.guilds,
            final(self)@.limits == old(self)@.limits,
            final(self)@.hit_limits == old(self)@.hit_limits,
            final(self)@.guild_admins == old(self)@.guild_admins,
            final(self)@.guild_access == old(self)@.guild_access,
            final(self)@.next_id == old(self)@.next_id,
    {
        let mut marked: Vec<Action> = Vec::new();
        let mut i: usize = 0;
        while i < self.actions.len()
            invariant
                i <= self.actions.len(),
                self == old(self),
                marked.deep_view() == mark_all(
                    self.actions.deep_view().take(i as int),
                    action_ids@,
                    limit_id,
                ),
            decreases self.actions.len() - i,
        {
            let a = &self.actions[i];
            let mut c = a.clone();
            if contains_id(action_ids, c.action_id) && !contains_id(&c.limits_hit, limit_id) {
                c.limits_hit.push(limit_id);
            }
            proof {
                let dv = self.actions.deep_view();
                assert(dv[i as int] == self.actions@[i as int]@);
                assert(c@ == mark_action(dv[i as int], action_ids@, limit_id));
                assert(dv.take(i + 1 as int).drop_last() =~= dv.take(i as int));
                assert(dv.take(i + 1 as int).last() == dv[i as int]);
            }
            marked.push(c);
            i = i + 1;
        }
        self.actions = marked;
        proof {
            assert(old(self)@.actions.take(old(self)@.actions.len() as int) =~= old(self)@.actions);
            lemma_mark_all_wf(old(self)@, action_ids@, limit_id);
        }
    }

    /// Registers a guild; reports the guilds that are already set up.
    pub fn setup(&mut self, guild_id: u64) -> (r: Result<(), Error>)
        requires
            old(self)@.wf(),
        ensures
            final(self)@.wf(),
            (r == Err::<(), Error>(Error::AlreadyExists)) == old(self)@.guilds.contains(guild_id),
            (r is Ok) == !old(self)@.guilds.contains(guild_id),
            r is Err ==> final(self)@ == old(self)@,
            r is Ok ==> final(self)@ == (StoreV {
                guilds: old(self)@.guilds.push(guild_id),
                ..old(self)@
            }),
    {
        if self.has_guild(guild_id) {
            return Err(Error::AlreadyExists);
        }
        self.guilds.push(guild_id);
        proof {
            lemma_guild_push_wf(old(self)@, guild_id);
        }
        Ok(())
    }

    /// Creates a limit for `guild_id` and returns its fresh id.  A zero
    /// threshold, an empty window, or a window beyond the microsecond range
    /// is rejected as invalid; an unregistered guild is not found.
    pub fn limits_add(
        &mut self,
        guild_id: u64,
        limit_name: String,
        limit_type: UserLimitTypes,
        limit_per: u32,
        limit_time: i64,
        limit_time_unit: Unit,
        limit_action: UserLimitActions,
    ) -> (r: Result<u64, Error>)
        requires
            old(self)@.wf(),
            old(self)@.next_id < u64::MAX,
        ensures
            final(self)@.wf(),
            (r == Err::<u64, Error>(Error::Validation)) == limits_add_rejected(
                limit_per,
                limit_time,
                limit_time_unit,
            ),
            (r == Err::<u64, Error>(Error::NotFound)) == (!limits_add_rejected(
                limit_per,
                limit_time,
                limit_time_unit,
            ) && !old(self)@.guilds.contains(guild_id)),
            (r is Ok) == (!limits_add_rejected(limit_per, limit_time, limit_time_unit) && old(
                self,
            )@.guilds.contains(guild_id)),
            r is Err ==> final(self)@ == old(self)@,
            r is Ok ==> r == Ok::<u64, Error>((old(self)@.next_id) as u64),
            r is Ok ==> final(self)@ == (StoreV {
                limits: old(self)@.limits.push(
                    LimitV {
                        guild_id,
                        limit_id: (old(self)@.next_id) as u64,
                        limit_name: limit_name@,
                        limit_type,
                        limit_action,
                        limit_per,
                        limit_time: window_micros(limit_time, limit_time_unit) as u64,
                    },
                ),
                next_id: old(self)@.next_id + 1,
                ..old(self)@
            }),
    {
        if limit_per == 0 || limit_time <= 0 {
            return Err(Error::Validation);
        }
        let unit_secs = limit_time_unit.to_seconds();
        proof {
            assert(1 <= unit_secs <= 86400);
        }
        let mpu: u64 = (unit_secs as u64) * 1_000_000;
        let lt: u64 = limit_time as u64;
        proof {
            assert(lt as int * (unit_secs as int * 1000000) == (lt as int * unit_secs as int)
                * 1000000) by (nonlinear_arith);
            assert(window_micros(limit_time, limit_time_unit) == lt * mpu);
        }
        let window = match lt.checked_mul(mpu) {
            Some(w) => w,
            None => {
                return Err(Error::Validation);
            },
        };
        if !self.has_guild(guild_id) {
            return Err(Error::NotFound);
        }
        proof {
            assert(window >= 1) by (nonlinear_arith)
                requires
                    window == lt * mpu,
                    lt >= 1,
                    mpu >= 1,
            ;
        }
        let id = self.next_id;
        let l = Limit {
            guild_id,
            limit_id: id,
            limit_name,
            limit_type,
            limit_action,
            limit_per,
            limit_time: window,
        };
        let ghost lv = l@;
        self.limits.push(l);
        self.next_id = self.next_id + 1;
        proof {
            assert(final(self)@.limits =~= old(self)@.limits.push(lv));
            lemma_limit_push_wf(old(self)@, lv);
        }
        Ok(id)
    }

    /// Deletes guild `guild_id`'s limit `limit_id`.  The limit's historical
    /// hits and consumption marks are untouched: violations are immutable.
    #[verifier::loop_isolation(false)]
    pub fn limits_remove(&mut self, guild_id: u64, limit_id: u64) -> (r: Result<(), Error>)
        requires
            old(self)@.wf(),
        ensures
            final(self)@.wf(),
            (r == Err::<(), Error>(Error::NotFound)) == !has_limit(
                old(self)@.limits,
                guild_id,
                limit_id,
            ),
            (r is Ok) == has_limit(old(self)@.limits, guild_id, limit_id),
            r is Err ==> final(self)@ == old(self)@,
            r is Ok ==> final(self)@ == (StoreV {
                limits: without_limit(old(self)@.limits, guild_id, limit_id),
                ..old(self)@
            }),
    {
        if lookup_limit(&self.limits, guild_id, limit_id).is_none() {
            return Err(Error::NotFound);
        }
        let v = &self.limits;
        let mut kept: Vec<Limit> = Vec::new();
        let mut i: usize = 0;
        while i < v.len()
            invariant
                i <= v.len(),
                kept.deep_view() == without_limit(v.deep_view().take(i as int), guild_id, limit_id),
            decreases v.len() - i,
        {
            proof {
                let dv = v.deep_view();
                assert(dv[i as int] == v@[i as int]@);
                assert(dv.take(i + 1 as int).drop_last() =~= dv.take(i as int));
                assert(dv.take(i + 1 as int).last() == dv[i as int]);
            }
            if !(v[i].guild_id == guild_id && v[i].limit_id == limit_id) {
                kept.push(v[i].clone());
            }
            i = i + 1;
        }
        proof {
            assert(self.limits.deep_view().take(self.limits.len() as int)
                =~= self.limits.deep_view());
        }
        self.limits = kept;
        proof {
            lemma_without_limit_wf(old(self)@, guild_id, limit_id);
        }
        Ok(())
    }

    /// Deletes a guild and cascades: its limits, actions, hits, and access
    /// rolls all go with it.
    pub fn delete_guild(&mut self, guild_id: u64) -> (r: Result<(), Error>)
        requires
            old(self)@.wf(),
        ensures
            final(self)@.wf(),
            (r == Err::<(), Error>(Error::NotFound)) == !old(self)@.guilds.contains(guild_id),
            (r is Ok) == old(self)@.guilds.contains(guild_id),
            r is Err ==> final(self)@ == old(self)@,
            r is Ok ==> final(self)@ == delete_guild_model(old(self)@, guild_id),
    {
        if !self.has_guild(guild_id) {
            return Err(Error::NotFound);
        }
        self.guilds = keep_other_guilds(&self.guilds, guild_id);
        self.limits = keep_other_limits(&self.limits, guild_id);
        self.actions = keep_other_actions(&self.actions, guild_id);
        self.hit_limits = keep_other_hits(&self.hit_limits, guild_id);
        self.guild_admins = keep_other_admins(&self.guild_admins, guild_id);
        self.guild_access = keep_other_access(&self.guild_access, guild_id);
        proof {
            assert(final(self)@ =~= delete_guild_model(old(self)@, guild_id));
            lemma_delete_guild_wf(old(self)@, guild_id);
        }
        Ok(())
    }

    /// Makes `user_id` an admin of the guild.  Only the guild owner may add
    /// admins, and a user cannot be added twice.
    pub fn add_admin(
        &mut self,
        guild_id: u64,
        author_id: u64,
        guild_owner_id: u64,
        user_id: u64,
    ) -> (r: Result<(), Error>)
        requires
            old(self)@.wf(),
        ensures
            final(self)@.wf(),
            (r == Err::<(), Error>(Error::Auth)) == (author_id != guild_owner_id),
            (r == Err::<(), Error>(Error::AlreadyExists)) == (author_id == guild_owner_id && old(
                self,
            )@.guild_admins.contains((guild_id, user_id))),
            r is Err ==> final(self)@ == old(self)@,
            r is Ok ==> final(self)@ == (StoreV {
                guild_admins: old(self)@.guild_admins.push((guild_id, user_id)),
                ..old(self)@
            }),
    {
        if author_id != guild_owner_id {
            return Err(Error::Auth);
        }
        if contains_pair(&self.guild_admins, guild_id, user_id) {
            return Err(Error::AlreadyExists);
        }
        self.guild_admins.push((guild_id, user_id));
        Ok(())
    }

    /// Removes `user_id` from the guild's admins.  Only the guild owner may
    /// remove admins, and the user must currently be one.
    #[verifier::loop_isolation(false)]
    pub fn remove_admin(
        &mut self,
        guild_id: u64,
        author_id: u64,
        guild_owner_id: u64,
        user_id: u64,
    ) -> (r: Result<(), Error>)
        requires
            old(self)@.wf(),
        ensures
            final(self)@.wf(),
            (r == Err::<(), Error>(Error::Auth)) == (author_id != guild_owner_id),
            (r == Err::<(), Error>(Error::NotFound)) == (author_id == guild_owner_id && !old(
                self,
            )@.guild_admins.contains((guild_id, user_id))),
            (r is Ok) == (author_id == guild_owner_id && old(self)@.guild_admins.contains(
                (guild_id, user_id),
            )),
            r is Err ==> final(self)@ == old(self)@,
            r is Ok ==> final(self)@ == (StoreV {
                guild_admins: without_admin(old(self)@.guild_admins, guild_id, user_id),
                ..old(self)@
            }),
    {
        if author_id != guild_owner_id {
            return Err(Error::Auth);
        }
        if !contains_pair(&self.guild_admins, guild_id, user_id) {
            return Err(Error::NotFound);
        }
        let v = &self.guild_admins;
        let mut kept: Vec<(u64, u64)> = Vec::new();
        let mut i: usize = 0;
        while i < v.len()
            invariant
                i <= v.len(),
                kept@ == without_admin(v@.take(i as int), guild_id, user_id),
            decreases v.len() - i,
        {
            proof {
                assert(v@.take(i + 1 as int).drop_last() =~= v@.take(i as int));
                assert(v@.take(i + 1 as int).last() == v@[i as int]);
            }
            if !(v[i].0 == guild_id && v[i].1 == user_id) {
                let e = v[i];
                kept.push(e);
            }
            i = i + 1;
        }
        proof {
            assert(self.guild_admins@.take(self.guild_admins.len() as int) =~= self.guild_admins@);
        }
        self.guild_admins = kept;
        Ok(())
    }
}

/// Copies the guild ids other than `g`.
#[verifier::loop_isolation(false)]
fn keep_other_guilds(v: &Vec<u64>, g: u64) -> (r: Vec<u64>)
    ensures
        r@ == guilds_without(v@, g),
{
    let mut r: Vec<u64> = Vec::new();
    let mut i: usize = 0;
    while i < v.len()
        invariant
            i <= v.len(),
            r@ == guilds_without(v@.take(i as int), g),
        decreases v.len() - i,
    {
        proof {
            assert(v@.take(i + 1 as int).drop_last() =~= v@.take(i as int));
            assert(v@.take(i + 1 as int).last() == v@[i as int]);
        }
        if v[i] != g {
            r.push(v[i]);
        }
        i = i + 1;
    }
    proof {
        assert(v@.take(v.len() as int) =~= v@);
    }
    r
}

/// Copies the limits of guilds other than `g`.
#[verifier::loop_isolation(false)]
fn keep_other_limits(v: &Vec<Limit>, g: u64) -> (r: Vec<Limit>)
    ensures
        r.deep_view() == limits_without(v.deep_view(), g),
{
    let mut r: Vec<Limit> = Vec::new();
    let mut i: usize = 0;
    while i < v.len()
        invariant
            i <= v.len(),
            r.deep_view() == limits_without(v.deep_view().take(i as int), g),
        decreases v.len() - i,
    {
        proof {
            let dv = v.deep_view();
            assert(dv[i as int] == v@[i as int]@);
            assert(dv.take(i + 1 as int).drop_last() =~= dv.take(i as int));
            assert(dv.take(i + 1 as int).last() == dv[i as int]);
        }
        if v[i].guild_id != g {
            r.push(v[i].clone());
        }
        i = i + 1;
    }
    proof {
        assert(v.deep_view().take(v.len() as int) =~= v.deep_view());
    }
    r
}

/// Copies the actions of guilds other than `g`.
#[verifier::loop_isolation(false)]
fn keep_other_actions(v: &Vec<Action>, g: u64) -> (r: Vec<Action>)
    ensures
        r.deep_view() == actions_without(v.deep_view(), g),
{
    let mut r: Vec<Action> = Vec::new();
    let mut i: usize = 0;
    while i < v.len()
        invariant
            i <= v.len(),
            r.deep_view() == actions_without(v.deep_view().take(i as int), g),
        decreases v.len() - i,
    {
        proof {
            let dv = v.deep_view();
            assert(dv[i as int] == v@[i as int]@);
            assert(dv.take(i + 1 as int).drop_last() =~= dv.take(i as int));
            assert(dv.take(i + 1 as int).last() == dv[i as int]);
        }
        if v[i].guild_id != g {
            r.push(v[i].clone());
        }
        i = i + 1;
    }
    proof {
        assert(v.deep_view().take(v.len() as int) =~= v.deep_view());
    }
    r
}

/// Copies the hit records of guilds other than `g`.
#[verifier::loop_isolation(false)]
fn keep_other_hits(v: &Vec<PastHitLimit>, g: u64) -> (r: Vec<PastHitLimit>)
    ensures
        r.deep_view() == hits_without(v.deep_view(), g),
{
    let mut r: Vec<PastHitLimit> = Vec::new();
    let mut i: usize = 0;
    while i < v.len()
        invariant
            i <= v.len(),
            r.deep_view() == hits_without(v.deep_view().take(i as int), g),
        decreases v.len() - i,
    {
        proof {
            let dv = v.deep_view();
            assert(dv[i as int] == v@[i as int]@);
            assert(dv.take(i + 1 as int).drop_last() =~= dv.take(i as int));
            assert(dv.take(i + 1 as int).last() == dv[i as int]);
        }
        if v[i].guild_id != g {
            r.push(v[i].clone());
        }
        i = i + 1;
    }
    proof {
        assert(v.deep_view().take(v.len() as int) =~= v.deep_view());
    }
    r
}

/// Copies the admin entries of guilds other than `g`.
#[verifier::loop_isolation(false)]
fn keep_other_admins(v: &Vec<(u64, u64)>, g: u64) -> (r: Vec<(u64, u64)>)
    ensures
        r@ == admins_without(v@, g),
{
    let mut r: Vec<(u64, u64)> = Vec::new();
    let mut i: usize = 0;
    while i < v.len()
        invariant
            i <= v.len(),
            r@ == admins_without(v@.take(i as int), g),
        decreases v.len() - i,
    {
        proof {
            assert(v@.take(i + 1 as int).drop_last() =~= v@.take(i as int));
            assert(v@.take(i + 1 as int).last() == v@[i as int]);
        }
        if v[i].0 != g {
            let e = v[i];
            r.push(e);
        }
        i = i + 1;
    }
    proof {
        assert(v@.take(v.len() as int) =~= v@);
    }
    r
}

/// Copies the access entries of guilds other than `g`.
#[verifier::loop_isolation(false)]
fn keep_other_access(v: &Vec<AccessRow>, g: u64) -> (r: Vec<AccessRow>)
    ensures
        r@ == access_without(v@, g),
{
    let mut r: Vec<AccessRow> = Vec::new();
    let mut i: usize = 0;
    while i < v.len()
        invariant
            i <= v.len(),
            r@ == access_without(v@.take(i as int), g),
        decreases v.len() - i,
    {
        proof {
            assert(v@.take(i + 1 as int).drop_last() =~= v@.take(i as int));
            assert(v@.take(i + 1 as int).last() == v@[i as int]);
        }
        if v[i].guild_id != g {
            let e = v[i];
            r.push(e);
        }
        i = i + 1;
    }
    proof {
        assert(v@.take(v.len() as int) =~= v@);
    }
    r
}

impl Limit {
    /// All limits configured for `guild_id`, in creation order.
    #[verifier::loop_isolation(false)]
    pub fn from_guild(store: &Store, guild_id: u64) -> (r: Vec<Limit>)
        ensures
            r.deep_view() == guild_limits(store@.limits, guild_id),
    {
        let v = &store.limits;
        let mut r: Vec<Limit> = Vec::new();
        let mut i: usize = 0;
        while i < v.len()
            invariant
                i <= v.len(),
                r.deep_view() == guild_limits(v.deep_view().take(i as int), guild_id),
            decreases v.len() - i,
        {
            proof {
                let dv = v.deep_view();
                assert(dv[i as int] == v@[i as int]@);
                assert(dv.take(i + 1 as int).drop_last() =~= dv.take(i as int));
                assert(dv.take(i + 1 as int).last() == dv[i as int]);
            }
            if v[i].guild_id == guild_id {
                r.push(v[i].clone());
            }
            i = i + 1;
        }
        proof {
            assert(v.deep_view().take(v.len() as int) =~= v.deep_view());
        }
        r
    }
}

impl Action {
    /// The full action history of `guild_id`, in ledger order.
    #[verifier::loop_isolation(false)]
    pub fn from_guild(store: &Store, guild_id: u64) -> (r: Vec<Action>)
        ensures
            r.deep_view() == guild_actions(store@.actions, guild_id),
    {
        let v = &store.actions;
        let mut r: Vec<Action> = Vec::new();
        let mut i: usize = 0;
        while i < v.len()
            invariant
                i <= v.len(),
                r.deep_view() == guild_actions(v.deep_view().take(i as int), guild_id),
            decreases v.len() - i,
        {
            proof {
                let dv = v.deep_view();
                assert(dv[i as int] == v@[i as int]@);
                assert(dv.take(i + 1 as int).drop_last() =~= dv.take(i as int));
                assert(dv.take(i + 1 as int).last() == dv[i as int]);
            }
            if v[i].guild_id == guild_id {
                r.push(v[i].clone());
            }
            i = i + 1;
        }
        proof {
            assert(v.deep_view().take(v.len() as int) =~= v.deep_view());
        }
        r
    }

    /// The action history of one actor in `guild_id`, in ledger order.
    #[verifier::loop_isolation(false)]
    pub fn user(store: &Store, guild_id: u64, user_id: u64) -> (r: Vec<Action>)
        ensures
            r.deep_view() == user_actions(store@.actions, guild_id, user_id),
    {
        let v = &store.actions;
        let mut r: Vec<Action> = Vec::new();
        let mut i: usize = 0;
        while i < v.len()
            invariant
                i <= v.len(),
                r.deep_view() == user_actions(v.deep_view().take(i as int), guild_id, user_id),
            decreases v.len() - i,
        {
            proof {
                let dv = v.deep_view();
                assert(dv[i as int] == v@[i as int]@);
                assert(dv.take(i + 1 as int).drop_last() =~= dv.take(i as int));
                assert(dv.take(i + 1 as int).last() == dv[i as int]);
            }
            if v[i].guild_id == guild_id && v[i].user_id == user_id {
                r.push(v[i].clone());
            }
            i = i + 1;
        }
        proof {
            assert(v.deep_view().take(v.len() as int) =~= v.deep_view());
        }
        r
    }
}

impl PastHitLimit {
    /// The recorded hits of `guild_id`, in recording order.
    #[verifier::loop_isolation(false)]
    pub fn from_guild(store: &Store, guild_id: u64) -> (r: Vec<PastHitLimit>)
        ensures
            r.deep_view() == guild_hits(store@.hit_limits, guild_id),
    {
        let v = &store.hit_limits;
        let mut r: Vec<PastHitLimit> = Vec::new();
        let mut i: usize = 0;
        while i < v.len()
            invariant
                i <= v.len(),
                r.deep_view() == guild_hits(v.deep_view().take(i as int), guild_id),
            decreases v.len() - i,
        {
            proof {
                let dv = v.deep_view();
                assert(dv[i as int] == v@[i as int]@);
                assert(dv.take(i + 1 as int).drop_last() =~= dv.take(i as int));
                assert(dv.take(i + 1 as int).last() == dv[i as int]);
            }
            if v[i].guild_id == guild_id {
                r.push(v[i].clone());
            }
            i = i + 1;
        }
        proof {
            assert(v.deep_view().take(v.len() as int) =~= v.deep_view());
        }
        r
    }
}

/// Registering a fresh guild preserves well-formedness.
pub(crate) proof fn lemma_guild_push_wf(s: StoreV, g: u64)
    requires
        s.wf(),
        !s.guilds.contains(g),
    ensures
        (StoreV { guilds: s.guilds.push(g), ..s }).wf(),
{
    let t = StoreV { guilds: s.guilds.push(g), ..s };
    assert forall|i: int, j: int| 0 <= i < j < t.guilds.len() implies (|g2: u64| g2)(
        #[trigger] t.guilds[i],
    ) != (|g2: u64| g2)(#[trigger] t.guilds[j]) by {
        if j < s.guilds.len() {
            assert(t.guilds[i] == s.guilds[i]);
            assert(t.guilds[j] == s.guilds[j]);
        } else {
            assert(t.guilds[j] == g);
            assert(s.guilds.contains(s.guilds[i]));
        }
    }
    assert forall|x: u64| s.guilds.contains(x) implies t.guilds.contains(x) by {
        let k = choose|k: int| 0 <= k < s.guilds.len() && s.guilds[k] == x;
        assert(t.guilds[k] == x);
    }
    assert forall|i: int| 0 <= i < t.limits.len() implies t.limit_ok(#[trigger] t.limits[i]) by {
        assert(s.limit_ok(s.limits[i]));
    }
    assert forall|i: int| 0 <= i < t.actions.len() implies t.action_ok(#[trigger] t.actions[i]) by {
        assert(s.action_ok(s.actions[i]));
    }
    assert forall|i: int| 0 <= i < t.hit_limits.len() implies t.hit_ok(
        #[trigger] t.hit_limits[i],
    ) by {
        assert(s.hit_ok(s.hit_limits[i]));
        assert forall|m: int| 0 <= m < t.hit_limits[i].cause.len() implies t.cause_recorded(
            t.hit_limits[i],
            #[trigger] t.hit_limits[i].cause[m],
        ) by {
            assert(s.cause_recorded(s.hit_limits[i], s.hit_limits[i].cause[m]));
        }
    }
}

/// Appending a fresh action preserves well-formedness.
pub(crate) proof fn lemma_append_wf(
    s: StoreV,
    guild_id: u64,
    user_id: u64,
    limit_type: UserLimitTypes,
    action_target: u64,
    created_at: u64,
)
    requires
        s.wf(),
        s.guilds.contains(guild_id),
        s.next_id < u64::MAX,
    ensures
        (StoreV {
            actions: s.actions.push(
                ActionV {
                    action_id: (s.next_id) as u64,
                    limit_type,
                    created_at,
                    user_id,
                    guild_id,
                    action_target,
                    limits_hit: Seq::empty(),
                },
            ),
            next_id: s.next_id + 1,
            ..s
        }).wf(),
{
    let a = ActionV {
        action_id: (s.next_id) as u64,
        limit_type,
        created_at,
        user_id,
        guild_id,
        action_target,
        limits_hit: Seq::empty(),
    };
    let t = StoreV { actions: s.actions.push(a), next_id: s.next_id + 1, ..s };
    assert forall|i: int, j: int| 0 <= i < j < t.actions.len() implies (|x: ActionV| x.action_id)(
        #[trigger] t.actions[i],
    ) != (|x: ActionV| x.action_id)(#[trigger] t.actions[j]) by {
        if j < s.actions.len() {
            assert(t.actions[i] == s.actions[i]);
            assert(t.actions[j] == s.actions[j]);
        } else {
            assert(t.actions[j] == a);
            assert(s.action_ok(s.actions[i]));
            assert(t.actions[i] == s.actions[i]);
        }
    }
    assert forall|i: int| 0 <= i < t.limits.len() implies t.limit_ok(#[trigger] t.limits[i]) by {
        assert(s.limit_ok(s.limits[i]));
    }
    assert forall|i: int| 0 <= i < t.actions.len() implies t.action_ok(#[trigger] t.actions[i]) by {
        if i < s.actions.len() {
            assert(s.action_ok(s.actions[i]));
            assert(t.actions[i] == s.actions[i]);
        } else {
            assert(t.actions[i] == a);
        }
    }
    assert forall|i: int| 0 <= i < t.hit_limits.len() implies t.hit_ok(
        #[trigger] t.hit_limits[i],
    ) by {
        assert(s.hit_ok(s.hit_limits[i]));
        assert forall|m: int| 0 <= m < t.hit_limits[i].cause.len() implies t.cause_recorded(
            t.hit_limits[i],
            #[trigger] t.hit_limits[i].cause[m],
        ) by {
            assert(s.cause_recorded(s.hit_limits[i], s.hit_limits[i].cause[m]));
            let k = choose|k: int|
                0 <= k < s.actions.len() && (#[trigger] s.actions[k]).action_id
                    == s.hit_limits[i].cause[m] && s.actions[k].guild_id
                    == s.hit_limits[i].guild_id && s.actions[k].limits_hit.contains(
                    s.hit_limits[i].limit_id,
                );
            assert(t.actions[k] == s.actions[k]);
        }
    }
}

/// Marking consumption preserves well-formedness: ids, guilds and kinds are
/// untouched, and a mark is appended only where it is absent.
pub(crate) proof fn lemma_mark_all_wf(s: StoreV, ids: Seq<u64>, lid: u64)
    requires
        s.wf(),
    ensures
        (StoreV { actions: mark_all(s.actions, ids, lid), ..s }).wf(),
{
    let t = StoreV { actions: mark_all(s.actions, ids, lid), ..s };
    lemma_mark_all_index(s.actions, ids, lid);
    assert forall|i: int, j: int| 0 <= i < j < t.actions.len() implies (|x: ActionV| x.action_id)(
        #[trigger] t.actions[i],
    ) != (|x: ActionV| x.action_id)(#[trigger] t.actions[j]) by {
        assert(t.actions[i] == mark_action(s.actions[i], ids, lid));
        assert(t.actions[j] == mark_action(s.actions[j], ids, lid));
        assert((|x: ActionV| x.action_id)(s.actions[i]) != (|x: ActionV| x.action_id)(
            s.actions[j],
        ));
    }
    assert forall|i: int| 0 <= i < t.actions.len() implies t.action_ok(#[trigger] t.actions[i]) by {
        assert(s.action_ok(s.actions[i]));
        assert(t.actions[i] == mark_action(s.actions[i], ids, lid));
        let b = s.actions[i].limits_hit;
        if ids.contains(s.actions[i].action_id) && !b.contains(lid) {
            assert forall|m: int, n: int| 0 <= m < n < b.push(lid).len() implies b.push(lid)[m]
                != b.push(lid)[n] by {
                if n < b.len() {
                } else {
                    assert(b.push(lid)[n] == lid);
                    assert(b.contains(b[m]));
                }
            }
        }
    }
    assert forall|i: int| 0 <= i < t.hit_limits.len() implies t.hit_ok(
        #[trigger] t.hit_limits[i],
    ) by {
        assert(s.hit_ok(s.hit_limits[i]));
        assert forall|m: int| 0 <= m < t.hit_limits[i].cause.len() implies t.cause_recorded(
            t.hit_limits[i],
            #[trigger] t.hit_limits[i].cause[m],
        ) by {
            let h = s.hit_limits[i];
            assert(s.cause_recorded(h, h.cause[m]));
            let k = choose|k: int|
                0 <= k < s.actions.len() && (#[trigger] s.actions[k]).action_id == h.cause[m]
                    && s.actions[k].guild_id == h.guild_id && s.actions[k].limits_hit.contains(
                    h.limit_id,
                );
            assert(t.actions[k] == mark_action(s.actions[k], ids, lid));
            let b = s.actions[k].limits_hit;
            if ids.contains(s.actions[k].action_id) && !b.contains(lid) {
                let n = choose|n: int| 0 <= n < b.len() && b[n] == h.limit_id;
                assert(b.push(lid)[n] == h.limit_id);
                assert(b.push(lid).contains(h.limit_id));
            }
            assert(t.actions[k].limits_hit.contains(h.limit_id));
        }
    }
    assert forall|i: int| 0 <= i < t.limits.len() implies t.limit_ok(#[trigger] t.limits[i]) by {
        assert(s.limit_ok(s.limits[i]));
    }
}

/// Creating a validated limit with the next fresh id preserves
/// well-formedness.
pub(crate) proof fn lemma_limit_push_wf(s: StoreV, l: LimitV)
    requires
        s.wf(),
        s.guilds.contains(l.guild_id),
        1 <= l.limit_per,
        1 <= l.limit_time,
        l.limit_id == s.next_id,
        s.next_id < u64::MAX,
    ensures
        (StoreV { limits: s.limits.push(l), next_id: s.next_id + 1, ..s }).wf(),
{
    let t = StoreV { limits: s.limits.push(l), next_id: s.next_id + 1, ..s };
    assert forall|i: int, j: int| 0 <= i < j < t.limits.len() implies (|x: LimitV| x.limit_id)(
        #[trigger] t.limits[i],
    ) != (|x: LimitV| x.limit_id)(#[trigger] t.limits[j]) by {
        if j < s.limits.len() {
            assert(t.limits[i] == s.limits[i]);
            assert(t.limits[j] == s.limits[j]);
        } else {
            assert(t.limits[j] == l);
            assert(s.limit_ok(s.limits[i]));
            assert(t.limits[i] == s.limits[i]);
        }
    }
    assert forall|i: int| 0 <= i < t.limits.len() implies t.limit_ok(#[trigger] t.limits[i]) by {
        if i < s.limits.len() {
            assert(s.limit_ok(s.limits[i]));
            assert(t.limits[i] == s.limits[i]);
        } else {
            assert(t.limits[i] == l);
        }
    }
    assert forall|i: int| 0 <= i < t.actions.len() implies t.action_ok(#[trigger] t.actions[i]) by {
        assert(s.action_ok(s.actions[i]));
    }
    assert forall|i: int| 0 <= i < t.hit_limits.len() implies t.hit_ok(
        #[trigger] t.hit_limits[i],
    ) by {
        assert(s.hit_ok(s.hit_limits[i]));
        assert forall|m: int| 0 <= m < t.hit_limits[i].cause.len() implies t.cause_recorded(
            t.hit_limits[i],
            #[trigger] t.hit_limits[i].cause[m],
        ) by {
            assert(s.cause_recorded(s.hit_limits[i], s.hit_limits[i].cause[m]));
        }
    }
}

/// Removing one limit from the registry preserves well-formedness.
pub(crate) proof fn lemma_without_limit_wf(s: StoreV, g: u64, lid: u64)
    requires
        s.wf(),
    ensures
        (StoreV { limits: without_limit(s.limits, g, lid), ..s }).wf(),
{
    let p = |l: LimitV| !(l.guild_id == g && l.limit_id == lid);
    lemma_without_limit_is_keep(s.limits, g, lid, p);
    let t = StoreV { limits: without_limit(s.limits, g, lid), ..s };
    lemma_keep_distinct_by(s.limits, p, |x: LimitV| x.limit_id);
    lemma_keep_membership(s.limits, p);
    assert forall|i: int| 0 <= i < t.limits.len() implies t.limit_ok(#[trigger] t.limits[i]) by {
        assert(s.limits.contains(t.limits[i]));
        let k = choose|k: int| 0 <= k < s.limits.len() && s.limits[k] == t.limits[i];
        assert(s.limit_ok(s.limits[k]));
    }
    assert forall|i: int| 0 <= i < t.actions.len() implies t.action_ok(#[trigger] t.actions[i]) by {
        assert(s.action_ok(s.actions[i]));
    }
    assert forall|i: int| 0 <= i < t.hit_limits.len() implies t.hit_ok(
        #[trigger] t.hit_limits[i],
    ) by {
        assert(s.hit_ok(s.hit_limits[i]));
        assert forall|m: int| 0 <= m < t.hit_limits[i].cause.len() implies t.cause_recorded(
            t.hit_limits[i],
            #[trigger] t.hit_limits[i].cause[m],
        ) by {
            assert(s.cause_recorded(s.hit_limits[i], s.hit_limits[i].cause[m]));
        }
    }
}

/// The cascading deletion of a guild preserves well-formedness.
pub(crate) proof fn lemma_delete_guild_wf(s: StoreV, g: u64)
    requires
        s.wf(),
    ensures
        delete_guild_model(s, g).wf(),
{
    let t = delete_guild_model(s, g);
    let pg = |x: u64| x != g;
    let pl = |l: LimitV| l.guild_id != g;
    let pa = |a: ActionV| a.guild_id != g;
    let ph = |h: PastHitLimitV| h.guild_id != g;
    lemma_guilds_without_is_keep(s.guilds, g, pg);
    lemma_limits_without_is_keep(s.limits, g, pl);
    lemma_actions_without_is_keep(s.actions, g, pa);
    lemma_hits_without_is_keep(s.hit_limits, g, ph);
    lemma_keep_distinct_by(s.guilds, pg, |x: u64| x);
    lemma_keep_distinct_by(s.limits, pl, |x: LimitV| x.limit_id);
    lemma_keep_distinct_by(s.actions, pa, |x: ActionV| x.action_id);
    lemma_keep_distinct_by(s.hit_limits, ph, |x: PastHitLimitV| x.id);
    lemma_keep_membership(s.limits, pl);
    lemma_keep_membership(s.actions, pa);
    lemma_keep_membership(s.hit_limits, ph);
    lemma_keep_pred(s.limits, pl);
    lemma_keep_pred(s.actions, pa);
    lemma_keep_pred(s.hit_limits, ph);
    lemma_keep_contains(s.guilds, pg);
    lemma_keep_contains(s.actions, pa);
    assert forall|i: int| 0 <= i < t.limits.len() implies t.limit_ok(#[trigger] t.limits[i]) by {
        let l = t.limits[i];
        assert(s.limits.contains(l));
        let k = choose|k: int| 0 <= k < s.limits.len() && s.limits[k] == l;
        assert(s.limit_ok(s.limits[k]));
        assert(pl(l));
        let m = choose|m: int| 0 <= m < s.guilds.len() && s.guilds[m] == l.guild_id;
        assert(pg(s.guilds[m]));
        assert(t.guilds.contains(l.guild_id));
    }
    assert forall|i: int| 0 <= i < t.actions.len() implies t.action_ok(#[trigger] t.actions[i]) by {
        let a = t.actions[i];
        assert(s.actions.contains(a));
        let k = choose|k: int| 0 <= k < s.actions.len() && s.actions[k] == a;
        assert(s.action_ok(s.actions[k]));
        assert(pa(a));
        let m = choose|m: int| 0 <= m < s.guilds.len() && s.guilds[m] == a.guild_id;
        assert(pg(s.guilds[m]));
        assert(t.guilds.contains(a.guild_id));
    }
    assert forall|i: int| 0 <= i < t.hit_limits.len() implies t.hit_ok(
        #[trigger] t.hit_limits[i],
    ) by {
        let h = t.hit_limits[i];
        assert(s.hit_limits.contains(h));
        let k = choose|k: int| 0 <= k < s.hit_limits.len() && s.hit_limits[k] == h;
        assert(s.hit_ok(s.hit_limits[k]));
        assert(ph(h));
        let m = choose|m: int| 0 <= m < s.guilds.len() && s.guilds[m] == h.guild_id;
        assert(pg(s.guilds[m]));
        assert(t.guilds.contains(h.guild_id));
        assert forall|n: int| 0 <= n < h.cause.len() implies t.cause_recorded(
            h,
            #[trigger] h.cause[n],
        ) by {
            assert(s.cause_recorded(h, h.cause[n]));
            let ka = choose|ka: int|
                0 <= ka < s.actions.len() && (#[trigger] s.actions[ka]).action_id == h.cause[n]
                    && s.actions[ka].guild_id == h.guild_id && s.actions[ka].limits_hit.contains(
                    h.limit_id,
                );
            assert(pa(s.actions[ka]));
            assert(t.actions.contains(s.actions[ka]));
            let kb = choose|kb: int| 0 <= kb < t.actions.len() && t.actions[kb] == s.actions[ka];
            assert((t.actions[kb]).action_id == h.cause[n]);
        }
    }
    assert forall|i: int, j: int|
        0 <= i < j < t.hit_limits.len() && (#[trigger] t.hit_limits[i]).limit_id == (
        #[trigger] t.hit_limits[j]).limit_id implies disjoint_ids(
        t.hit_limits[i].cause,
        t.hit_limits[j].cause,
    ) by {
        let hi = t.hit_limits[i];
        let hj = t.hit_limits[j];
        assert(s.hit_limits.contains(hi));
        assert(s.hit_limits.contains(hj));
        let ki = choose|k: int| 0 <= k < s.hit_limits.len() && s.hit_limits[k] == hi;
        let kj = choose|k: int| 0 <= k < s.hit_limits.len() && s.hit_limits[k] == hj;
        assert(hi.id != hj.id);
        assert(ki != kj);
        if ki < kj {
            assert(disjoint_ids(s.hit_limits[ki].cause, s.hit_limits[kj].cause));
        } else {
            assert(disjoint_ids(s.hit_limits[kj].cause, s.hit_limits[ki].cause));
            assert forall|x: u64| hi.cause.contains(x) implies !hj.cause.contains(x) by {
                if hj.cause.contains(x) {
                    assert(!hi.cause.contains(x));
                }
            }
        }
    }
}


/// `guild_limits` is the generic filter at its predicate.
proof fn lemma_guild_limits_is_keep(limits: Seq<LimitV>, g: u64, p: spec_fn(LimitV) -> bool)
    requires
        forall|l: LimitV| #[trigger] p(l) == (l.guild_id == g),
    ensures
        guild_limits(limits, g) == keep(limits, p),
    decreases limits.len(),
{
    if limits.len() > 0 {
        lemma_guild_limits_is_keep(limits.drop_last(), g, p);
    }
}

/// `guild_actions` is the generic filter at its predicate.
proof fn lemma_guild_actions_is_keep(actions: Seq<ActionV>, g: u64, p: spec_fn(ActionV) -> bool)
    requires
        forall|a: ActionV| #[trigger] p(a) == (a.guild_id == g),
    ensures
        guild_actions(actions, g) == keep(actions, p),
    decreases actions.len(),
{
    if actions.len() > 0 {
        lemma_guild_actions_is_keep(actions.drop_last(), g, p);
    }
}

/// `guild_hits` is the generic filter at its predicate.
proof fn lemma_guild_hits_is_keep(
    hits: Seq<PastHitLimitV>,
    g: u64,
    p: spec_fn(PastHitLimitV) -> bool,
)
    requires
        forall|h: PastHitLimitV| #[trigger] p(h) == (h.guild_id == g),
    ensures
        guild_hits(hits, g) == keep(hits, p),
    decreases hits.len(),
{
    if hits.len() > 0 {
        lemma_guild_hits_is_keep(hits.drop_last(), g, p);
    }
}

/// `admins_without` is the generic filter at its predicate.
proof fn lemma_admins_without_is_keep(
    admins: Seq<(u64, u64)>,
    g: u64,
    p: spec_fn((u64, u64)) -> bool,
)
    requires
        forall|q: (u64, u64)| #[trigger] p(q) == (q.0 != g),
    ensures
        admins_without(admins, g) == keep(admins, p),
    decreases admins.len(),
{
    if admins.len() > 0 {
        lemma_admins_without_is_keep(admins.drop_last(), g, p);
    }
}

/// Cascade: after a guild is deleted, it is no longer registered, and none
/// of its limits, actions, hits or admin entries remain; listing any of them
/// afterward yields nothing.
pub proof fn lemma_cascade(s: StoreV, g: u64)
    ensures
        ({
            let post = delete_guild_model(s, g);
            &&& !post.guilds.contains(g)
            &&& guild_limits(post.limits, g) == Seq::<LimitV>::empty()
            &&& guild_actions(post.actions, g) == Seq::<ActionV>::empty()
            &&& guild_hits(post.hit_limits, g) == Seq::<PastHitLimitV>::empty()
            &&& (forall|u2: u64| !post.guild_admins.contains((g, u2)))
        }),
{
    let post = delete_guild_model(s, g);
    let pg = |x: u64| x != g;
    let pl = |l: LimitV| l.guild_id != g;
    let pa = |a: ActionV| a.guild_id != g;
    let ph = |h: PastHitLimitV| h.guild_id != g;
    let pad = |q: (u64, u64)| q.0 != g;
    let ql = |l: LimitV| l.guild_id == g;
    let qa = |a: ActionV| a.guild_id == g;
    let qh = |h: PastHitLimitV| h.guild_id == g;
    lemma_guilds_without_is_keep(s.guilds, g, pg);
    lemma_limits_without_is_keep(s.limits, g, pl);
    lemma_actions_without_is_keep(s.actions, g, pa);
    lemma_hits_without_is_keep(s.hit_limits, g, ph);
    lemma_admins_without_is_keep(s.guild_admins, g, pad);
    lemma_keep_pred(s.guilds, pg);
    lemma_keep_pred(s.limits, pl);
    lemma_keep_pred(s.actions, pa);
    lemma_keep_pred(s.hit_limits, ph);
    lemma_keep_pred(s.guild_admins, pad);
    if post.guilds.contains(g) {
        let k = choose|k: int| 0 <= k < post.guilds.len() && post.guilds[k] == g;
        assert(pg(post.guilds[k]));
        assert(false);
    }
    lemma_guild_limits_is_keep(post.limits, g, ql);
    assert forall|i: int| 0 <= i < post.limits.len() implies !ql(#[trigger] post.limits[i]) by {
        assert(pl(post.limits[i]));
    }
    crate::seqs::lemma_keep_empty(post.limits, ql);
    lemma_guild_actions_is_keep(post.actions, g, qa);
    assert forall|i: int| 0 <= i < post.actions.len() implies !qa(#[trigger] post.actions[i]) by {
        assert(pa(post.actions[i]));
    }
    crate::seqs::lemma_keep_empty(post.actions, qa);
    lemma_guild_hits_is_keep(post.hit_limits, g, qh);
    assert forall|i: int| 0 <= i < post.hit_limits.len() implies !qh(
        #[trigger] post.hit_limits[i],
    ) by {
        assert(ph(post.hit_limits[i]));
    }
    crate::seqs::lemma_keep_empty(post.hit_limits, qh);
    assert forall|u2: u64| !post.guild_admins.contains((g, u2)) by {
        if post.guild_admins.contains((g, u2)) {
            let k = choose|k: int|
                0 <= k < post.guild_admins.len() && post.guild_admins[k] == (g, u2);
            assert(pad(post.guild_admins[k]));
        }
    }
}

} // verus!
