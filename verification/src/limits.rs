use vstd::prelude::*;
use vstd::string::StringExecFns;

use crate::seqs::keep;

verus! {

/// The user-facing menu of watchable action kinds, as offered by the command
/// surface.  `resolve` maps a menu entry to the internal kind.
#[derive(Clone, Copy, Debug, PartialEq, Eq, Structural)]
pub enum UserLimitTypesChoices {
    RoleAdd,
    RoleUpdate,
    RoleRemove,
    ChannelAdd,
    ChannelUpdate,
    ChannelRemove,
    Kick,
    Ban,
    Unban,
}

/// The kind of moderation action a limit watches.
#[derive(Clone, Copy, Debug, PartialEq, Eq, Structural)]
pub enum UserLimitTypes {
    RoleAdd,
    RoleUpdate,
    RoleRemove,
    ChannelAdd,
    ChannelUpdate,
    ChannelRemove,
    Kick,
    Ban,
    Unban,
}

impl UserLimitTypesChoices {
    pub open spec fn resolve_spec(self) -> UserLimitTypes {
        match self {
            UserLimitTypesChoices::RoleAdd => UserLimitTypes::RoleAdd,
            UserLimitTypesChoices::RoleUpdate => UserLimitTypes::RoleUpdate,
            UserLimitTypesChoices::RoleRemove => UserLimitTypes::RoleRemove,
            UserLimitTypesChoices::ChannelAdd => UserLimitTypes::ChannelAdd,
            UserLimitTypesChoices::ChannelUpdate => UserLimitTypes::ChannelUpdate,
            UserLimitTypesChoices::ChannelRemove => UserLimitTypes::ChannelRemove,
            UserLimitTypesChoices::Kick => UserLimitTypes::Kick,
            UserLimitTypesChoices::Ban => UserLimitTypes::Ban,
            UserLimitTypesChoices::Unban => UserLimitTypes::Unban,
        }
    }

    pub fn resolve(self) -> (r: UserLimitTypes)
        ensures
            r == self.resolve_spec(),
    {
        match self {
            UserLimitTypesChoices::RoleAdd => UserLimitTypes::RoleAdd,
            UserLimitTypesChoices::RoleUpdate => UserLimitTypes::RoleUpdate,
            UserLimitTypesChoices::RoleRemove => UserLimitTypes::RoleRemove,
            UserLimitTypesChoices::ChannelAdd => UserLimitTypes::ChannelAdd,
            UserLimitTypesChoices::ChannelUpdate => UserLimitTypes::ChannelUpdate,
            UserLimitTypesChoices::ChannelRemove => UserLimitTypes::ChannelRemove,
            UserLimitTypesChoices::Kick => UserLimitTypes::Kick,
            UserLimitTypesChoices::Ban => UserLimitTypes::Ban,
            UserLimitTypesChoices::Unban => UserLimitTypes::Unban,
        }
    }
}

impl UserLimitTypes {
    pub open spec fn cond_spec(self) -> Seq<char> {
        match self {
            UserLimitTypes::RoleAdd => "Roles Created"@,
            UserLimitTypes::RoleUpdate => "Roles Updated"@,
            UserLimitTypes::RoleRemove => "Role Removed"@,
            UserLimitTypes::ChannelAdd => "Channels Created"@,
            UserLimitTypes::ChannelUpdate => "Channels Updated"@,
            UserLimitTypes::ChannelRemove => "Channels Removed"@,
            UserLimitTypes::Kick => "Kicks"@,
            UserLimitTypes::Ban => "Bans"@,
            UserLimitTypes::Unban => "Unbans"@,
        }
    }

    /// The human label used when a limit is displayed.
    pub fn to_cond(&self) -> (r: String)
        ensures
            r@ == self.cond_spec(),
    {
        match self {
            UserLimitTypes::RoleAdd => String::from_str("Roles Created"),
            UserLimitTypes::RoleUpdate => String::from_str("Roles Updated"),
            UserLimitTypes::RoleRemove => String::from_str("Role Removed"),
            UserLimitTypes::ChannelAdd => String::from_str("Channels Created"),
            UserLimitTypes::ChannelUpdate => String::from_str("Channels Updated"),
            UserLimitTypes::ChannelRemove => String::from_str("Channels Removed"),
            UserLimitTypes::Kick => String::from_str("Kicks"),
            UserLimitTypes::Ban => String::from_str("Bans"),
            UserLimitTypes::Unban => String::from_str("Unbans"),
        }
    }

    pub open spec fn string_form_spec(self) -> Seq<char> {
        match self {
            UserLimitTypes::RoleAdd => "role_add"@,
            UserLimitTypes::RoleUpdate => "role_update"@,
            UserLimitTypes::RoleRemove => "role_remove"@,
            UserLimitTypes::ChannelAdd => "channel_add"@,
            UserLimitTypes::ChannelUpdate => "channel_update"@,
            UserLimitTypes::ChannelRemove => "channel_remove"@,
            UserLimitTypes::Kick => "kick"@,
            UserLimitTypes::Ban => "ban"@,
            UserLimitTypes::Unban => "unban"@,
        }
    }

    /// The stable snake_case name a kind is persisted and exported under.
    pub fn string_form(&self) -> (r: String)
        ensures
            r@ == self.string_form_spec(),
    {
        match self {
            UserLimitTypes::RoleAdd => String::from_str("role_add"),
            UserLimitTypes::RoleUpdate => String::from_str("role_update"),
            UserLimitTypes::RoleRemove => String::from_str("role_remove"),
            UserLimitTypes::ChannelAdd => String::from_str("channel_add"),
            UserLimitTypes::ChannelUpdate => String::from_str("channel_update"),
            UserLimitTypes::ChannelRemove => String::from_str("channel_remove"),
            UserLimitTypes::Kick => String::from_str("kick"),
            UserLimitTypes::Ban => String::from_str("ban"),
            UserLimitTypes::Unban => String::from_str("unban"),
        }
    }

    pub open spec fn parse_string_form_spec(s: Seq<char>) -> Option<UserLimitTypes> {
        if s == "role_add"@ {
            Some(UserLimitTypes::RoleAdd)
        } else if s == "role_update"@ {
            Some(UserLimitTypes::RoleUpdate)
        } else if s == "role_remove"@ {
            Some(UserLimitTypes::RoleRemove)
        } else if s == "channel_add"@ {
            Some(UserLimitTypes::ChannelAdd)
        } else if s == "channel_update"@ {
            Some(UserLimitTypes::ChannelUpdate)
        } else if s == "channel_remove"@ {
            Some(UserLimitTypes::ChannelRemove)
        } else if s == "kick"@ {
            Some(UserLimitTypes::Kick)
        } else if s == "ban"@ {
            Some(UserLimitTypes::Ban)
        } else if s == "unban"@ {
            Some(UserLimitTypes::Unban)
        } else {
            None
        }
    }

    /// Parses the snake_case name a kind is persisted under.
    pub fn from_string_form(s: &String) -> (r: Option<UserLimitTypes>)
        ensures
            r == UserLimitTypes::parse_string_form_spec(s@),
    {
        if str_matches(s, "role_add") {
            Some(UserLimitTypes::RoleAdd)
        } else if str_matches(s, "role_update") {
            Some(UserLimitTypes::RoleUpdate)
        } else if str_matches(s, "role_remove") {
            Some(UserLimitTypes::RoleRemove)
        } else if str_matches(s, "channel_add") {
            Some(UserLimitTypes::ChannelAdd)
        } else if str_matches(s, "channel_update") {
            Some(UserLimitTypes::ChannelUpdate)
        } else if str_matches(s, "channel_remove") {
            Some(UserLimitTypes::ChannelRemove)
        } else if str_matches(s, "kick") {
            Some(UserLimitTypes::Kick)
        } else if str_matches(s, "ban") {
            Some(UserLimitTypes::Ban)
        } else if str_matches(s, "unban") {
            Some(UserLimitTypes::Unban)
        } else {
            None
        }
    }
}

/// Parsing a kind's persisted name gives the kind back: the stored form is
/// faithful.
pub proof fn lemma_kind_round_trip(t: UserLimitTypes)
    ensures
        UserLimitTypes::parse_string_form_spec(t.string_form_spec()) == Some(t),
{
    reveal_strlit("role_add");
    reveal_strlit("role_update");
    reveal_strlit("role_remove");
    reveal_strlit("channel_add");
    reveal_strlit("channel_update");
    reveal_strlit("channel_remove");
    reveal_strlit("kick");
    reveal_strlit("ban");
    reveal_strlit("unban");
    assert(("role_add"@).len() == 8);
    assert(("role_update"@).len() == 11);
    assert(("role_remove"@).len() == 11);
    assert(("channel_add"@).len() == 11);
    assert(("channel_update"@).len() == 14);
    assert(("channel_remove"@).len() == 14);
    assert(("kick"@).len() == 4);
    assert(("ban"@).len() == 3);
    assert(("unban"@).len() == 5);
    assert(("role_update"@)[0] == 'r');
    assert(("role_remove"@)[0] == 'r');
    assert(("channel_add"@)[0] == 'c');
    assert(("role_update"@)[5] == 'u');
    assert(("role_remove"@)[5] == 'r');
    assert(("channel_update"@)[8] == 'u');
    assert(("channel_remove"@)[8] == 'r');
}

/// Parsing a mitigation's persisted name gives the mitigation back.
pub proof fn lemma_mitigation_round_trip(a: UserLimitActions)
    ensures
        UserLimitActions::parse_string_form_spec(a.string_form_spec()) == Some(a),
{
    reveal_strlit("remove_all_roles");
    reveal_strlit("kick_user");
    reveal_strlit("ban_user");
    assert(("remove_all_roles"@).len() == 16);
    assert(("kick_user"@).len() == 9);
    assert(("ban_user"@).len() == 8);
}

/// Whether the string holds exactly the given text.
fn str_matches(s: &String, lit: &str) -> (b: bool)
    ensures
        b == (s@ == lit@),
{
    let l = String::from_str(lit);
    s.eq(&l)
}


/// The user-facing menu of mitigations.  `resolve` maps a menu entry to the
/// internal mitigation.
#[derive(Clone, Copy, Debug, PartialEq, Eq, Structural)]
pub enum UserLimitActionsChoices {
    RemoveAllRoles,
    KickUser,
    BanUser,
}

/// The mitigation a limit carries out against the offending actor once it is
/// hit.
#[derive(Clone, Copy, Debug, PartialEq, Eq, Structural)]
pub enum UserLimitActions {
    RemoveAllRoles,
    KickUser,
    BanUser,
}

impl UserLimitActionsChoices {
    pub open spec fn resolve_spec(self) -> UserLimitActions {
        match self {
            UserLimitActionsChoices::RemoveAllRoles => UserLimitActions::RemoveAllRoles,
            UserLimitActionsChoices::KickUser => UserLimitActions::KickUser,
            UserLimitActionsChoices::BanUser => UserLimitActions::BanUser,
        }
    }

    pub fn resolve(self) -> (r: UserLimitActions)
        ensures
            r == self.resolve_spec(),
    {
        match self {
            UserLimitActionsChoices::RemoveAllRoles => UserLimitActions::RemoveAllRoles,
            UserLimitActionsChoices::KickUser => UserLimitActions::KickUser,
            UserLimitActionsChoices::BanUser => UserLimitActions::BanUser,
        }
    }
}

impl UserLimitActions {
    pub open spec fn cond_spec(self) -> Seq<char> {
        match self {
            UserLimitActions::RemoveAllRoles => "Remove All Roles"@,
            UserLimitActions::KickUser => "Kick User"@,
            UserLimitActions::BanUser => "Ban User"@,
        }
    }

    /// The human label used when a mitigation is displayed.
    pub fn to_cond(&self) -> (r: String)
        ensures
            r@ == self.cond_spec(),
    {
        match self {
            UserLimitActions::RemoveAllRoles => String::from_str("Remove All Roles"),
            UserLimitActions::KickUser => String::from_str("Kick User"),
            UserLimitActions::BanUser => String::from_str("Ban User"),
        }
    }

    pub open spec fn string_form_spec(self) -> Seq<char> {
        match self {
            UserLimitActions::RemoveAllRoles => "remove_all_roles"@,
            UserLimitActions::KickUser => "kick_user"@,
            UserLimitActions::BanUser => "ban_user"@,
        }
    }

    /// The stable snake_case name a mitigation is persisted and exported
    /// under.
    pub fn string_form(&self) -> (r: String)
        ensures
            r@ == self.string_form_spec(),
    {
        match self {
            UserLimitActions::RemoveAllRoles => String::from_str("remove_all_roles"),
            UserLimitActions::KickUser => String::from_str("kick_user"),
            UserLimitActions::BanUser => String::from_str("ban_user"),
        }
    }

    pub open spec fn parse_string_form_spec(s: Seq<char>) -> Option<UserLimitActions> {
        if s == "remove_all_roles"@ {
            Some(UserLimitActions::RemoveAllRoles)
        } else if s == "kick_user"@ {
            Some(UserLimitActions::KickUser)
        } else if s == "ban_user"@ {
            Some(UserLimitActions::BanUser)
        } else {
            None
        }
    }

    /// Parses the snake_case name a mitigation is persisted under.
    pub fn from_string_form(s: &String) -> (r: Option<UserLimitActions>)
        ensures
            r == UserLimitActions::parse_string_form_spec(s@),
    {
        if str_matches(s, "remove_all_roles") {
            Some(UserLimitActions::RemoveAllRoles)
        } else if str_matches(s, "kick_user") {
            Some(UserLimitActions::KickUser)
        } else if str_matches(s, "ban_user") {
            Some(UserLimitActions::BanUser)
        } else {
            None
        }
    }
}


/// The mathematical value of an [`Action`].
#[verifier::ext_equal]
pub struct ActionV {
    pub action_id: u64,
    pub limit_type: UserLimitTypes,
    pub created_at: u64,
    pub user_id: u64,
    pub guild_id: u64,
    pub action_target: u64,
    pub limits_hit: Seq<u64>,
}

/// One observed moderation event.  Immutable once written, except that
/// `limits_hit` — the set of limits the action has already been counted
/// toward — only ever grows.  Timestamps are microseconds.
pub struct Action {
    pub action_id: u64,
    pub limit_type: UserLimitTypes,
    pub created_at: u64,
    pub user_id: u64,
    pub guild_id: u64,
    pub action_target: u64,
    pub limits_hit: Vec<u64>,
}

impl View for Action {
    type V = ActionV;

    open spec fn view(&self) -> ActionV {
        ActionV {
            action_id: self.action_id,
            limit_type: self.limit_type,
            created_at: self.created_at,
            user_id: self.user_id,
            guild_id: self.guild_id,
            action_target: self.action_target,
            limits_hit: self.limits_hit@,
        }
    }
}

impl DeepView for Action {
    type V = ActionV;

    open spec fn deep_view(&self) -> ActionV {
        self.view()
    }
}

impl Clone for Action {
    fn clone(&self) -> (r: Self)
        ensures
            r@ == self@,
    {
        Action {
            action_id: self.action_id,
            limit_type: self.limit_type,
            created_at: self.created_at,
            user_id: self.user_id,
            guild_id: self.guild_id,
            action_target: self.action_target,
            limits_hit: clone_ids(&self.limits_hit),
        }
    }
}

/// The mathematical value of a [`Limit`].
#[verifier::ext_equal]
pub struct LimitV {
    pub guild_id: u64,
    pub limit_id: u64,
    pub limit_name: Seq<char>,
    pub limit_type: UserLimitTypes,
    pub limit_action: UserLimitActions,
    pub limit_per: u32,
    pub limit_time: u64,
}

/// A rate-limit rule scoped to one guild: at most `limit_per` unconsumed
/// actions of kind `limit_type` inside a sliding window of `limit_time`
/// microseconds; `limit_action` is the mitigation once it is hit.  Limits are
/// immutable once created.
pub struct Limit {
    pub guild_id: u64,
    pub limit_id: u64,
    pub limit_name: String,
    pub limit_type: UserLimitTypes,
    pub limit_action: UserLimitActions,
    pub limit_per: u32,
    pub limit_time: u64,
}

impl View for Limit {
    type V = LimitV;

    open spec fn view(&self) -> LimitV {
        LimitV {
            guild_id: self.guild_id,
            limit_id: self.limit_id,
            limit_name: self.limit_name@,
            limit_type: self.limit_type,
            limit_action: self.limit_action,
            limit_per: self.limit_per,
            limit_time: self.limit_time,
        }
    }
}

impl DeepView for Limit {
    type V = LimitV;

    open spec fn deep_view(&self) -> LimitV {
        self.view()
    }
}

impl Clone for Limit {
    fn clone(&self) -> (r: Self)
        ensures
            r@ == self@,
    {
        Limit {
            guild_id: self.guild_id,
            limit_id: self.limit_id,
            limit_name: self.limit_name.clone(),
            limit_type: self.limit_type,
            limit_action: self.limit_action,
            limit_per: self.limit_per,
            limit_time: self.limit_time,
        }
    }
}

/// Copies a vector of ids.
pub fn clone_ids(v: &Vec<u64>) -> (r: Vec<u64>)
    ensures
        r@ == v@,
{
    let mut r: Vec<u64> = Vec::new();
    let mut i: usize = 0;
    while i < v.len()
        invariant
            i <= v.len(),
            r@ == v@.take(i as int),
        decreases v.len() - i,
    {
        r.push(v[i]);
        proof {
            assert(v@.take(i + 1 as int) =~= v@.take(i as int).push(v@[i as int]));
        }
        i = i + 1;
    }
    proof {
        assert(v@.take(v.len() as int) =~= v@);
    }
    r
}

/// Returns whether `x` occurs in `v`.
pub fn contains_id(v: &Vec<u64>, x: u64) -> (b: bool)
    ensures
        b == v@.contains(x),
{
    let mut i: usize = 0;
    while i < v.len()
        invariant
            i <= v.len(),
            forall|k: int| 0 <= k < i ==> v@[k] != x,
        decreases v.len() - i,
    {
        if v[i] == x {
            return true;
        }
        i = i + 1;
    }
    false
}

/// An action `window` microseconds old at `now` falls outside the window:
/// membership is strictly-less-than.
pub open spec fn in_window(created_at: int, now: int, window: int) -> bool {
    now - created_at < window
}

/// The window boundary is strict: an action exactly `window` microseconds
/// old no longer counts; one a microsecond younger still does.
pub proof fn lemma_window_boundary(created_at: int, window: int)
    requires
        window >= 1,
    ensures
        !in_window(created_at, created_at + window, window),
        in_window(created_at + 1, created_at + window, window),
{
}

/// Whether an action counts toward a limit of the given parameters at `now`:
/// right guild, the watched kind, inside the sliding window, and not yet
/// consumed by the limit named `excluding_consumer`.
pub open spec fn query_matches(
    a: ActionV,
    guild_id: u64,
    limit_type: UserLimitTypes,
    window: u64,
    now: u64,
    excluding_consumer: u64,
) -> bool {
    &&& a.guild_id == guild_id
    &&& a.limit_type == limit_type
    &&& in_window(a.created_at as int, now as int, window as int)
    &&& !a.limits_hit.contains(excluding_consumer)
}

/// The actions of the ledger that count toward a limit of the given
/// parameters at `now`, in ledger (append) order.
pub open spec fn query_model(
    actions: Seq<ActionV>,
    guild_id: u64,
    limit_type: UserLimitTypes,
    window: u64,
    now: u64,
    excluding_consumer: u64,
) -> Seq<ActionV>
    decreases actions.len(),
{
    if actions.len() == 0 {
        Seq::empty()
    } else {
        let rest = query_model(
            actions.drop_last(),
            guild_id,
            limit_type,
            window,
            now,
            excluding_consumer,
        );
        if query_matches(actions.last(), guild_id, limit_type, window, now, excluding_consumer) {
            rest.push(actions.last())
        } else {
            rest
        }
    }
}

/// `query_model` is the generic filter at the per-action predicate.
pub proof fn lemma_query_model_is_keep(
    actions: Seq<ActionV>,
    guild_id: u64,
    limit_type: UserLimitTypes,
    window: u64,
    now: u64,
    excluding_consumer: u64,
    p: spec_fn(ActionV) -> bool,
)
    requires
        forall|a: ActionV| #[trigger]
            p(a) == query_matches(a, guild_id, limit_type, window, now, excluding_consumer),
    ensures
        query_model(actions, guild_id, limit_type, window, now, excluding_consumer) == keep(
            actions,
            p,
        ),
    decreases actions.len(),
{
    if actions.len() > 0 {
        lemma_query_model_is_keep(
            actions.drop_last(),
            guild_id,
            limit_type,
            window,
            now,
            excluding_consumer,
            p,
        );
    }
}


/// Actions in nondecreasing timestamp order: the ledger's shape when events
/// arrive in order, since the ledger itself keeps append order.
pub open spec fn sorted_by_time(actions: Seq<ActionV>) -> bool {
    forall|i: int, j: int|
        0 <= i < j < actions.len() ==> (#[trigger] actions[i]).created_at <= (
        #[trigger] actions[j]).created_at
}

/// A query of a time-sorted ledger is itself oldest-first.
pub proof fn lemma_query_model_sorted(
    actions: Seq<ActionV>,
    guild_id: u64,
    limit_type: UserLimitTypes,
    window: u64,
    now: u64,
    excluding_consumer: u64,
)
    requires
        sorted_by_time(actions),
    ensures
        sorted_by_time(query_model(actions, guild_id, limit_type, window, now, excluding_consumer)),
    decreases actions.len(),
{
    if actions.len() > 0 {
        let head = actions.drop_last();
        assert forall|i: int, j: int| 0 <= i < j < head.len() implies (#[trigger] head[
            i
        ]).created_at <= (#[trigger] head[j]).created_at by {
            assert(head[i] == actions[i]);
            assert(head[j] == actions[j]);
        }
        lemma_query_model_sorted(head, guild_id, limit_type, window, now, excluding_consumer);
        let q = query_model(actions, guild_id, limit_type, window, now, excluding_consumer);
        let qh = query_model(head, guild_id, limit_type, window, now, excluding_consumer);
        let last = actions.last();
        if query_matches(last, guild_id, limit_type, window, now, excluding_consumer) {
            let p = |a: ActionV|
                query_matches(a, guild_id, limit_type, window, now, excluding_consumer);
            lemma_query_model_is_keep(head, guild_id, limit_type, window, now, excluding_consumer, p);
            crate::seqs::lemma_keep_membership(head, p);
            assert forall|i: int, j: int| 0 <= i < j < q.len() implies (#[trigger] q[
                i
            ]).created_at <= (#[trigger] q[j]).created_at by {
                if j < qh.len() {
                    assert(q[i] == qh[i]);
                    assert(q[j] == qh[j]);
                } else {
                    assert(q[j] == last);
                    assert(q[i] == qh[i]);
                    assert(head.contains(qh[i]));
                    let k = choose|k: int| 0 <= k < head.len() && head[k] == qh[i];
                    assert(actions[k] == qh[i]);
                    assert(actions[actions.len() - 1] == last);
                }
            }
        }
    }
}


/// As time passes without new actions, a limit's qualifying count only
/// shrinks: the sliding window lets actions age out and admits nothing new.
pub proof fn lemma_qualifying_time_mono(actions: Seq<ActionV>, l: LimitV, now: u64, later: u64)
    requires
        now <= later,
    ensures
        qualifying(actions, l, later).len() <= qualifying(actions, l, now).len(),
{
    let p = |a: ActionV| query_matches(a, l.guild_id, l.limit_type, l.limit_time, now, l.limit_id);
    let q = |a: ActionV|
        query_matches(a, l.guild_id, l.limit_type, l.limit_time, later, l.limit_id);
    lemma_query_model_is_keep(actions, l.guild_id, l.limit_type, l.limit_time, now, l.limit_id, p);
    lemma_query_model_is_keep(
        actions,
        l.guild_id,
        l.limit_type,
        l.limit_time,
        later,
        l.limit_id,
        q,
    );
    crate::seqs::lemma_keep_mono(actions, p, q);
}

/// Whether `a` counts toward limit `l` at `now`.
pub open spec fn action_matches(a: ActionV, l: LimitV, now: u64) -> bool {
    query_matches(a, l.guild_id, l.limit_type, l.limit_time, now, l.limit_id)
}

/// The actions that count toward limit `l` at `now`, in ledger order.
pub open spec fn qualifying(actions: Seq<ActionV>, l: LimitV, now: u64) -> Seq<ActionV> {
    query_model(actions, l.guild_id, l.limit_type, l.limit_time, now, l.limit_id)
}

/// The ids of a sequence of actions, in the same order.
pub open spec fn ids_of(actions: Seq<ActionV>) -> Seq<u64> {
    actions.map_values(|a: ActionV| a.action_id)
}

/// The mathematical value of a [`PastHitLimit`].
#[verifier::ext_equal]
pub struct PastHitLimitV {
    pub id: u64,
    pub guild_id: u64,
    pub user_id: u64,
    pub limit_id: u64,
    pub cause: Seq<u64>,
    pub created_at: u64,
    pub notes: Seq<Seq<char>>,
}

/// The persisted record that a limit was hit: which limit, the actor it is
/// charged to, and the ids of the actions that satisfied the threshold.
/// Immutable once written, except that operators may append free-text notes.
pub struct PastHitLimit {
    pub id: u64,
    pub guild_id: u64,
    pub user_id: u64,
    pub limit_id: u64,
    pub cause: Vec<u64>,
    pub created_at: u64,
    pub notes: Vec<String>,
}

impl View for PastHitLimit {
    type V = PastHitLimitV;

    open spec fn view(&self) -> PastHitLimitV {
        PastHitLimitV {
            id: self.id,
            guild_id: self.guild_id,
            user_id: self.user_id,
            limit_id: self.limit_id,
            cause: self.cause@,
            created_at: self.created_at,
            notes: self.notes.deep_view(),
        }
    }
}

impl DeepView for PastHitLimit {
    type V = PastHitLimitV;

    open spec fn deep_view(&self) -> PastHitLimitV {
        self.view()
    }
}

impl Clone for PastHitLimit {
    fn clone(&self) -> (r: Self)
        ensures
            r@ == self@,
    {
        let mut notes: Vec<String> = Vec::new();
        let mut i: usize = 0;
        while i < self.notes.len()
            invariant
                i <= self.notes.len(),
                notes.deep_view() == self.notes.deep_view().take(i as int),
            decreases self.notes.len() - i,
        {
            notes.push(self.notes[i].clone());
            proof {
                assert(self.notes.deep_view().take(i + 1 as int) =~= self.notes.deep_view().take(
                    i as int,
                ).push(self.notes.deep_view()[i as int]));
            }
            i = i + 1;
        }
        proof {
            assert(self.notes.deep_view().take(self.notes.len() as int) =~= self.notes.deep_view());
        }
        PastHitLimit {
            id: self.id,
            guild_id: self.guild_id,
            user_id: self.user_id,
            limit_id: self.limit_id,
            cause: clone_ids(&self.cause),
            created_at: self.created_at,
            notes,
        }
    }
}

/// The mathematical value of a [`UserLimitsHit`].
#[verifier::ext_equal]
pub struct UserLimitsHitV {
    pub limit: LimitV,
    pub cause: Seq<ActionV>,
}

/// One newly exceeded limit, as reported by an evaluation pass: the limit
/// and the qualifying actions that satisfied its threshold.
pub struct UserLimitsHit {
    pub limit: Limit,
    pub cause: Vec<Action>,
}

impl View for UserLimitsHit {
    type V = UserLimitsHitV;

    open spec fn view(&self) -> UserLimitsHitV {
        UserLimitsHitV { limit: self.limit@, cause: self.cause.deep_view() }
    }
}

impl DeepView for UserLimitsHit {
    type V = UserLimitsHitV;

    open spec fn deep_view(&self) -> UserLimitsHitV {
        self.view()
    }
}

/// The hits an evaluation pass reports for guild `g` at time `now`: one per
/// configured limit of the guild whose qualifying count has reached its
/// threshold, in registry order, each carrying the qualifying actions.
pub open spec fn hit_model(
    limits: Seq<LimitV>,
    actions: Seq<ActionV>,
    g: u64,
    now: u64,
) -> Seq<UserLimitsHitV>
    decreases limits.len(),
{
    if limits.len() == 0 {
        Seq::empty()
    } else {
        let rest = hit_model(limits.drop_last(), actions, g, now);
        let l = limits.last();
        if l.guild_id == g && qualifying(actions, l, now).len() >= l.limit_per {
            rest.push(UserLimitsHitV { limit: l, cause: qualifying(actions, l, now) })
        } else {
            rest
        }
    }
}

} // verus!
