use vstd::prelude::*;
use vstd::string::StringExecFns;

use crate::errors::Error;
use crate::limits::contains_id;
use crate::store::AccessRow;
use crate::store::Store;

verus! {

/// A tier of configuration authority inside one guild.
#[derive(Clone, Copy, Debug, PartialEq, Eq, Structural)]
pub enum AccessLevel {
    Owner,
    Admin,
    Manager,
}

impl AccessLevel {
    pub open spec fn string_form_spec(self) -> Seq<char> {
        match self {
            AccessLevel::Owner => "owner"@,
            AccessLevel::Admin => "admin"@,
            AccessLevel::Manager => "manager"@,
        }
    }

    /// The stable snake_case name of the level.
    pub fn string_form(&self) -> (r: &'static str)
        ensures
            r@ == self.string_form_spec(),
    {
        match self {
            AccessLevel::Owner => "owner",
            AccessLevel::Admin => "admin",
            AccessLevel::Manager => "manager",
        }
    }

    pub open spec fn requirement_message_spec(self) -> Seq<char> {
        "Whoa there! You need to be a "@ + self.string_form_spec() + " to do that!"@
    }

    /// The reason shown to a caller who lacks this level.
    pub fn requirement_message(&self) -> (r: String)
        ensures
            r@ == self.requirement_message_spec(),
    {
        let mut s = String::from_str("Whoa there! You need to be a ");
        s.append(self.string_form());
        s.append(" to do that!");
        s
    }
}

/// The access levels granted to `u` in guild `g`, in roll order.
pub open spec fn user_levels(rows: Seq<AccessRow>, g: u64, u: u64) -> Seq<AccessLevel>
    decreases rows.len(),
{
    if rows.len() == 0 {
        Seq::empty()
    } else {
        let rest = user_levels(rows.drop_last(), g, u);
        if rows.last().guild_id == g && rows.last().user_id == u {
            rest.push(rows.last().level)
        } else {
            rest
        }
    }
}

/// The access levels one user holds in one guild.
pub struct AccessLevelManager {
    pub perms: Vec<AccessLevel>,
}

impl View for AccessLevelManager {
    type V = Seq<AccessLevel>;

    open spec fn view(&self) -> Seq<AccessLevel> {
        self.perms@
    }
}

impl AccessLevelManager {
    /// Whether the user holds `level`.  Owners hold every level.
    pub fn has(&self, level: AccessLevel) -> (b: bool)
        ensures
            b == (self@.contains(AccessLevel::Owner) || self@.contains(level)),
    {
        contains_level(&self.perms, AccessLevel::Owner) || contains_level(&self.perms, level)
    }

    /// Gates a configuration change: hands the manager back when the user
    /// holds `level`, and refuses otherwise.
    pub fn error_if_not(self, level: AccessLevel) -> (r: Result<AccessLevelManager, Error>)
        ensures
            ((self@.contains(AccessLevel::Owner) || self@.contains(level)) ==> (r matches Ok(m)
                && m@ == self@)),
            (!(self@.contains(AccessLevel::Owner) || self@.contains(level)) ==> r == Err::<
                AccessLevelManager,
                Error,
            >(Error::Auth)),
    {
        if !self.has(level) {
            Err(Error::Auth)
        } else {
            Ok(self)
        }
    }
}

impl AccessLevel {
    /// The levels `user` holds in `guild`: the guild owner holds the owner
    /// level outright; anyone else holds what the guild's access roll
    /// grants.
    #[verifier::loop_isolation(false)]
    pub fn for_user(store: &Store, user: u64, guild: u64, guild_owner: u64) -> (r:
        AccessLevelManager)
        ensures
            user == guild_owner ==> r@ == seq![AccessLevel::Owner],
            user != guild_owner ==> r@ == user_levels(store@.guild_access, guild, user),
    {
        if user == guild_owner {
            let mut perms: Vec<AccessLevel> = Vec::new();
            perms.push(AccessLevel::Owner);
            proof {
                assert(perms@ =~= seq![AccessLevel::Owner]);
            }
            return AccessLevelManager { perms };
        }
        let v = &store.guild_access;
        let mut perms: Vec<AccessLevel> = Vec::new();
        let mut i: usize = 0;
        while i < v.len()
            invariant
                i <= v.len(),
                perms@ == user_levels(v@.take(i as int), guild, user),
            decreases v.len() - i,
        {
            proof {
                assert(v@.take(i + 1 as int).drop_last() =~= v@.take(i as int));
                assert(v@.take(i + 1 as int).last() == v@[i as int]);
            }
            if v[i].guild_id == guild && v[i].user_id == user {
                perms.push(v[i].level);
            }
            i = i + 1;
        }
        proof {
            assert(v@.take(v.len() as int) =~= v@);
        }
        AccessLevelManager { perms }
    }
}

/// Whether `user_id` is one of the configured process owners.
pub fn is_owner(owners: &Vec<u64>, user_id: u64) -> (b: bool)
    ensures
        b == owners@.contains(user_id),
{
    contains_id(owners, user_id)
}

/// Returns whether `x` occurs in `v`.
fn contains_level(v: &Vec<AccessLevel>, x: AccessLevel) -> (b: bool)
    ensures
        b == v@.contains(x),
{
    let mut i: usize = 0;
    while i < v.len()
        invariant
            i <= v.len(),
            forall|k: int| 0 <= k < i ==> v@[k] != x,
        decreases v.len() - i,
    {
        if v[i] == x {
            return true;
        }
        i = i + 1;
    }
    false
}

} // verus!
