use vstd::prelude::*;
use vstd::string::StringExecFns;

use crate::errors::Error;
use crate::store::Store;

verus! {

/// The time unit a limit's window is entered in.
#[derive(Clone, Copy, Debug, PartialEq, Eq, Structural)]
pub enum Unit {
    Seconds,
    Minutes,
    Hours,
    Days,
}

impl Unit {
    pub open spec fn to_seconds_spec(self) -> i64 {
        match self {
            Unit::Seconds => 1,
            Unit::Minutes => 60,
            Unit::Hours => 3600,
            Unit::Days => 86400,
        }
    }

    pub fn to_seconds(&self) -> (r: i64)
        ensures
            r == self.to_seconds_spec(),
    {
        match self {
            Unit::Seconds => 1,
            Unit::Minutes => 60,
            Unit::Hours => 3600,
            Unit::Days => 86400,
        }
    }
}

/// A time span as the persistence layer hands it out: months, days and
/// microseconds kept apart.
#[derive(Clone, Copy, Debug, PartialEq, Eq, Structural)]
pub struct Interval {
    pub months: i32,
    pub days: i32,
    pub microseconds: i64,
}

/// The whole seconds an interval spans, counting a month as 2628000 seconds.
pub open spec fn interval_seconds(i: Interval) -> int {
    i.microseconds / 1_000_000 + i.days * 86400 + i.months * 2628000
}

/// The decimal digits of `n`, most significant first.
pub open spec fn dec_digits(n: nat) -> Seq<char>
    decreases n,
{
    if n < 10 {
        seq![digit_char(n)]
    } else {
        dec_digits(n / 10).push(digit_char(n % 10))
    }
}

/// The character of one decimal digit.
pub open spec fn digit_char(d: nat) -> char {
    if d == 0 {
        '0'
    } else if d == 1 {
        '1'
    } else if d == 2 {
        '2'
    } else if d == 3 {
        '3'
    } else if d == 4 {
        '4'
    } else if d == 5 {
        '5'
    } else if d == 6 {
        '6'
    } else if d == 7 {
        '7'
    } else if d == 8 {
        '8'
    } else {
        '9'
    }
}

/// Renders `n` in decimal.
pub fn render_u64(n: u64) -> (r: String)
    ensures
        r@ == dec_digits(n as nat),
    decreases n,
{
    let d = n % 10;
    let c: &'static str = if d == 0 {
        "0"
    } else if d == 1 {
        "1"
    } else if d == 2 {
        "2"
    } else if d == 3 {
        "3"
    } else if d == 4 {
        "4"
    } else if d == 5 {
        "5"
    } else if d == 6 {
        "6"
    } else if d == 7 {
        "7"
    } else if d == 8 {
        "8"
    } else {
        "9"
    };
    proof {
        reveal_strlit("0");
        reveal_strlit("1");
        reveal_strlit("2");
        reveal_strlit("3");
        reveal_strlit("4");
        reveal_strlit("5");
        reveal_strlit("6");
        reveal_strlit("7");
        reveal_strlit("8");
        reveal_strlit("9");
        assert(c@ =~= seq![digit_char((n % 10) as nat)]);
    }
    if n < 10 {
        let r = String::from_str(c);
        proof {
            assert(r@ =~= dec_digits(n as nat));
        }
        r
    } else {
        proof {
            assert(n / 10 < n) by (nonlinear_arith)
                requires
                    n >= 10,
            ;
        }
        let mut s = render_u64(n / 10);
        s.append(c);
        proof {
            assert(s@ =~= dec_digits((n as nat) / 10).push(digit_char((n % 10) as nat)));
        }
        s
    }
}

/// The interval rendered as whole seconds, e.g. `"600s"` — the display form
/// used when a limit's window is shown.
pub fn parse_pg_interval(i: Interval) -> (r: String)
    requires
        i.months >= 0,
        i.days >= 0,
        i.microseconds >= 0,
    ensures
        r@ == dec_digits(interval_seconds(i) as nat) + "s"@,
{
    let micro_part: u64 = (i.microseconds as u64) / 1_000_000;
    let day_part: u64 = (i.days as u64) * 86400;
    let month_part: u64 = (i.months as u64) * 2628000;
    let secs: u64 = micro_part + day_part + month_part;
    proof {
        assert(secs == interval_seconds(i));
    }
    let mut s = render_u64(secs);
    s.append("s");
    s
}

/// Whether `user_id` may administer `guild_id`: the guild owner, or a user
/// on the guild's admin roll.  Every configuration command runs behind this
/// gate.
pub fn is_guild_admin(store: &Store, guild_id: u64, user_id: u64, guild_owner_id: u64) -> (r:
    Result<(), Error>)
    ensures
        (r is Ok) == (user_id == guild_owner_id || store@.guild_admins.contains(
            (guild_id, user_id),
        )),
        r is Err ==> r == Err::<(), Error>(Error::Auth),
{
    if user_id == guild_owner_id {
        return Ok(());
    }
    if store.is_admin(guild_id, user_id) {
        Ok(())
    } else {
        Err(Error::Auth)
    }
}

} // verus!
