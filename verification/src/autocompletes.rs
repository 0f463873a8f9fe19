use vstd::prelude::*;
use vstd::string::StrSliceExecFns;

use crate::limits::LimitV;
use crate::store::Store;

verus! {

/// The autocomplete entries for a guild's limits: the name and id of every
/// limit of the guild whose name starts with the typed fragment, in creation
/// order.
pub open spec fn autocomplete_model(
    limits: Seq<LimitV>,
    g: u64,
    partial: Seq<char>,
) -> Seq<(Seq<char>, u64)>
    decreases limits.len(),
{
    if limits.len() == 0 {
        Seq::empty()
    } else {
        let rest = autocomplete_model(limits.drop_last(), g, partial);
        let l = limits.last();
        if l.guild_id == g && partial.is_prefix_of(l.limit_name) {
            rest.push((l.limit_name, l.limit_id))
        } else {
            rest
        }
    }
}

/// Whether `prefix` starts `s`, character by character.
#[verifier::loop_isolation(false)]
pub fn starts_with_prefix(s: &String, prefix: &String) -> (b: bool)
    ensures
        b == prefix@.is_prefix_of(s@),
{
    let n = prefix.as_str().unicode_len();
    let m = s.as_str().unicode_len();
    if n > m {
        return false;
    }
    let mut i: usize = 0;
    while i < n
        invariant
            i <= n,
            forall|k: int| 0 <= k < i ==> s@[k] == prefix@[k],
        decreases n - i,
    {
        if s.as_str().get_char(i) != prefix.as_str().get_char(i) {
            proof {
                if prefix@.is_prefix_of(s@) {
                    assert(prefix@[i as int] == s@.subrange(0, n as int)[i as int]);
                    assert(s@.subrange(0, n as int)[i as int] == s@[i as int]);
                }
            }
            return false;
        }
        i = i + 1;
    }
    proof {
        assert(prefix@ =~= s@.subrange(0, n as int));
    }
    true
}

/// The limits of `guild_id` whose names start with `partial`, offered to the
/// command surface as completion choices.
#[verifier::loop_isolation(false)]
pub fn limits_autocomplete(store: &Store, guild_id: u64, partial: &String) -> (r: Vec<
    (String, u64),
>)
    ensures
        r.deep_view() == autocomplete_model(store@.limits, guild_id, partial@),
{
    let v = &store.limits;
    let mut r: Vec<(String, u64)> = Vec::new();
    let mut i: usize = 0;
    while i < v.len()
        invariant
            i <= v.len(),
            r.deep_view() == autocomplete_model(v.deep_view().take(i as int), guild_id, partial@),
        decreases v.len() - i,
    {
        proof {
            let dv = v.deep_view();
            assert(dv[i as int] == v@[i as int]@);
            assert(dv.take(i + 1 as int).drop_last() =~= dv.take(i as int));
            assert(dv.take(i + 1 as int).last() == dv[i as int]);
        }
        if v[i].guild_id == guild_id && starts_with_prefix(&v[i].limit_name, partial) {
            r.push((v[i].limit_name.clone(), v[i].limit_id));
        }
        i = i + 1;
    }
    proof {
        assert(v.deep_view().take(v.len() as int) =~= v.deep_view());
    }
    r
}

} // verus!
