use vstd::prelude::*;

verus! {

/// The subsequence of `s` whose elements satisfy `p`, in order.
pub open spec fn keep<T>(s: Seq<T>, p: spec_fn(T) -> bool) -> Seq<T>
    decreases s.len(),
{
    if s.len() == 0 {
        Seq::empty()
    } else {
        let rest = keep(s.drop_last(), p);
        if p(s.last()) {
            rest.push(s.last())
        } else {
            rest
        }
    }
}

/// No two elements of `s` share a key under `f`.
pub open spec fn distinct_by<T>(s: Seq<T>, f: spec_fn(T) -> u64) -> bool {
    forall|i: int, j: int|
        0 <= i < j < s.len() ==> f(#[trigger] s[i]) != f(#[trigger] s[j])
}

/// Filtering commutes with appending one element.
pub proof fn lemma_keep_push<T>(s: Seq<T>, p: spec_fn(T) -> bool, x: T)
    ensures
        keep(s.push(x), p) == if p(x) {
            keep(s, p).push(x)
        } else {
            keep(s, p)
        },
{
    assert(s.push(x).drop_last() =~= s);
    assert(s.push(x).last() == x);
}

/// Every kept element satisfies the predicate.
pub proof fn lemma_keep_pred<T>(s: Seq<T>, p: spec_fn(T) -> bool)
    ensures
        forall|i: int| 0 <= i < keep(s, p).len() ==> p(#[trigger] keep(s, p)[i]),
    decreases s.len(),
{
    if s.len() > 0 {
        lemma_keep_pred(s.drop_last(), p);
        assert forall|i: int| 0 <= i < keep(s, p).len() implies p(
            #[trigger] keep(s, p)[i],
        ) by {
            let rest = keep(s.drop_last(), p);
            if i < rest.len() {
                assert(keep(s, p)[i] == rest[i]);
            }
        }
    }
}

/// Every kept element occurs in the original sequence.
pub proof fn lemma_keep_membership<T>(s: Seq<T>, p: spec_fn(T) -> bool)
    ensures
        forall|i: int| 0 <= i < keep(s, p).len() ==> s.contains(#[trigger] keep(s, p)[i]),
    decreases s.len(),
{
    if s.len() > 0 {
        lemma_keep_membership(s.drop_last(), p);
        assert forall|i: int| 0 <= i < keep(s, p).len() implies s.contains(
            #[trigger] keep(s, p)[i],
        ) by {
            let rest = keep(s.drop_last(), p);
            if i < rest.len() {
                let j = choose|j: int|
                    0 <= j < s.drop_last().len() && s.drop_last()[j] == rest[i];
                assert(s[j] == rest[i]);
            } else {
                assert(s[s.len() - 1] == keep(s, p)[i]);
            }
        }
    }
}

/// Every element that satisfies the predicate is kept.
pub proof fn lemma_keep_contains<T>(s: Seq<T>, p: spec_fn(T) -> bool)
    ensures
        forall|i: int|
            0 <= i < s.len() && p(#[trigger] s[i]) ==> keep(s, p).contains(s[i]),
    decreases s.len(),
{
    if s.len() > 0 {
        lemma_keep_contains(s.drop_last(), p);
        assert forall|i: int|
            0 <= i < s.len() && p(#[trigger] s[i]) implies keep(s, p).contains(s[i]) by {
            let rest = keep(s.drop_last(), p);
            if i < s.len() - 1 {
                assert(s.drop_last()[i] == s[i]);
                let j = choose|j: int| 0 <= j < rest.len() && rest[j] == s[i];
                if p(s.last()) {
                    assert(keep(s, p)[j] == s[i]);
                } else {
                    assert(keep(s, p)[j] == s[i]);
                }
            } else {
                assert(keep(s, p)[keep(s, p).len() - 1] == s[i]);
            }
        }
    }
}

/// If no element satisfies the predicate, nothing is kept.
pub proof fn lemma_keep_empty<T>(s: Seq<T>, p: spec_fn(T) -> bool)
    requires
        forall|i: int| 0 <= i < s.len() ==> !p(#[trigger] s[i]),
    ensures
        keep(s, p) == Seq::<T>::empty(),
    decreases s.len(),
{
    if s.len() > 0 {
        assert(!p(s[s.len() - 1]));
        assert forall|i: int| 0 <= i < s.drop_last().len() implies !p(
            #[trigger] s.drop_last()[i],
        ) by {
            assert(s.drop_last()[i] == s[i]);
        }
        lemma_keep_empty(s.drop_last(), p);
    }
}

/// Membership in a pushed sequence.
pub proof fn lemma_push_contains<T>(s: Seq<T>, e: T, x: T)
    ensures
        s.push(e).contains(x) == (s.contains(x) || x == e),
{
    if s.push(e).contains(x) {
        let k = choose|k: int| 0 <= k < s.push(e).len() && s.push(e)[k] == x;
        if k < s.len() {
            assert(s[k] == x);
        }
    }
    if s.contains(x) {
        let k = choose|k: int| 0 <= k < s.len() && s[k] == x;
        assert(s.push(e)[k] == x);
    }
    assert(s.push(e)[s.len() as int] == e);
}

/// Filtering keeps keyed elements distinct.
pub proof fn lemma_keep_distinct_by<T>(s: Seq<T>, p: spec_fn(T) -> bool, f: spec_fn(T) -> u64)
    requires
        distinct_by(s, f),
    ensures
        distinct_by(keep(s, p), f),
    decreases s.len(),
{
    if s.len() > 0 {
        let head = s.drop_last();
        assert forall|i: int, j: int| 0 <= i < j < head.len() implies f(
            #[trigger] head[i],
        ) != f(#[trigger] head[j]) by {
            assert(head[i] == s[i]);
            assert(head[j] == s[j]);
        }
        lemma_keep_distinct_by(head, p, f);
        if p(s.last()) {
            let rest = keep(head, p);
            lemma_keep_membership(head, p);
            assert forall|i: int, j: int| 0 <= i < j < keep(s, p).len() implies f(
                #[trigger] keep(s, p)[i],
            ) != f(#[trigger] keep(s, p)[j]) by {
                if j < rest.len() {
                    assert(keep(s, p)[i] == rest[i]);
                    assert(keep(s, p)[j] == rest[j]);
                } else {
                    assert(keep(s, p)[j] == s.last());
                    assert(keep(s, p)[i] == rest[i]);
                    assert(head.contains(rest[i]));
                    let k = choose|k: int| 0 <= k < head.len() && head[k] == rest[i];
                    assert(s[k] == rest[i]);
                    assert(s[s.len() - 1] == s.last());
                    assert(f(s[k]) != f(s[s.len() - 1]));
                }
            }
        }
    }
}


/// A stronger predicate keeps no more elements.
pub proof fn lemma_keep_mono<T>(s: Seq<T>, p: spec_fn(T) -> bool, q: spec_fn(T) -> bool)
    requires
        forall|x: T| #[trigger] q(x) ==> p(x),
    ensures
        keep(s, q).len() <= keep(s, p).len(),
    decreases s.len(),
{
    if s.len() > 0 {
        lemma_keep_mono(s.drop_last(), p, q);
    }
}

} // verus!
