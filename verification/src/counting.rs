//! Counting by positions: how many items satisfy a predicate is how many places
//! they stand at.

use vstd::prelude::*;
use vstd::set_lib::lemma_map_size;
use vstd::set_lib::lemma_set_disjoint_lens;

verus! {

/// Where the items of a sequence stand that satisfy a predicate.
pub open spec fn places<A>(s: Seq<A>, p: spec_fn(A) -> bool) -> Set<int> {
    Set::new(|i: int| 0 <= i < s.len() && p(s[i]))
}

/// A predicate picks as many items as there are places of them.
pub proof fn picked_items_have_places<A>(s: Seq<A>, p: spec_fn(A) -> bool)
    ensures
        places(s, p).finite(),
        places(s, p).len() == s.filter(p).len(),
    decreases s.len(),
{
    reveal(Seq::filter);
    if s.len() == 0 {
        assert(places(s, p) =~= Set::empty());
    } else {
        let front = s.drop_last();
        let last = s.len() - 1;
        picked_items_have_places(front, p);
        assert(!places(front, p).contains(last));
        if p(s.last()) {
            assert(places(s, p) =~= places(front, p).insert(last));
        } else {
            assert(places(s, p) =~= places(front, p));
        }
    }
}

/// The pairs of a number below `n` and a member of its set.
pub open spec fn fan<T>(n: nat, f: spec_fn(int) -> Set<T>) -> Set<(int, T)> {
    Set::new(|x: (int, T)| 0 <= x.0 < n && f(x.0).contains(x.1))
}

pub(crate) proof fn lemma_fan_start<T>(f: spec_fn(int) -> Set<T>)
    ensures
        fan(0, f) == Set::<(int, T)>::empty(),
{
    assert(fan(0, f) =~= Set::empty());
}

/// One number more adds the members of its set.
pub(crate) proof fn lemma_fan_step<T>(n: nat, f: spec_fn(int) -> Set<T>)
    requires
        fan(n, f).finite(),
        f(n as int).finite(),
    ensures
        fan(n + 1, f).finite(),
        fan(n + 1, f).len() == fan(n, f).len() + f(n as int).len(),
{
    let tag = |t: T| (n as int, t);
    let added = f(n as int).map(tag);
    lemma_map_size(f(n as int), added, tag);
    assert forall|x: (int, T)| fan(n + 1, f).contains(x) == (fan(n, f) + added).contains(x) by {
        if x.0 == n && f(n as int).contains(x.1) {
            assert(tag(x.1) == x);
        }
    }
    assert(fan(n + 1, f) =~= fan(n, f) + added);
    assert(fan(n, f).disjoint(added));
    lemma_set_disjoint_lens(fan(n, f), added);
}

/// Predicates that agree on the items of a sequence pick the same ones.
pub(crate) proof fn lemma_filter_agree<A>(s: Seq<A>, p: spec_fn(A) -> bool, q: spec_fn(A) -> bool)
    requires
        forall|i: int| 0 <= i < s.len() ==> p(#[trigger] s[i]) == q(s[i]),
    ensures
        s.filter(p) == s.filter(q),
    decreases s.len(),
{
    reveal(Seq::filter);
    if s.len() > 0 {
        let front = s.drop_last();
        assert forall|i: int| 0 <= i < front.len() implies p(#[trigger] front[i]) == q(front[i]) by {
            assert(front[i] == s[i]);
        }
        lemma_filter_agree(front, p, q);
        assert(s[s.len() - 1] == s.last());
    }
}

/// Picking among mapped items is picking by what they map to.
pub(crate) proof fn lemma_map_filter<A, B>(s: Seq<A>, f: spec_fn(A) -> B, q: spec_fn(B) -> bool)
    ensures
        s.map_values(f).filter(q).len() == s.filter(|x: A| q(f(x))).len(),
    decreases s.len(),
{
    reveal(Seq::filter);
    if s.len() > 0 {
        lemma_map_filter(s.drop_last(), f, q);
        assert(s.map_values(f).drop_last() =~= s.drop_last().map_values(f));
    } else {
        assert(s.map_values(f) =~= Seq::<B>::empty());
    }
}

/// Picking among what was picked and mapped is picking by both at once.
pub(crate) proof fn lemma_filter_map_filter<A, B>(
    s: Seq<A>,
    p: spec_fn(A) -> bool,
    f: spec_fn(A) -> B,
    q: spec_fn(B) -> bool,
)
    ensures
        s.filter(p).map_values(f).filter(q).len() == s.filter(|x: A| p(x) && q(f(x))).len(),
    decreases s.len(),
{
    reveal(Seq::filter);
    if s.len() > 0 {
        let front = s.drop_last();
        lemma_filter_map_filter(front, p, f, q);
        let kept = front.filter(p);
        if p(s.last()) {
            assert(kept.push(s.last()).map_values(f) =~= kept.map_values(f).push(f(s.last())));
            assert(kept.map_values(f).push(f(s.last())).drop_last() =~= kept.map_values(f));
        }
    } else {
        assert(s.filter(p).map_values(f) =~= Seq::<B>::empty());
    }
}

} // verus!
