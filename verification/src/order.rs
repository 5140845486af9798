//! Stable sorting by a pair of integers.

use vstd::prelude::*;

verus! {

/// `a` comes strictly before `b` in the order of pairs.
pub open spec fn key_less(a: (int, int), b: (int, int)) -> bool {
    a.0 < b.0 || (a.0 == b.0 && a.1 < b.1)
}

/// What is sorted by a pair of integers.
pub trait Keyed: Copy {
    /// The pair.
    spec fn key(self) -> (int, int);

    /// Whether the key of `self` comes strictly before that of `other`.
    fn precedes(&self, other: &Self) -> (b: bool)
        ensures
            b == key_less(self.key(), other.key()),
    ;
}

/// The items of `s` that have key `k`, in their order.
pub open spec fn with_key<T: Keyed>(s: Seq<T>, k: (int, int)) -> Seq<T> {
    s.filter(|x: T| x.key() == k)
}

/// No item of `s` comes before one that stands to its left.
pub open spec fn ordered<T: Keyed>(s: Seq<T>) -> bool {
    forall|i: int, j: int|
        #![trigger s[i], s[j]]
        0 <= i < j < s.len() ==> !key_less(s[j].key(), s[i].key())
}

/// `sorted` is `s` in the order of its keys, items of one key as they stood.
pub open spec fn stable_sort_of<T: Keyed>(s: Seq<T>, sorted: Seq<T>) -> bool {
    &&& ordered(sorted)
    &&& sorted.to_multiset() == s.to_multiset()
    &&& forall|k: (int, int)| #[trigger] with_key(sorted, k) == with_key(s, k)
}

/// `s` in the order of its keys, items of one key as they stood.
pub open spec fn sorted_by_key<T: Keyed>(s: Seq<T>) -> Seq<T> {
    choose|sorted: Seq<T>| stable_sort_of(s, sorted)
}

/// The items of a key are those that any predicate picks which says so.
pub(crate) proof fn lemma_with_key_is_filter<T: Keyed>(
    s: Seq<T>,
    k: (int, int),
    p: spec_fn(T) -> bool,
)
    requires
        forall|x: T| #[trigger] p(x) == (x.key() == k),
    ensures
        with_key(s, k) == s.filter(p),
    decreases s.len(),
{
    reveal(Seq::filter);
    if s.len() > 0 {
        lemma_with_key_is_filter(s.drop_last(), k, p);
        assert(p(s.last()) == (s.last().key() == k));
    }
}

/// Taking one item out takes it out of what a predicate picks.
proof fn lemma_filter_without<A>(s: Seq<A>, i: int, p: spec_fn(A) -> bool)
    requires
        0 <= i < s.len(),
    ensures
        s.filter(p).len() == s.remove(i).filter(p).len() + if p(s[i]) {
            1nat
        } else {
            0nat
        },
{
    let (low, high) = (s.take(i), s.skip(i + 1));
    assert(s.remove(i) =~= low + high);
    assert(s =~= low.push(s[i]) + high);
    Seq::filter_distributes_over_add(low, high, p);
    Seq::filter_distributes_over_add(low.push(s[i]), high, p);
    assert(low.push(s[i]).drop_last() =~= low);
    reveal(Seq::filter);
}

/// An item of a sequence stands in any other that holds the same ones.
pub(crate) proof fn lemma_same_items_contained<A>(a: Seq<A>, b: Seq<A>, i: int)
    requires
        a.to_multiset() == b.to_multiset(),
        0 <= i < a.len(),
    ensures
        a.len() == b.len(),
        b.contains(a[i]),
{
    a.to_multiset_ensures();
    b.to_multiset_ensures();
    assert(a.contains(a[i]));
    assert(a.to_multiset().count(a[i]) > 0);
}

/// A predicate picks as many items of one sequence as of another that holds the
/// same ones in another order.
pub(crate) proof fn lemma_same_items_same_count<A>(a: Seq<A>, b: Seq<A>, p: spec_fn(A) -> bool)
    requires
        a.to_multiset() == b.to_multiset(),
    ensures
        a.filter(p).len() == b.filter(p).len(),
    decreases a.len(),
{
    a.to_multiset_ensures();
    b.to_multiset_ensures();
    if a.len() > 0 {
        let last = a.len() - 1;
        lemma_same_items_contained(a, b, last);
        let i = choose|i: int| 0 <= i < b.len() && b[i] == a[last];
        assert(a.remove(last).to_multiset() =~= b.remove(i).to_multiset());
        lemma_same_items_same_count(a.remove(last), b.remove(i), p);
        lemma_filter_without(a, last, p);
        lemma_filter_without(b, i, p);
    } else {
        reveal(Seq::filter);
    }
}

/// Sequences that hold the same items still do when each item is mapped.
pub(crate) proof fn lemma_same_items_mapped<A, B>(a: Seq<A>, b: Seq<A>, f: spec_fn(A) -> B)
    requires
        a.to_multiset() == b.to_multiset(),
    ensures
        a.map_values(f).to_multiset() == b.map_values(f).to_multiset(),
    decreases a.len(),
{
    a.to_multiset_ensures();
    b.to_multiset_ensures();
    if a.len() > 0 {
        let last = a.len() - 1;
        lemma_same_items_contained(a, b, last);
        let i = choose|i: int| 0 <= i < b.len() && b[i] == a[last];
        assert(a.remove(last).to_multiset() =~= b.remove(i).to_multiset());
        lemma_same_items_mapped(a.remove(last), b.remove(i), f);
        let (x, y) = (a.map_values(f), b.map_values(f));
        assert(a.remove(last).map_values(f) =~= x.remove(last));
        assert(b.remove(i).map_values(f) =~= y.remove(i));
        lemma_put_back(x, last);
        lemma_put_back(y, i);
    } else {
        assert(a.map_values(f) =~= b.map_values(f));
    }
}

/// A sequence holds what it holds without one of its items, and that item.
proof fn lemma_put_back<A>(s: Seq<A>, i: int)
    requires
        0 <= i < s.len(),
    ensures
        s.to_multiset() == s.remove(i).to_multiset().insert(s[i]),
{
    s.to_multiset_ensures();
    assert(s.contains(s[i]));
    assert(s.to_multiset().count(s[i]) > 0);
    assert(s.to_multiset() =~= s.to_multiset().remove(s[i]).insert(s[i]));
}

proof fn lemma_with_key_parts<T: Keyed>(a: Seq<T>, b: Seq<T>, k: (int, int))
    ensures
        with_key(a + b, k) == with_key(a, k) + with_key(b, k),
{
    Seq::filter_distributes_over_add(a, b, |x: T| x.key() == k);
}

proof fn lemma_with_key_one<T: Keyed>(x: T, k: (int, int))
    ensures
        with_key(seq![x], k) == (if x.key() == k {
            seq![x]
        } else {
            Seq::<T>::empty()
        }),
{
    reveal_with_fuel(Seq::filter, 2);
    assert(seq![x].drop_last() =~= Seq::<T>::empty());
    if x.key() == k {
        assert(with_key(seq![x], k) =~= seq![x]);
    } else {
        assert(with_key(seq![x], k) =~= Seq::<T>::empty());
    }
}

/// A sequence none of whose keys is `k` has no items of key `k`.
proof fn lemma_with_key_none<T: Keyed>(s: Seq<T>, k: (int, int))
    requires
        forall|i: int| 0 <= i < s.len() ==> (#[trigger] s[i]).key() != k,
    ensures
        with_key(s, k) == Seq::<T>::empty(),
    decreases s.len(),
{
    reveal(Seq::filter);
    if s.len() > 0 {
        let front = s.drop_last();
        assert forall|i: int| 0 <= i < front.len() implies (#[trigger] front[i]).key() != k by {
            assert(front[i] == s[i]);
        }
        lemma_with_key_none(front, k);
        assert(s.last().key() != k) by {
            assert(s[s.len() - 1].key() != k);
        }
    }
    assert(with_key(s, k) =~= Seq::<T>::empty());
}

/// Sorts `items` by their keys; items of one key keep their order.
pub fn stable_sort<T: Keyed>(items: &Vec<T>) -> (sorted: Vec<T>)
    ensures
        stable_sort_of(items@, sorted@),
        sorted@ == sorted_by_key(items@),
{
    let mut sorted: Vec<T> = Vec::new();
    proof {
        assert(items@.take(0) =~= sorted@);
    }
    for n in 0..items.len()
        invariant
            stable_sort_of(items@.take(n as int), sorted@),
            sorted@.len() == n,
    {
        let item = items[n];
        let mut p: usize = sorted.len();
        while p > 0 && item.precedes(&sorted[p - 1])
            invariant
                p <= sorted@.len(),
                forall|i: int|
                    p <= i < sorted@.len() ==> key_less(item.key(), (#[trigger] sorted@[i]).key()),
            decreases p,
        {
            p = p - 1;
        }
        let ghost before = sorted@;
        let ghost low = before.take(p as int);
        let ghost high = before.skip(p as int);
        sorted.insert(p, item);
        proof {
            let seen = items@.take(n as int);
            assert(items@.take(n + 1) =~= seen.push(item));
            assert(before =~= low + high);
            assert(sorted@ =~= low + (seq![item] + high));
            assert forall|i: int, j: int|
                #![trigger sorted@[i], sorted@[j]]
                0 <= i < j < sorted@.len() implies !key_less(sorted@[j].key(), sorted@[i].key()) by {
                let oi = if i < p { i } else { i - 1 };
                let oj = if j < p { j } else { j - 1 };
                if i == p {
                    assert(sorted@[j] == before[oj]);
                } else if j == p {
                    assert(sorted@[i] == before[oi]);
                    assert(!key_less(item.key(), before[p - 1].key()));
                    if oi < p - 1 {
                        assert(!key_less(before[p - 1].key(), before[oi].key()));
                    }
                } else {
                    assert(sorted@[i] == before[oi]);
                    assert(sorted@[j] == before[oj]);
                }
            }
            before.to_multiset_ensures();
            seen.to_multiset_ensures();
            assert(sorted@.to_multiset() =~= seen.push(item).to_multiset()) by {
                broadcast use vstd::seq_lib::group_to_multiset_ensures;
                vstd::seq_lib::lemma_multiset_commutative(low, seq![item] + high);
                vstd::seq_lib::lemma_multiset_commutative(seq![item], high);
                vstd::seq_lib::lemma_multiset_commutative(low, high);
                vstd::seq_lib::lemma_multiset_commutative(seen, seq![item]);
                assert(seen.push(item) =~= seen + seq![item]);
            }
            assert forall|k: (int, int)| #[trigger]
                with_key(sorted@, k) == with_key(seen.push(item), k) by {
                lemma_with_key_parts(low, seq![item] + high, k);
                lemma_with_key_parts(seq![item], high, k);
                lemma_with_key_parts(low, high, k);
                assert(seen.push(item) =~= seen + seq![item]);
                lemma_with_key_parts(seen, seq![item], k);
                lemma_with_key_one(item, k);
                assert(with_key(before, k) == with_key(seen, k));
                if item.key() == k {
                    assert forall|i: int| 0 <= i < high.len() implies (#[trigger] high[i]).key() != k by {
                        assert(high[i] == before[p + i]);
                    }
                    lemma_with_key_none(high, k);
                    assert(with_key(sorted@, k) =~= with_key(seen.push(item), k));
                } else {
                    assert(with_key(sorted@, k) =~= with_key(seen.push(item), k));
                }
            }
        }
    }
    proof {
        assert(items@.take(items@.len() as int) =~= items@);
        stable_sort_has_one_result(items@, sorted@);
    }
    sorted
}

/// A stable sort has one result.
pub proof fn stable_sort_has_one_result<T: Keyed>(s: Seq<T>, sorted: Seq<T>)
    requires
        stable_sort_of(s, sorted),
    ensures
        sorted == sorted_by_key(s),
{
    let other = sorted_by_key(s);
    assert(stable_sort_of(s, other));
    assert forall|k: (int, int)| #[trigger] with_key(sorted, k) == with_key(other, k) by {
        assert(with_key(sorted, k) == with_key(s, k));
    }
    stable_order_is_unique(sorted, other);
}

/// Two ordered sequences whose items of every key agree are equal.
pub proof fn stable_order_is_unique<T: Keyed>(a: Seq<T>, b: Seq<T>)
    requires
        ordered(a),
        ordered(b),
        forall|k: (int, int)| #[trigger] with_key(a, k) == with_key(b, k),
    ensures
        a == b,
    decreases a.len(),
{
    if a.len() == 0 {
        if b.len() > 0 {
            lemma_first_with_key(b);
            lemma_with_key_none(a, b[0].key());
            assert(with_key(a, b[0].key()) == with_key(b, b[0].key()));
        }
        assert(a =~= b);
    } else if b.len() == 0 {
        lemma_first_with_key(a);
        lemma_with_key_none(b, a[0].key());
        assert(with_key(a, a[0].key()) == with_key(b, a[0].key()));
    } else {
        lemma_first_key_bounds(a, b);
        lemma_first_key_bounds(b, a);
        let k0 = a[0].key();
        assert(k0 == b[0].key());
        lemma_first_with_key(a);
        lemma_first_with_key(b);
        assert(with_key(a, k0) == with_key(b, k0));
        assert(a[0] == b[0]);
        let ra = a.drop_first();
        let rb = b.drop_first();
        assert(a =~= seq![a[0]] + ra);
        assert(b =~= seq![b[0]] + rb);
        assert forall|k: (int, int)| #[trigger] with_key(ra, k) == with_key(rb, k) by {
            lemma_with_key_parts(seq![a[0]], ra, k);
            lemma_with_key_parts(seq![b[0]], rb, k);
            lemma_with_key_one(a[0], k);
            assert(with_key(a, k) == with_key(b, k));
            let n = with_key(seq![a[0]], k).len() as int;
            assert(with_key(ra, k) =~= with_key(a, k).skip(n));
            assert(with_key(rb, k) =~= with_key(b, k).skip(n));
        }
        assert forall|i: int, j: int|
            #![trigger ra[i], ra[j]]
            0 <= i < j < ra.len() implies !key_less(ra[j].key(), ra[i].key()) by {
            assert(ra[i] == a[i + 1] && ra[j] == a[j + 1]);
        }
        assert forall|i: int, j: int|
            #![trigger rb[i], rb[j]]
            0 <= i < j < rb.len() implies !key_less(rb[j].key(), rb[i].key()) by {
            assert(rb[i] == b[i + 1] && rb[j] == b[j + 1]);
        }
        stable_order_is_unique(ra, rb);
    }
}

/// The first item leads those of its key.
proof fn lemma_first_with_key<T: Keyed>(s: Seq<T>)
    requires
        s.len() > 0,
    ensures
        with_key(s, s[0].key()).len() > 0,
        with_key(s, s[0].key())[0] == s[0],
{
    let k = s[0].key();
    assert(s =~= seq![s[0]] + s.drop_first());
    lemma_with_key_parts(seq![s[0]], s.drop_first(), k);
    lemma_with_key_one(s[0], k);
}

/// With the same items of every key, the first key of an ordered sequence is
/// at most that of the other.
proof fn lemma_first_key_bounds<T: Keyed>(a: Seq<T>, b: Seq<T>)
    requires
        ordered(a),
        a.len() > 0,
        b.len() > 0,
        forall|k: (int, int)| #[trigger] with_key(a, k) == with_key(b, k),
    ensures
        !key_less(b[0].key(), a[0].key()),
{
    let k = b[0].key();
    if key_less(k, a[0].key()) {
        assert forall|i: int| 0 <= i < a.len() implies (#[trigger] a[i]).key() != k by {
            if i > 0 {
                assert(!key_less(a[i].key(), a[0].key()));
            }
        }
        lemma_with_key_none(a, k);
        lemma_first_with_key(b);
        assert(with_key(a, k) == with_key(b, k));
    }
}

} // verus!
