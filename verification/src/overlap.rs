//! How much the shingles of two texts have in common.

use vstd::hash_set::StringHashSet;
use vstd::prelude::*;

use crate::text::shingled;
use crate::text::shingles;
use crate::text::texts;

verus! {

/// The shingles that two texts share, of those that either has.
#[derive(Debug, Clone, Copy, PartialEq, Eq, Structural)]
pub struct Overlap {
    pub common: usize,
    pub total: usize,
}

/// The set of the shingles of a text.
pub open spec fn shingle_set(text: Seq<char>) -> Set<Seq<char>> {
    shingled(text).to_set()
}

impl Overlap {
    /// The overlap of two texts as sets of shingles.
    pub open spec fn between(self, a: Seq<char>, b: Seq<char>) -> bool {
        &&& self.common == common_shingles(a, b)
        &&& self.total == total_shingles(a, b)
    }

    /// The overlap of two texts is at most this one, as fractions.
    pub open spec fn bounds(self, a: Seq<char>, b: Seq<char>) -> bool {
        common_shingles(a, b) * self.total <= self.common * total_shingles(a, b)
    }

    /// No overlap at all.
    pub open spec fn nothing(self) -> bool {
        self.common == 0 && self.total == 1
    }

    /// Whether the overlap reaches four fifths.
    pub fn is_near(self) -> (b: bool)
        ensures
            b == (5 * self.common >= 4 * self.total),
    {
        5 * self.common as u128 >= 4 * self.total as u128
    }

    /// Whether the fraction is larger than that of `other`.
    pub fn exceeds(self, other: Overlap) -> (b: bool)
        ensures
            b == (self.common * other.total > other.common * self.total),
    {
        proof {
            lemma_product_fits(self.common, other.total);
            lemma_product_fits(other.common, self.total);
        }
        self.common as u128 * other.total as u128 > other.common as u128 * self.total as u128
    }
}

/// Two overlaps are equal as fractions.
pub open spec fn same_fraction(a: Overlap, b: Overlap) -> bool {
    a.common * b.total == b.common * a.total
}

/// How many shingles two texts share.
pub open spec fn common_shingles(a: Seq<char>, b: Seq<char>) -> nat {
    shingle_set(a).intersect(shingle_set(b)).len()
}

/// How many shingles one of two texts has.
pub open spec fn total_shingles(a: Seq<char>, b: Seq<char>) -> nat {
    shingle_set(a).union(shingle_set(b)).len()
}

/// Two texts share at least four fifths of their shingles. For fewer
/// than two to the fiftieth shingles the quotient, rounded to double precision,
/// reaches 0.8 exactly when the fraction reaches four fifths.
pub open spec fn near_duplicate(a: Seq<char>, b: Seq<char>) -> bool {
    5 * common_shingles(a, b) >= 4 * total_shingles(a, b)
}

/// The texts of a list as a set.
pub(crate) fn set_of(list: &Vec<String>) -> (set: StringHashSet)
    ensures
        set@ == texts(list@).to_set(),
{
    let mut set = StringHashSet::new();
    proof {
        assert(set@ =~= texts(list@.take(0)).to_set());
    }
    for i in 0..list.len()
        invariant
            set@ == texts(list@.take(i as int)).to_set(),
    {
        let ghost seen = texts(list@.take(i as int));
        set.insert(list[i].clone());
        proof {
            assert(texts(list@.take(i + 1)) =~= seen.push(list@[i as int]@));
            lemma_set_after_push(seen, list@[i as int]@);
        }
    }
    proof {
        assert(list@.take(list@.len() as int) =~= list@);
    }
    set
}

pub(crate) proof fn lemma_set_after_push(s: Seq<Seq<char>>, x: Seq<char>)
    ensures
        s.push(x).to_set() == s.to_set().insert(x),
{
    let t = s.push(x);
    assert forall|y: Seq<char>| t.to_set().contains(y) == s.to_set().insert(x).contains(y) by {
        if s.contains(y) {
            let i = choose|i: int| 0 <= i < s.len() && s[i] == y;
            assert(t[i] == y);
        }
        assert(t[s.len() as int] == x);
        if t.contains(y) && y != x {
            let i = choose|i: int| 0 <= i < t.len() && t[i] == y;
            assert(s[i] == y);
        }
    }
    assert(t.to_set() =~= s.to_set().insert(x));
}

proof fn lemma_product_fits(a: usize, b: usize)
    ensures
        0 <= a * b <= u128::MAX,
{
    assert(0 <= a * b <= 0xffff_ffff_ffff_ffff * 0xffff_ffff_ffff_ffff) by (nonlinear_arith)
        requires
            0 <= a <= 0xffff_ffff_ffff_ffff,
            0 <= b <= 0xffff_ffff_ffff_ffff,
    ;
}

/// The shingles that stand in both texts, and those that stand in either, are the
/// ones counted, each once; a text has as many as it shares and does not share.
pub proof fn overlap_counts_shingles_once(a: Seq<char>, b: Seq<char>)
    ensures
        common_shingles(a, b) == Set::new(
            |x: Seq<char>| shingled(a).contains(x) && shingled(b).contains(x),
        ).len(),
        total_shingles(a, b) == Set::new(
            |x: Seq<char>| shingled(a).contains(x) || shingled(b).contains(x),
        ).len(),
        common_shingles(a, b) + total_shingles(a, b) == shingled(a).to_set().len()
            + shingled(b).to_set().len(),
        0 < common_shingles(a, b) <==> exists|x: Seq<char>| #[trigger]
            shingled(a).contains(x) && shingled(b).contains(x),
{
    let (sa, sb) = (shingled(a).to_set(), shingled(b).to_set());
    let both = Set::new(|x: Seq<char>| shingled(a).contains(x) && shingled(b).contains(x));
    let either = Set::new(|x: Seq<char>| shingled(a).contains(x) || shingled(b).contains(x));
    assert(shingle_set(a).intersect(shingle_set(b)) =~= both);
    assert(shingle_set(a).union(shingle_set(b)) =~= either);
    assert(sa.intersect(sb) =~= both);
    assert(sa + sb =~= either);
    vstd::set_lib::lemma_set_intersect_union_lens(sa, sb);
    vstd::set_lib::lemma_len_subset(both, sa);
    if both.len() == 0 {
        assert forall|x: Seq<char>| !both.contains(x) by {
            vstd::set_lib::lemma_set_empty_equivalency_len(both);
        }
    }
    if exists|x: Seq<char>| #[trigger] shingled(a).contains(x) && shingled(b).contains(x) {
        let x = choose|x: Seq<char>| #[trigger] shingled(a).contains(x) && shingled(b).contains(x);
        assert(both.contains(x));
    }
    if 0 < both.len() {
        let x = both.choose();
        vstd::set_lib::lemma_set_empty_equivalency_len(both);
        assert(both.contains(x));
        assert(shingled(a).contains(x) && shingled(b).contains(x));
    }
}

/// Overlap does not depend on which text comes first.
pub proof fn overlap_is_symmetric(a: Seq<char>, b: Seq<char>)
    ensures
        common_shingles(a, b) == common_shingles(b, a),
        total_shingles(a, b) == total_shingles(b, a),
        near_duplicate(a, b) == near_duplicate(b, a),
{
    assert(shingle_set(a).intersect(shingle_set(b)) =~= shingle_set(b).intersect(shingle_set(a)));
    assert(shingle_set(a).union(shingle_set(b)) =~= shingle_set(b).union(shingle_set(a)));
}

/// Two texts share no more shingles than they have, and they have some: the
/// fraction lies between zero and one.
pub proof fn overlap_is_a_fraction(a: Seq<char>, b: Seq<char>)
    ensures
        common_shingles(a, b) <= total_shingles(a, b),
        0 < total_shingles(a, b),
{
    let sa = shingle_set(a);
    let sb = shingle_set(b);
    vstd::set_lib::lemma_len_subset(sa.intersect(sb), sa.union(sb));
    crate::text::pieces_hold_no_space(a);
    assert(sa.contains(shingled(a)[0]));
    assert(sa.union(sb).contains(shingled(a)[0]));
    if sa.union(sb).len() == 0 {
        assert(sa.union(sb) =~= Set::empty());
    }
}

/// A text overlaps itself wholly, so equal texts are near duplicates.
pub proof fn equal_texts_overlap_wholly(a: Seq<char>)
    ensures
        common_shingles(a, a) == total_shingles(a, a),
        near_duplicate(a, a),
{
    assert(shingle_set(a).intersect(shingle_set(a)) =~= shingle_set(a));
    assert(shingle_set(a).union(shingle_set(a)) =~= shingle_set(a));
}

/// The overlap of the shingles of two texts.
pub fn jaccard(a: &str, b: &str) -> (o: Overlap)
    ensures
        o.between(a@, b@),
        o.common <= o.total,
        0 < o.total,
{
    let first = shingles(a);
    let second = shingles(b);
    let left = set_of(&first);
    let mut either = set_of(&first);
    let mut both = StringHashSet::new();
    let ghost sa = shingle_set(a@);
    proof {
        assert(texts(second@.take(0)).to_set() =~= Set::<Seq<char>>::empty());
        assert(both@ =~= sa.intersect(Set::empty()));
        assert(either@ =~= sa.union(Set::empty()));
    }
    for i in 0..second.len()
        invariant
            left@ == sa,
            both@ == sa.intersect(texts(second@.take(i as int)).to_set()),
            either@ == sa.union(texts(second@.take(i as int)).to_set()),
    {
        let ghost seen = texts(second@.take(i as int));
        let ghost next = second@[i as int]@;
        proof {
            assert(texts(second@.take(i + 1)) =~= seen.push(next));
            lemma_set_after_push(seen, next);
        }
        if left.contains(second[i].as_str()) {
            both.insert(second[i].clone());
        }
        either.insert(second[i].clone());
        proof {
            assert(both@ =~= sa.intersect(seen.push(next).to_set()));
            assert(either@ =~= sa.union(seen.push(next).to_set()));
        }
    }
    proof {
        assert(second@.take(second@.len() as int) =~= second@);
        overlap_is_a_fraction(a@, b@);
    }
    Overlap { common: both.len(), total: either.len() }
}

} // verus!
