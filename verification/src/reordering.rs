//! The leakage check does not depend on the order of the cards, nor on that of the
//! probes of a card.

use vstd::prelude::*;
use vstd::seq_lib::lemma_multiset_commutative;

use crate::collection::pair_texts;
use crate::leakage::card_stems;
use crate::leakage::closest;
use crate::leakage::closest_is_one_fraction;
use crate::leakage::closest_own;
use crate::leakage::closest_own_is_one_fraction;
use crate::leakage::exact_count;
use crate::leakage::held_cards;
use crate::leakage::is_held;
use crate::leakage::leak_count;
use crate::leakage::near_count;
use crate::leakage::near_items;
use crate::leakage::probe_texts;
use crate::leakage::split_probes;
use crate::leakage::stems;
use crate::leakage::CorpusCard;
use crate::leakage::LeakageReport;
use crate::leakage::Stem;
use crate::order::lemma_same_items_contained;
use crate::order::lemma_same_items_mapped;
use crate::order::lemma_same_items_same_count;
use crate::overlap::near_duplicate;
use crate::overlap::same_fraction;
use crate::overlap::Overlap;
use crate::text::normalized;

verus! {

/// `pi` lists the numbers below `n`, each once.
pub open spec fn is_permutation(pi: Seq<int>, n: nat) -> bool {
    &&& pi.len() == n
    &&& pi.no_duplicates()
    &&& forall|i: int| 0 <= i < n ==> 0 <= #[trigger] pi[i] < n
}

/// Two cards ask the same and have the same probes, in whatever order.
pub open spec fn same_card(a: CorpusCard, b: CorpusCard) -> bool {
    &&& a.card_q@ == b.card_q@
    &&& pair_texts(a.probes@).to_multiset() == pair_texts(b.probes@).to_multiset()
}

/// The `i`-th card of `b` is the `pi[i]`-th of `a`, and it is held back where that
/// one is.
pub open spec fn reorders(
    a: Seq<CorpusCard>,
    held_a: Seq<bool>,
    b: Seq<CorpusCard>,
    held_b: Seq<bool>,
    pi: Seq<int>,
) -> bool {
    &&& is_permutation(pi, a.len())
    &&& b.len() == a.len()
    &&& forall|i: int| 0 <= i < b.len() ==> same_card(a[pi[i]], #[trigger] b[i])
    &&& forall|i: int| 0 <= i < b.len() ==> is_held(held_a, #[trigger] pi[i]) == is_held(held_b, i)
}

/// The items of lists, one list after the other.
spec fn flat<T>(lists: Seq<Seq<T>>) -> Seq<T>
    decreases lists.len(),
{
    if lists.len() == 0 {
        Seq::empty()
    } else {
        flat(lists.drop_last()) + lists.last()
    }
}

proof fn lemma_flat_without<T>(lists: Seq<Seq<T>>, k: int)
    requires
        0 <= k < lists.len(),
    ensures
        flat(lists).to_multiset() == flat(lists.remove(k)).to_multiset().add(
            lists[k].to_multiset(),
        ),
    decreases lists.len(),
{
    let front = lists.drop_last();
    let last = lists.last();
    lemma_multiset_commutative(flat(front), last);
    if k == lists.len() - 1 {
        assert(lists.remove(k) =~= front);
    } else {
        let rest = lists.remove(k);
        lemma_flat_without(front, k);
        assert(rest.drop_last() =~= front.remove(k));
        assert(rest.last() == last);
        lemma_multiset_commutative(flat(front.remove(k)), last);
    }
    assert(flat(lists).to_multiset() =~= flat(lists.remove(k)).to_multiset().add(
        lists[k].to_multiset(),
    ));
}

proof fn lemma_flat_reordered<T>(x: Seq<Seq<T>>, y: Seq<Seq<T>>, pi: Seq<int>)
    requires
        is_permutation(pi, x.len()),
        y.len() == x.len(),
        forall|i: int|
            0 <= i < y.len() ==> x[pi[i]].to_multiset() == (#[trigger] y[i]).to_multiset(),
    ensures
        flat(x).to_multiset() == flat(y).to_multiset(),
    decreases x.len(),
{
    if x.len() > 0 {
        let last = x.len() - 1;
        let k = pi[last];
        let rest = Seq::new(
            last as nat,
            |i: int|
                if pi[i] < k {
                    pi[i]
                } else {
                    pi[i] - 1
                },
        );
        let (x2, y2) = (x.remove(k), y.remove(last));
        assert forall|i: int| 0 <= i < last implies 0 <= #[trigger] rest[i] < last by {
            assert(pi[i] != k);
            assert(0 <= pi[i] < x.len());
        }
        assert forall|i: int, j: int| 0 <= i < last && 0 <= j < last && i != j implies rest[i]
            != rest[j] by {
            assert(pi[i] != k && pi[j] != k && pi[i] != pi[j]);
        }
        assert forall|i: int| 0 <= i < y2.len() implies x2[rest[i]].to_multiset() == (
        #[trigger] y2[i]).to_multiset() by {
            assert(pi[i] != k);
            assert(y2[i] == y[i]);
            assert(x2[rest[i]] == x[pi[i]]);
        }
        lemma_flat_reordered(x2, y2, rest);
        lemma_flat_without(x, k);
        lemma_flat_without(y, last);
        assert(x[pi[last]].to_multiset() == y[last].to_multiset());
    } else {
        assert(x =~= y);
    }
}

/// What each card adds to the held-back card questions.
spec fn card_lists(corpus: Seq<CorpusCard>, heldback: Seq<bool>) -> Seq<Seq<Seq<char>>> {
    Seq::new(
        corpus.len(),
        |i: int|
            if is_held(heldback, i) {
                seq![normalized(corpus[i].card_q@)]
            } else {
                Seq::<Seq<char>>::empty()
            },
    )
}

/// What each card adds to the probe questions of one side of the split.
spec fn probe_lists(corpus: Seq<CorpusCard>, heldback: Seq<bool>, held: bool) -> Seq<Seq<Seq<char>>> {
    Seq::new(
        corpus.len(),
        |i: int|
            if is_held(heldback, i) == held {
                probe_texts(corpus[i])
            } else {
                Seq::<Seq<char>>::empty()
            },
    )
}

/// What each card adds to the stems.
spec fn stem_lists(corpus: Seq<CorpusCard>) -> Seq<Seq<Stem>> {
    Seq::new(corpus.len(), |i: int| card_stems(corpus[i]))
}

proof fn lemma_lists(corpus: Seq<CorpusCard>, heldback: Seq<bool>, held: bool)
    ensures
        held_cards(corpus, heldback) == flat(card_lists(corpus, heldback)),
        split_probes(corpus, heldback, held) == flat(probe_lists(corpus, heldback, held)),
        stems(corpus) == flat(stem_lists(corpus)),
    decreases corpus.len(),
{
    if corpus.len() > 0 {
        let front = corpus.drop_last();
        lemma_lists(front, heldback, held);
        assert(card_lists(corpus, heldback).drop_last() =~= card_lists(front, heldback));
        assert(probe_lists(corpus, heldback, held).drop_last() =~= probe_lists(
            front,
            heldback,
            held,
        ));
        assert(stem_lists(corpus).drop_last() =~= stem_lists(front));
        assert(held_cards(corpus, heldback) =~= flat(card_lists(corpus, heldback)));
        assert(split_probes(corpus, heldback, held) =~= flat(probe_lists(corpus, heldback, held)));
    }
}

/// The same cards have the same probe questions and stems.
proof fn lemma_same_card(a: CorpusCard, b: CorpusCard)
    requires
        same_card(a, b),
    ensures
        probe_texts(a).to_multiset() == probe_texts(b).to_multiset(),
        card_stems(a).to_multiset() == card_stems(b).to_multiset(),
{
    let (x, y) = (pair_texts(a.probes@), pair_texts(b.probes@));
    let question = |p: (Seq<char>, Seq<char>)| normalized(p.0);
    let stem = |p: (Seq<char>, Seq<char>)|
        Stem { probe: normalized(p.0), card: normalized(a.card_q@), answer: normalized(p.1) };
    lemma_same_items_mapped(x, y, question);
    lemma_same_items_mapped(x, y, stem);
    assert(x.map_values(question) =~= probe_texts(a));
    assert(y.map_values(question) =~= probe_texts(b));
    assert(x.map_values(stem) =~= card_stems(a));
    assert(y.map_values(stem) =~= card_stems(b));
}

/// A reordered corpus has the same texts on each side of the split, in another
/// order.
proof fn lemma_same_texts(
    a: Seq<CorpusCard>,
    held_a: Seq<bool>,
    b: Seq<CorpusCard>,
    held_b: Seq<bool>,
    pi: Seq<int>,
    held: bool,
)
    requires
        reorders(a, held_a, b, held_b, pi),
    ensures
        held_cards(a, held_a).to_multiset() == held_cards(b, held_b).to_multiset(),
        split_probes(a, held_a, held).to_multiset() == split_probes(b, held_b, held).to_multiset(),
        stems(a).to_multiset() == stems(b).to_multiset(),
{
    lemma_lists(a, held_a, held);
    lemma_lists(b, held_b, held);
    let (x, y) = (card_lists(a, held_a), card_lists(b, held_b));
    assert forall|i: int| 0 <= i < y.len() implies x[pi[i]].to_multiset() == (
    #[trigger] y[i]).to_multiset() by {
        assert(same_card(a[pi[i]], b[i]));
        assert(is_held(held_a, pi[i]) == is_held(held_b, i));
    }
    lemma_flat_reordered(x, y, pi);
    let (x, y) = (probe_lists(a, held_a, held), probe_lists(b, held_b, held));
    assert forall|i: int| 0 <= i < y.len() implies x[pi[i]].to_multiset() == (
    #[trigger] y[i]).to_multiset() by {
        lemma_same_card(a[pi[i]], b[i]);
        assert(is_held(held_a, pi[i]) == is_held(held_b, i));
    }
    lemma_flat_reordered(x, y, pi);
    let (x, y) = (stem_lists(a), stem_lists(b));
    assert forall|i: int| 0 <= i < y.len() implies x[pi[i]].to_multiset() == (
    #[trigger] y[i]).to_multiset() by {
        lemma_same_card(a[pi[i]], b[i]);
    }
    lemma_flat_reordered(x, y, pi);
}

proof fn lemma_near_without(probes: Seq<Seq<char>>, i: int, items: Seq<Seq<char>>)
    requires
        0 <= i < probes.len(),
    ensures
        near_count(probes, items) == near_count(probes.remove(i), items) + near_items(
            probes[i],
            items,
        ),
    decreases probes.len(),
{
    let front = probes.drop_last();
    if i == probes.len() - 1 {
        assert(probes.remove(i) =~= front);
    } else {
        lemma_near_without(front, i, items);
        assert(probes.remove(i).drop_last() =~= front.remove(i));
        assert(probes.remove(i).last() == probes.last());
    }
}

proof fn lemma_near_reordered(
    p: Seq<Seq<char>>,
    q: Seq<Seq<char>>,
    items: Seq<Seq<char>>,
    others: Seq<Seq<char>>,
)
    requires
        p.to_multiset() == q.to_multiset(),
        items.to_multiset() == others.to_multiset(),
    ensures
        near_count(p, items) == near_count(q, others),
    decreases p.len(),
{
    p.to_multiset_ensures();
    q.to_multiset_ensures();
    if p.len() > 0 {
        let last = p.len() - 1;
        lemma_same_items_contained(p, q, last);
        let i = choose|i: int| 0 <= i < q.len() && q[i] == p[last];
        assert(p.remove(last).to_multiset() =~= q.remove(i).to_multiset());
        lemma_near_reordered(p.remove(last), q.remove(i), items, others);
        lemma_near_without(p, last, items);
        lemma_near_without(q, i, others);
        lemma_same_items_same_count(items, others, |t: Seq<char>| near_duplicate(p[last], t));
    }
}

proof fn lemma_closest_reordered(
    best: Overlap,
    p: Seq<Seq<char>>,
    items: Seq<Seq<char>>,
    q: Seq<Seq<char>>,
    others: Seq<Seq<char>>,
)
    requires
        closest(best, p, items),
        p.to_multiset() == q.to_multiset(),
        items.to_multiset() == others.to_multiset(),
    ensures
        closest(best, q, others),
{
    assert forall|i: int, j: int|
        #![trigger q[i], others[j]]
        0 <= i < q.len() && 0 <= j < others.len() implies best.bounds(q[i], others[j]) by {
        lemma_same_items_contained(q, p, i);
        lemma_same_items_contained(others, items, j);
        let k = choose|k: int| 0 <= k < p.len() && p[k] == q[i];
        let m = choose|m: int| 0 <= m < items.len() && items[m] == others[j];
        assert(best.bounds(p[k], items[m]));
    }
    if !best.nothing() {
        let (i, j) = choose|i: int, j: int|
            #![trigger p[i], items[j]]
            0 <= i < p.len() && 0 <= j < items.len() && best.between(p[i], items[j]);
        lemma_same_items_contained(p, q, i);
        lemma_same_items_contained(items, others, j);
        let k = choose|k: int| 0 <= k < q.len() && q[k] == p[i];
        let m = choose|m: int| 0 <= m < others.len() && others[m] == items[j];
        assert(best.between(q[k], others[m]));
    }
}

proof fn lemma_closest_own_reordered(best: Overlap, a: Seq<Stem>, b: Seq<Stem>)
    requires
        closest_own(best, a),
        a.to_multiset() == b.to_multiset(),
    ensures
        closest_own(best, b),
{
    assert forall|i: int| 0 <= i < b.len() implies best.bounds(
        (#[trigger] b[i]).probe,
        b[i].card,
    ) by {
        lemma_same_items_contained(b, a, i);
        let k = choose|k: int| 0 <= k < a.len() && a[k] == b[i];
        assert(best.bounds(a[k].probe, a[k].card));
    }
    if !best.nothing() {
        let i = choose|i: int|
            0 <= i < a.len() && best.between((#[trigger] a[i]).probe, a[i].card);
        lemma_same_items_contained(a, b, i);
        let k = choose|k: int| 0 <= k < b.len() && b[k] == a[i];
        assert(best.between(b[k].probe, b[k].card));
    }
}

proof fn lemma_exact_reordered(
    p: Seq<Seq<char>>,
    q: Seq<Seq<char>>,
    items: Seq<Seq<char>>,
    others: Seq<Seq<char>>,
)
    requires
        p.to_multiset() == q.to_multiset(),
        items.to_multiset() == others.to_multiset(),
    ensures
        exact_count(p, items) == exact_count(q, others),
{
    let here = |t: Seq<char>| items.contains(t);
    let there = |t: Seq<char>| others.contains(t);
    assert forall|t: Seq<char>| #[trigger] here(t) == there(t) by {
        if items.contains(t) {
            let i = choose|i: int| 0 <= i < items.len() && items[i] == t;
            lemma_same_items_contained(items, others, i);
        }
        if others.contains(t) {
            let i = choose|i: int| 0 <= i < others.len() && others[i] == t;
            lemma_same_items_contained(others, items, i);
        }
    }
    assert(here =~= there);
    lemma_same_items_same_count(p, q, here);
}

/// Reordering the cards, the split along with them, and the probes of each card
/// leaves what the leakage check finds as it is. Overlaps are the same as
/// fractions.
pub proof fn reordering_leaves_the_report(
    r: LeakageReport,
    s: LeakageReport,
    a: Seq<CorpusCard>,
    held_a: Seq<bool>,
    b: Seq<CorpusCard>,
    held_b: Seq<bool>,
    pi: Seq<int>,
)
    requires
        r.describes(a, held_a),
        s.describes(b, held_b),
        reorders(a, held_a, b, held_b, pi),
    ensures
        r.pairs_checked == s.pairs_checked,
        r.exact_duplicates == s.exact_duplicates,
        r.near_dup_vs_heldback_cards == s.near_dup_vs_heldback_cards,
        same_fraction(r.max_overlap_vs_heldback_cards, s.max_overlap_vs_heldback_cards),
        r.near_dup_vs_heldback_probes == s.near_dup_vs_heldback_probes,
        same_fraction(r.max_overlap_vs_heldback_probes, s.max_overlap_vs_heldback_probes),
        same_fraction(r.max_overlap_with_own_card, s.max_overlap_with_own_card),
        r.probes_containing_own_answer == s.probes_containing_own_answer,
        r.passed == s.passed,
{
    lemma_same_texts(a, held_a, b, held_b, pi, true);
    lemma_same_texts(a, held_a, b, held_b, pi, false);
    let (p, q) = (split_probes(a, held_a, false), split_probes(b, held_b, false));
    let (cards_a, cards_b) = (held_cards(a, held_a), held_cards(b, held_b));
    let (others_a, others_b) = (split_probes(a, held_a, true), split_probes(b, held_b, true));
    lemma_multiset_commutative(cards_a, others_a);
    lemma_multiset_commutative(cards_b, others_b);
    assert((cards_a + others_a).to_multiset() =~= (cards_b + others_b).to_multiset());
    p.to_multiset_ensures();
    q.to_multiset_ensures();
    (cards_a + others_a).to_multiset_ensures();
    (cards_b + others_b).to_multiset_ensures();
    lemma_exact_reordered(p, q, cards_a + others_a, cards_b + others_b);
    lemma_near_reordered(p, q, cards_a, cards_b);
    lemma_near_reordered(p, q, others_a, others_b);
    lemma_closest_reordered(s.max_overlap_vs_heldback_cards, q, cards_b, p, cards_a);
    closest_is_one_fraction(
        r.max_overlap_vs_heldback_cards,
        s.max_overlap_vs_heldback_cards,
        p,
        cards_a,
    );
    lemma_closest_reordered(s.max_overlap_vs_heldback_probes, q, others_b, p, others_a);
    closest_is_one_fraction(
        r.max_overlap_vs_heldback_probes,
        s.max_overlap_vs_heldback_probes,
        p,
        others_a,
    );
    lemma_closest_own_reordered(s.max_overlap_with_own_card, stems(b), stems(a));
    closest_own_is_one_fraction(
        r.max_overlap_with_own_card,
        s.max_overlap_with_own_card,
        stems(a),
    );
    lemma_same_items_same_count(
        stems(a),
        stems(b),
        |x: Stem| crate::text::occurs_in(x.answer, x.probe),
    );
    assert(leak_count(stems(a)) == leak_count(stems(b)));
}

} // verus!
