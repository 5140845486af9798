//! What the numbers of a leakage report count, said of the cards themselves.
//!
//! Each number is that of the places in the corpus where something stands. A probe's
//! place is the number of its card and its own number there.

use vstd::prelude::*;

use crate::counting::fan;
use crate::counting::lemma_fan_start;
use crate::counting::lemma_fan_step;
use crate::counting::lemma_filter_agree;
use crate::counting::picked_items_have_places;
use crate::counting::places;
use crate::leakage::card_stems;
use crate::leakage::exact_count;
use crate::leakage::held_cards;
use crate::leakage::lemma_card_is_listed;
use crate::leakage::lemma_contains_either;
use crate::leakage::lemma_counts;
use crate::leakage::lemma_no_near_pair;
use crate::leakage::lemma_probe_is_listed;
use crate::leakage::near_count;
use crate::leakage::near_items;
use crate::leakage::pair_count;
use crate::leakage::probe_texts;
use crate::leakage::split_probes;
use crate::leakage::stems;
use crate::leakage::CorpusCard;
use crate::leakage::LeakageReport;
use crate::leakage::Stem;
use crate::overlap::common_shingles;
use crate::overlap::near_duplicate;
use crate::overlap::overlap_counts_shingles_once;
use crate::overlap::overlap_is_a_fraction;
use crate::overlap::total_shingles;
use crate::overlap::Overlap;
use crate::text::containing_is_having_around;
use crate::text::normalized;
use crate::text::occurs_in;
use crate::text::shingled;

verus! {

/// Card `i` is held back.
pub open spec fn held_at(heldback: Seq<bool>, i: int) -> bool {
    0 <= i < heldback.len() && heldback[i]
}

/// There is a probe `j` of card `i`.
pub open spec fn has_probe(corpus: Seq<CorpusCard>, i: int, j: int) -> bool {
    0 <= i < corpus.len() && 0 <= j < corpus[i].probes@.len()
}

/// The normalized question of probe `j` of card `i`.
pub open spec fn probe_at(corpus: Seq<CorpusCard>, i: int, j: int) -> Seq<char> {
    normalized(corpus[i].probes@[j].0@)
}

/// The normalized answer of probe `j` of card `i`.
pub open spec fn answer_at(corpus: Seq<CorpusCard>, i: int, j: int) -> Seq<char> {
    normalized(corpus[i].probes@[j].1@)
}

/// The normalized question of card `i`.
pub open spec fn card_at(corpus: Seq<CorpusCard>, i: int) -> Seq<char> {
    normalized(corpus[i].card_q@)
}

/// The places of the probes on one side of the split that satisfy a predicate.
pub open spec fn probe_spots(
    corpus: Seq<CorpusCard>,
    heldback: Seq<bool>,
    held: bool,
    p: spec_fn(Seq<char>) -> bool,
) -> Set<(int, int)> {
    Set::new(
        |x: (int, int)|
            has_probe(corpus, x.0, x.1) && held_at(heldback, x.0) == held && p(
                probe_at(corpus, x.0, x.1),
            ),
    )
}

/// The places of the held-back cards that satisfy a predicate.
pub open spec fn card_spots(
    corpus: Seq<CorpusCard>,
    heldback: Seq<bool>,
    p: spec_fn(Seq<char>) -> bool,
) -> Set<int> {
    Set::new(|i: int| 0 <= i < corpus.len() && held_at(heldback, i) && p(card_at(corpus, i)))
}

/// Of the shingles that two texts have, at least four fifths are in both.
pub open spec fn four_fifths_shared(a: Seq<char>, b: Seq<char>) -> bool {
    5 * shared(a, b) >= 4 * in_all(a, b)
}

/// How many shingles two texts share.
pub open spec fn shared(a: Seq<char>, b: Seq<char>) -> nat {
    Set::new(|x: Seq<char>| shingled(a).contains(x) && shingled(b).contains(x)).len()
}

/// How many shingles two texts have.
pub open spec fn in_all(a: Seq<char>, b: Seq<char>) -> nat {
    Set::new(|x: Seq<char>| shingled(a).contains(x) || shingled(b).contains(x)).len()
}

/// The fraction is that of two texts.
pub open spec fn is_of(o: Overlap, a: Seq<char>, b: Seq<char>) -> bool {
    o.common == shared(a, b) && o.total == in_all(a, b)
}

/// The shared part of two texts is at most a fraction.
pub open spec fn within(o: Overlap, a: Seq<char>, b: Seq<char>) -> bool {
    shared(a, b) * o.total <= o.common * in_all(a, b)
}

/// A text is, to the letter, the question of a held-back card or of one of its
/// probes.
pub open spec fn is_held_text(corpus: Seq<CorpusCard>, heldback: Seq<bool>, t: Seq<char>) -> bool {
    ||| exists|k: int|
        0 <= k < corpus.len() && held_at(heldback, k) && t == #[trigger] card_at(corpus, k)
    ||| exists|k: int, m: int|
        has_probe(corpus, k, m) && held_at(heldback, k) && t == #[trigger] probe_at(corpus, k, m)
}

/// A text is made of something, the other text, and something more.
pub open spec fn stands_inside(part: Seq<char>, whole: Seq<char>) -> bool {
    exists|before: Seq<char>, behind: Seq<char>| whole == #[trigger] (before + part + behind)
}

proof fn lemma_probe_spots(
    corpus: Seq<CorpusCard>,
    heldback: Seq<bool>,
    held: bool,
    p: spec_fn(Seq<char>) -> bool,
    n: nat,
)
    requires
        n <= corpus.len(),
    ensures
        probe_spots(corpus.take(n as int), heldback, held, p).finite(),
        probe_spots(corpus.take(n as int), heldback, held, p).len() == split_probes(
            corpus.take(n as int),
            heldback,
            held,
        ).filter(p).len(),
    decreases n,
{
    let f = |i: int|
        if held_at(heldback, i) == held {
            places(probe_texts(corpus[i]), p)
        } else {
            Set::<int>::empty()
        };
    let here = corpus.take(n as int);
    assert(probe_spots(here, heldback, held, p) =~= fan(n, f));
    if n == 0 {
        reveal(Seq::filter);
        lemma_fan_start(f);
    } else {
        let m = (n - 1) as nat;
        lemma_probe_spots(corpus, heldback, held, p, m);
        assert(here.drop_last() =~= corpus.take(m as int));
        assert(probe_spots(corpus.take(m as int), heldback, held, p) =~= fan(m, f));
        picked_items_have_places(probe_texts(corpus[m as int]), p);
        lemma_fan_step(m, f);
        Seq::filter_distributes_over_add(
            split_probes(corpus.take(m as int), heldback, held),
            probe_texts(corpus[m as int]),
            p,
        );
    }
}

proof fn lemma_card_spots(
    corpus: Seq<CorpusCard>,
    heldback: Seq<bool>,
    p: spec_fn(Seq<char>) -> bool,
    n: nat,
)
    requires
        n <= corpus.len(),
    ensures
        card_spots(corpus.take(n as int), heldback, p).finite(),
        card_spots(corpus.take(n as int), heldback, p).len() == held_cards(
            corpus.take(n as int),
            heldback,
        ).filter(p).len(),
    decreases n,
{
    reveal(Seq::filter);
    let here = corpus.take(n as int);
    if n == 0 {
        assert(card_spots(here, heldback, p) =~= Set::empty());
    } else {
        let m = n - 1;
        let before = corpus.take(m);
        lemma_card_spots(corpus, heldback, p, m as nat);
        assert(here.drop_last() =~= before);
        let texts = held_cards(before, heldback);
        if held_at(heldback, m) {
            assert(texts.push(card_at(corpus, m)).drop_last() =~= texts);
            assert(held_cards(here, heldback) == texts.push(card_at(corpus, m)));
        }
        if held_at(heldback, m) && p(card_at(corpus, m)) {
            assert(card_spots(here, heldback, p) =~= card_spots(before, heldback, p).insert(m));
        } else {
            assert(card_spots(here, heldback, p) =~= card_spots(before, heldback, p));
        }
    }
}

/// The lists that are compared hold each probe of their side and each held-back
/// card once: whatever a predicate picks in them, it picks as often in the corpus.
pub proof fn lists_hold_their_texts_once(
    corpus: Seq<CorpusCard>,
    heldback: Seq<bool>,
    held: bool,
    p: spec_fn(Seq<char>) -> bool,
)
    ensures
        probe_spots(corpus, heldback, held, p).finite(),
        probe_spots(corpus, heldback, held, p).len() == split_probes(
            corpus,
            heldback,
            held,
        ).filter(p).len(),
        card_spots(corpus, heldback, p).finite(),
        card_spots(corpus, heldback, p).len() == held_cards(corpus, heldback).filter(p).len(),
{
    lemma_probe_spots(corpus, heldback, held, p, corpus.len());
    lemma_card_spots(corpus, heldback, p, corpus.len());
    assert(corpus.take(corpus.len() as int) =~= corpus);
}

/// A text stands in a list exactly where a predicate picks it.
proof fn lemma_contained_is_picked(s: Seq<Seq<char>>, t: Seq<char>)
    ensures
        s.contains(t) == (s.filter(|u: Seq<char>| u == t).len() > 0),
{
    let p = |u: Seq<char>| u == t;
    picked_items_have_places(s, p);
    if s.contains(t) {
        let i = choose|i: int| 0 <= i < s.len() && s[i] == t;
        assert(places(s, p).contains(i));
    }
    if s.filter(p).len() > 0 {
        vstd::set_lib::lemma_set_empty_equivalency_len(places(s, p));
        let i = places(s, p).choose();
        assert(places(s, p).contains(i));
        assert(s[i] == t);
    }
}

proof fn lemma_card_listed_iff(corpus: Seq<CorpusCard>, heldback: Seq<bool>, t: Seq<char>)
    ensures
        held_cards(corpus, heldback).contains(t) == exists|k: int|
            0 <= k < corpus.len() && held_at(heldback, k) && t == #[trigger] card_at(corpus, k),
{
    let p = |u: Seq<char>| u == t;
    lists_hold_their_texts_once(corpus, heldback, true, p);
    lemma_contained_is_picked(held_cards(corpus, heldback), t);
    let set = card_spots(corpus, heldback, p);
    vstd::set_lib::lemma_set_empty_equivalency_len(set);
    if set.len() > 0 {
        let k = set.choose();
        assert(set.contains(k));
        assert(t == card_at(corpus, k));
    }
    if exists|k: int|
        0 <= k < corpus.len() && held_at(heldback, k) && t == #[trigger] card_at(corpus, k) {
        let k = choose|k: int|
            0 <= k < corpus.len() && held_at(heldback, k) && t == #[trigger] card_at(corpus, k);
        assert(set.contains(k));
    }
}

proof fn lemma_probe_listed_iff(
    corpus: Seq<CorpusCard>,
    heldback: Seq<bool>,
    held: bool,
    t: Seq<char>,
)
    ensures
        split_probes(corpus, heldback, held).contains(t) == exists|k: int, m: int|
            has_probe(corpus, k, m) && held_at(heldback, k) == held && t == #[trigger] probe_at(
                corpus,
                k,
                m,
            ),
{
    let p = |u: Seq<char>| u == t;
    lists_hold_their_texts_once(corpus, heldback, held, p);
    lemma_contained_is_picked(split_probes(corpus, heldback, held), t);
    let set = probe_spots(corpus, heldback, held, p);
    vstd::set_lib::lemma_set_empty_equivalency_len(set);
    if set.len() > 0 {
        let x = set.choose();
        assert(set.contains(x));
        assert(t == probe_at(corpus, x.0, x.1));
    }
    if exists|k: int, m: int|
        has_probe(corpus, k, m) && held_at(heldback, k) == held && t == #[trigger] probe_at(
            corpus,
            k,
            m,
        ) {
        let (k, m) = choose|k: int, m: int|
            has_probe(corpus, k, m) && held_at(heldback, k) == held && t == #[trigger] probe_at(
                corpus,
                k,
                m,
            );
        assert(set.contains((k, m)));
    }
}

/// The exact duplicates are the probes of cards that are not held back which are,
/// to the letter, a held-back text.
pub proof fn exact_duplicates_are_counted(
    r: LeakageReport,
    corpus: Seq<CorpusCard>,
    heldback: Seq<bool>,
)
    requires
        r.describes(corpus, heldback),
    ensures
        r.exact_duplicates == probe_spots(
            corpus,
            heldback,
            false,
            |t: Seq<char>| is_held_text(corpus, heldback, t),
        ).len(),
{
    let probes = split_probes(corpus, heldback, false);
    let (cards, others) = (held_cards(corpus, heldback), split_probes(corpus, heldback, true));
    let listed = |t: Seq<char>| (cards + others).contains(t);
    let wanted = |t: Seq<char>| is_held_text(corpus, heldback, t);
    assert forall|i: int| 0 <= i < probes.len() implies listed(#[trigger] probes[i]) == wanted(
        probes[i],
    ) by {
        let t = probes[i];
        lemma_contains_either(cards, others, t);
        lemma_card_listed_iff(corpus, heldback, t);
        lemma_probe_listed_iff(corpus, heldback, true, t);
    }
    lemma_filter_agree(probes, listed, wanted);
    lists_hold_their_texts_once(corpus, heldback, false, wanted);
    assert(exact_count(probes, cards + others) == probes.filter(wanted).len());
}

proof fn lemma_stem_spots(corpus: Seq<CorpusCard>, p: spec_fn(Stem) -> bool, n: nat)
    requires
        n <= corpus.len(),
    ensures
        fan(n, |i: int| places(card_stems(corpus[i]), p)).finite(),
        fan(n, |i: int| places(card_stems(corpus[i]), p)).len() == stems(
            corpus.take(n as int),
        ).filter(p).len(),
    decreases n,
{
    let f = |i: int| places(card_stems(corpus[i]), p);
    let here = corpus.take(n as int);
    if n == 0 {
        reveal(Seq::filter);
        lemma_fan_start(f);
    } else {
        let m = (n - 1) as nat;
        lemma_stem_spots(corpus, p, m);
        assert(here.drop_last() =~= corpus.take(m as int));
        picked_items_have_places(card_stems(corpus[m as int]), p);
        lemma_fan_step(m, f);
        Seq::filter_distributes_over_add(
            stems(corpus.take(m as int)),
            card_stems(corpus[m as int]),
            p,
        );
    }
}

/// A probe counts as holding its own answer where its normalized question is made
/// of something, the normalized answer, and something more; held back or not.
pub proof fn own_answers_are_counted(r: LeakageReport, corpus: Seq<CorpusCard>, heldback: Seq<bool>)
    requires
        r.describes(corpus, heldback),
    ensures
        r.probes_containing_own_answer == Set::new(
            |x: (int, int)|
                has_probe(corpus, x.0, x.1) && stands_inside(
                    answer_at(corpus, x.0, x.1),
                    probe_at(corpus, x.0, x.1),
                ),
        ).len(),
{
    let p = |s: Stem| occurs_in(s.answer, s.probe);
    let f = |i: int| places(card_stems(corpus[i]), p);
    lemma_stem_spots(corpus, p, corpus.len());
    assert(corpus.take(corpus.len() as int) =~= corpus);
    let set = Set::new(
        |x: (int, int)|
            has_probe(corpus, x.0, x.1) && stands_inside(
                answer_at(corpus, x.0, x.1),
                probe_at(corpus, x.0, x.1),
            ),
    );
    assert forall|x: (int, int)| set.contains(x) == fan(corpus.len(), f).contains(x) by {
        if has_probe(corpus, x.0, x.1) {
            containing_is_having_around(
                answer_at(corpus, x.0, x.1),
                probe_at(corpus, x.0, x.1),
            );
            assert(card_stems(corpus[x.0])[x.1].answer == answer_at(corpus, x.0, x.1));
            assert(card_stems(corpus[x.0])[x.1].probe == probe_at(corpus, x.0, x.1));
        }
    }
    assert(set =~= fan(corpus.len(), f));
}

proof fn lemma_near_of_two(a: Seq<Seq<char>>, b: Seq<Seq<char>>, items: Seq<Seq<char>>)
    ensures
        near_count(a + b, items) == near_count(a, items) + near_count(b, items),
    decreases b.len(),
{
    if b.len() == 0 {
        assert(a + b =~= a);
    } else {
        lemma_near_of_two(a, b.drop_last(), items);
        assert((a + b).drop_last() =~= a + b.drop_last());
    }
}

proof fn lemma_near_fan<T>(
    probes: Seq<Seq<char>>,
    items: Seq<Seq<char>>,
    near: spec_fn(Seq<char>) -> Set<T>,
    n: nat,
)
    requires
        n <= probes.len(),
        forall|t: Seq<char>| (#[trigger] near(t)).finite() && near(t).len() == near_items(t, items),
    ensures
        fan(n, |j: int| near(probes[j])).finite(),
        fan(n, |j: int| near(probes[j])).len() == near_count(probes.take(n as int), items),
    decreases n,
{
    let f = |j: int| near(probes[j]);
    if n == 0 {
        lemma_fan_start(f);
    } else {
        let m = (n - 1) as nat;
        lemma_near_fan(probes, items, near, m);
        assert(probes.take(n as int).drop_last() =~= probes.take(m as int));
        assert(near(probes[m as int]).finite());
        lemma_fan_step(m, f);
    }
}

/// The near pairs of one card's probes.
spec fn near_of_card<T>(
    corpus: Seq<CorpusCard>,
    heldback: Seq<bool>,
    near: spec_fn(Seq<char>) -> Set<T>,
    i: int,
) -> Set<(int, T)> {
    if held_at(heldback, i) {
        Set::empty()
    } else {
        fan(probe_texts(corpus[i]).len(), |j: int| near(probe_texts(corpus[i])[j]))
    }
}

proof fn lemma_near_corpus<T>(
    corpus: Seq<CorpusCard>,
    heldback: Seq<bool>,
    items: Seq<Seq<char>>,
    near: spec_fn(Seq<char>) -> Set<T>,
    n: nat,
)
    requires
        n <= corpus.len(),
        forall|t: Seq<char>| (#[trigger] near(t)).finite() && near(t).len() == near_items(t, items),
    ensures
        fan(n, |i: int| near_of_card(corpus, heldback, near, i)).finite(),
        fan(n, |i: int| near_of_card(corpus, heldback, near, i)).len() == near_count(
            split_probes(corpus.take(n as int), heldback, false),
            items,
        ),
    decreases n,
{
    let f = |i: int| near_of_card(corpus, heldback, near, i);
    let here = corpus.take(n as int);
    if n == 0 {
        lemma_fan_start(f);
    } else {
        let m = (n - 1) as nat;
        let texts = probe_texts(corpus[m as int]);
        lemma_near_corpus(corpus, heldback, items, near, m);
        assert(here.drop_last() =~= corpus.take(m as int));
        lemma_near_fan(texts, items, near, texts.len());
        assert(texts.take(texts.len() as int) =~= texts);
        lemma_fan_step(m, f);
        lemma_near_of_two(split_probes(corpus.take(m as int), heldback, false), texts, items);
    }
}

proof fn lemma_four_fifths(a: Seq<char>, b: Seq<char>)
    ensures
        near_duplicate(a, b) == four_fifths_shared(a, b),
{
    overlap_counts_shingles_once(a, b);
}

/// The near duplicates of held-back cards are the pairs of a probe of a card that
/// is not held back and a held-back card whose questions share at least four fifths
/// of their shingles.
pub proof fn near_cards_are_counted(r: LeakageReport, corpus: Seq<CorpusCard>, heldback: Seq<bool>)
    requires
        r.describes(corpus, heldback),
    ensures
        r.near_dup_vs_heldback_cards == Set::new(
            |x: (int, (int, int))|
                {
                    &&& has_probe(corpus, x.0, x.1.0) && !held_at(heldback, x.0)
                    &&& 0 <= x.1.1 < corpus.len() && held_at(heldback, x.1.1)
                    &&& four_fifths_shared(
                        probe_at(corpus, x.0, x.1.0),
                        card_at(corpus, x.1.1),
                    )
                },
        ).len(),
{
    let cards = held_cards(corpus, heldback);
    let near = |t: Seq<char>|
        card_spots(corpus, heldback, |u: Seq<char>| near_duplicate(t, u));
    assert forall|t: Seq<char>| (#[trigger] near(t)).finite() && near(t).len() == near_items(
        t,
        cards,
    ) by {
        lists_hold_their_texts_once(
            corpus,
            heldback,
            true,
            |u: Seq<char>| near_duplicate(t, u),
        );
    }
    lemma_near_corpus(corpus, heldback, cards, near, corpus.len());
    assert(corpus.take(corpus.len() as int) =~= corpus);
    let counted = fan(corpus.len(), |i: int| near_of_card(corpus, heldback, near, i));
    let set = Set::new(
        |x: (int, (int, int))|
            {
                &&& has_probe(corpus, x.0, x.1.0) && !held_at(heldback, x.0)
                &&& 0 <= x.1.1 < corpus.len() && held_at(heldback, x.1.1)
                &&& four_fifths_shared(probe_at(corpus, x.0, x.1.0), card_at(corpus, x.1.1))
            },
    );
    assert forall|x: (int, (int, int))| set.contains(x) == counted.contains(x) by {
        lemma_four_fifths(probe_at(corpus, x.0, x.1.0), card_at(corpus, x.1.1));
        if has_probe(corpus, x.0, x.1.0) {
            assert(probe_texts(corpus[x.0])[x.1.0] == probe_at(corpus, x.0, x.1.0));
        }
    }
    assert(set =~= counted);
}

/// The near duplicates of held-back probes are the pairs of a probe of a card that
/// is not held back and a probe of a held-back card whose questions share at least
/// four fifths of their shingles.
pub proof fn near_probes_are_counted(r: LeakageReport, corpus: Seq<CorpusCard>, heldback: Seq<bool>)
    requires
        r.describes(corpus, heldback),
    ensures
        r.near_dup_vs_heldback_probes == Set::new(
            |x: (int, (int, (int, int)))|
                {
                    &&& has_probe(corpus, x.0, x.1.0) && !held_at(heldback, x.0)
                    &&& has_probe(corpus, x.1.1.0, x.1.1.1) && held_at(heldback, x.1.1.0)
                    &&& four_fifths_shared(
                        probe_at(corpus, x.0, x.1.0),
                        probe_at(corpus, x.1.1.0, x.1.1.1),
                    )
                },
        ).len(),
{
    let others = split_probes(corpus, heldback, true);
    let near = |t: Seq<char>|
        probe_spots(corpus, heldback, true, |u: Seq<char>| near_duplicate(t, u));
    assert forall|t: Seq<char>| (#[trigger] near(t)).finite() && near(t).len() == near_items(
        t,
        others,
    ) by {
        lists_hold_their_texts_once(
            corpus,
            heldback,
            true,
            |u: Seq<char>| near_duplicate(t, u),
        );
    }
    lemma_near_corpus(corpus, heldback, others, near, corpus.len());
    assert(corpus.take(corpus.len() as int) =~= corpus);
    let counted = fan(corpus.len(), |i: int| near_of_card(corpus, heldback, near, i));
    let set = Set::new(
        |x: (int, (int, (int, int)))|
            {
                &&& has_probe(corpus, x.0, x.1.0) && !held_at(heldback, x.0)
                &&& has_probe(corpus, x.1.1.0, x.1.1.1) && held_at(heldback, x.1.1.0)
                &&& four_fifths_shared(
                    probe_at(corpus, x.0, x.1.0),
                    probe_at(corpus, x.1.1.0, x.1.1.1),
                )
            },
    );
    assert forall|x: (int, (int, (int, int)))| set.contains(x) == counted.contains(x) by {
        lemma_four_fifths(probe_at(corpus, x.0, x.1.0), probe_at(corpus, x.1.1.0, x.1.1.1));
        if has_probe(corpus, x.0, x.1.0) {
            assert(probe_texts(corpus[x.0])[x.1.0] == probe_at(corpus, x.0, x.1.0));
        }
    }
    assert(set =~= counted);
}

/// Every probe of a card that is not held back is compared with every held-back
/// card and every probe of one.
pub proof fn all_pairs_are_checked(r: LeakageReport, corpus: Seq<CorpusCard>, heldback: Seq<bool>)
    requires
        r.describes(corpus, heldback),
    ensures
        r.pairs_checked == probe_spots(corpus, heldback, false, |t: Seq<char>| true).len() * (
        card_spots(corpus, heldback, |t: Seq<char>| true).len() + probe_spots(
            corpus,
            heldback,
            true,
            |t: Seq<char>| true,
        ).len()),
{
    let any = |t: Seq<char>| true;
    lists_hold_their_texts_once(corpus, heldback, false, any);
    lists_hold_their_texts_once(corpus, heldback, true, any);
    lemma_filter_all(split_probes(corpus, heldback, false));
    lemma_filter_all(split_probes(corpus, heldback, true));
    lemma_filter_all(held_cards(corpus, heldback));
}

proof fn lemma_filter_all(s: Seq<Seq<char>>)
    ensures
        s.filter(|t: Seq<char>| true) == s,
    decreases s.len(),
{
    reveal(Seq::filter);
    if s.len() > 0 {
        lemma_filter_all(s.drop_last());
        assert(s.drop_last().push(s.last()) =~= s);
    } else {
        assert(s.filter(|t: Seq<char>| true) =~= s);
    }
}

/// There are near duplicates exactly where the largest overlap reaches four fifths.
pub proof fn near_duplicates_show_in_the_largest_overlap(
    r: LeakageReport,
    corpus: Seq<CorpusCard>,
    heldback: Seq<bool>,
)
    requires
        r.describes(corpus, heldback),
    ensures
        r.near_dup_vs_heldback_cards > 0 <==> 5 * r.max_overlap_vs_heldback_cards.common >= 4
            * r.max_overlap_vs_heldback_cards.total,
        r.near_dup_vs_heldback_probes > 0 <==> 5 * r.max_overlap_vs_heldback_probes.common >= 4
            * r.max_overlap_vs_heldback_probes.total,
{
    let probes = split_probes(corpus, heldback, false);
    lemma_near_is_closest(
        r.max_overlap_vs_heldback_cards,
        probes,
        held_cards(corpus, heldback),
    );
    lemma_near_is_closest(
        r.max_overlap_vs_heldback_probes,
        probes,
        split_probes(corpus, heldback, true),
    );
}

proof fn lemma_near_is_closest(best: Overlap, probes: Seq<Seq<char>>, items: Seq<Seq<char>>)
    requires
        crate::leakage::closest(best, probes, items),
    ensures
        near_count(probes, items) > 0 <==> 5 * best.common >= 4 * best.total,
{
    lemma_no_near_pair(probes, items);
    if near_count(probes, items) > 0 {
        let (i, j) = choose|i: int, j: int|
            #![trigger probes[i], items[j]]
            0 <= i < probes.len() && 0 <= j < items.len() && near_duplicate(probes[i], items[j]);
        overlap_is_a_fraction(probes[i], items[j]);
        assert(best.bounds(probes[i], items[j]));
        let (c, t) = (
            common_shingles(probes[i], items[j]) as int,
            total_shingles(probes[i], items[j]) as int,
        );
        let (bc, bt) = (best.common as int, best.total as int);
        assert(5 * bc >= 4 * bt) by (nonlinear_arith)
            requires
                5 * c >= 4 * t,
                c * bt <= bc * t,
                0 < t,
                0 <= bt,
        {
            assert(5 * c * bt >= 4 * t * bt);
            assert(5 * bc * t >= 5 * c * bt);
            assert((5 * bc) * t >= (4 * bt) * t);
        }
    }
    if 5 * best.common >= 4 * best.total && !best.nothing() {
        let (i, j) = choose|i: int, j: int|
            #![trigger probes[i], items[j]]
            0 <= i < probes.len() && 0 <= j < items.len() && best.between(probes[i], items[j]);
        assert(near_duplicate(probes[i], items[j]));
    }
}

/// The largest overlaps bound every pair that is compared, as fractions: probes that
/// are not held back with held-back cards and their probes, and every probe with
/// its own card.
pub proof fn no_overlap_exceeds_the_largest(
    r: LeakageReport,
    corpus: Seq<CorpusCard>,
    heldback: Seq<bool>,
    i: int,
    j: int,
)
    requires
        r.describes(corpus, heldback),
        has_probe(corpus, i, j),
    ensures
        r.max_overlap_with_own_card.total > 0,
        r.max_overlap_vs_heldback_cards.total > 0,
        r.max_overlap_vs_heldback_probes.total > 0,
        within(r.max_overlap_with_own_card, probe_at(corpus, i, j), card_at(corpus, i)),
        !held_at(heldback, i) ==> forall|k: int|
            0 <= k < corpus.len() && held_at(heldback, k)
                ==> within(
                r.max_overlap_vs_heldback_cards,
                probe_at(corpus, i, j),
                #[trigger] card_at(corpus, k),
            ),
        !held_at(heldback, i) ==> forall|k: int, m: int|
            has_probe(corpus, k, m) && held_at(heldback, k)
                ==> within(
                r.max_overlap_vs_heldback_probes,
                probe_at(corpus, i, j),
                #[trigger] probe_at(corpus, k, m),
            ),
{
    let probes = split_probes(corpus, heldback, false);
    let (cards, others) = (held_cards(corpus, heldback), split_probes(corpus, heldback, true));
    lemma_stem_is_listed(corpus, i, j);
    let all = stems(corpus);
    let n = choose|n: int|
        0 <= n < all.len() && all[n].probe == probe_at(corpus, i, j) && (#[trigger] all[n]).card
            == card_at(corpus, i);
    assert(r.max_overlap_with_own_card.bounds(all[n].probe, all[n].card));
    lemma_within(probe_at(corpus, i, j), card_at(corpus, i));
    lemma_totals_are_positive(r, corpus, heldback);
    if !held_at(heldback, i) {
        lemma_probe_is_listed(corpus, heldback, i, j);
        let a = choose|a: int| 0 <= a < probes.len() && probes[a] == probe_at(corpus, i, j);
        assert forall|k: int| 0 <= k < corpus.len() && held_at(heldback, k) implies
            within(
            r.max_overlap_vs_heldback_cards,
            probe_at(corpus, i, j),
            #[trigger] card_at(corpus, k),
        ) by {
            lemma_card_is_listed(corpus, heldback, k);
            let b = choose|b: int| 0 <= b < cards.len() && cards[b] == card_at(corpus, k);
            assert(r.max_overlap_vs_heldback_cards.bounds(probes[a], cards[b]));
            lemma_within(probes[a], cards[b]);
        }
        assert forall|k: int, m: int| has_probe(corpus, k, m) && held_at(heldback, k) implies
            within(
            r.max_overlap_vs_heldback_probes,
            probe_at(corpus, i, j),
            #[trigger] probe_at(corpus, k, m),
        ) by {
            lemma_probe_is_listed(corpus, heldback, k, m);
            let b = choose|b: int| 0 <= b < others.len() && others[b] == probe_at(corpus, k, m);
            assert(r.max_overlap_vs_heldback_probes.bounds(probes[a], others[b]));
            lemma_within(probes[a], others[b]);
        }
    }
}

proof fn lemma_within(a: Seq<char>, b: Seq<char>)
    ensures
        shared(a, b) == common_shingles(a, b),
        in_all(a, b) == total_shingles(a, b),
{
    overlap_counts_shingles_once(a, b);
}

proof fn lemma_totals_are_positive(
    r: LeakageReport,
    corpus: Seq<CorpusCard>,
    heldback: Seq<bool>,
)
    requires
        r.describes(corpus, heldback),
    ensures
        r.max_overlap_with_own_card.total > 0,
        r.max_overlap_vs_heldback_cards.total > 0,
        r.max_overlap_vs_heldback_probes.total > 0,
{
    let probes = split_probes(corpus, heldback, false);
    let (cards, others) = (held_cards(corpus, heldback), split_probes(corpus, heldback, true));
    let all = stems(corpus);
    let own = r.max_overlap_with_own_card;
    if !own.nothing() {
        let n = choose|n: int|
            0 <= n < all.len() && own.between((#[trigger] all[n]).probe, all[n].card);
        overlap_is_a_fraction(all[n].probe, all[n].card);
    }
    let best = r.max_overlap_vs_heldback_cards;
    if !best.nothing() {
        let (a, b) = choose|a: int, b: int|
            #![trigger probes[a], cards[b]]
            0 <= a < probes.len() && 0 <= b < cards.len() && best.between(probes[a], cards[b]);
        overlap_is_a_fraction(probes[a], cards[b]);
    }
    let best = r.max_overlap_vs_heldback_probes;
    if !best.nothing() {
        let (a, b) = choose|a: int, b: int|
            #![trigger probes[a], others[b]]
            0 <= a < probes.len() && 0 <= b < others.len() && best.between(probes[a], others[b]);
        overlap_is_a_fraction(probes[a], others[b]);
    }
}

proof fn lemma_stem_is_listed(corpus: Seq<CorpusCard>, i: int, j: int)
    requires
        has_probe(corpus, i, j),
    ensures
        exists|n: int|
            0 <= n < stems(corpus).len() && stems(corpus)[n].probe == probe_at(corpus, i, j) && (
            #[trigger] stems(corpus)[n]).card == card_at(corpus, i),
    decreases corpus.len(),
{
    let front = corpus.drop_last();
    let before = stems(front);
    if i < front.len() {
        assert(front[i] == corpus[i]);
        lemma_stem_is_listed(front, i, j);
        let n = choose|n: int|
            0 <= n < before.len() && before[n].probe == probe_at(front, i, j) && (
            #[trigger] before[n]).card == card_at(front, i);
        assert(stems(corpus)[n] == before[n]);
    } else {
        let n = before.len() + j;
        assert(stems(corpus)[n] == card_stems(corpus[i])[j]);
    }
}

/// The largest overlap with held-back cards is that of some such pair, unless no
/// two share anything; likewise with held-back probes.
pub proof fn the_largest_overlap_is_one_of_a_pair(
    r: LeakageReport,
    corpus: Seq<CorpusCard>,
    heldback: Seq<bool>,
)
    requires
        r.describes(corpus, heldback),
    ensures
        r.max_overlap_vs_heldback_cards.common > 0 ==> exists|i: int, j: int, k: int|
            #![trigger probe_at(corpus, i, j), card_at(corpus, k)]
            has_probe(corpus, i, j) && !held_at(heldback, i) && 0 <= k < corpus.len() && held_at(
                heldback,
                k,
            ) && is_of(
                r.max_overlap_vs_heldback_cards,
                probe_at(corpus, i, j),
                card_at(corpus, k),
            ),
        r.max_overlap_vs_heldback_probes.common > 0 ==> exists|i: int, j: int, k: int, m: int|
            #![trigger probe_at(corpus, i, j), probe_at(corpus, k, m)]
            has_probe(corpus, i, j) && !held_at(heldback, i) && has_probe(corpus, k, m) && held_at(
                heldback,
                k,
            ) && is_of(
                r.max_overlap_vs_heldback_probes,
                probe_at(corpus, i, j),
                probe_at(corpus, k, m),
            ),
{
    let probes = split_probes(corpus, heldback, false);
    let (cards, others) = (held_cards(corpus, heldback), split_probes(corpus, heldback, true));
    let best = r.max_overlap_vs_heldback_cards;
    if best.common > 0 {
        let (a, b) = choose|a: int, b: int|
            #![trigger probes[a], cards[b]]
            0 <= a < probes.len() && 0 <= b < cards.len() && best.between(probes[a], cards[b]);
        lemma_probe_listed_iff(corpus, heldback, false, probes[a]);
        lemma_card_listed_iff(corpus, heldback, cards[b]);
        let (i, j) = choose|i: int, j: int|
            has_probe(corpus, i, j) && held_at(heldback, i) == false && probes[a]
                == #[trigger] probe_at(corpus, i, j);
        let k = choose|k: int|
            0 <= k < corpus.len() && held_at(heldback, k) && cards[b] == #[trigger] card_at(
                corpus,
                k,
            );
        lemma_within(probe_at(corpus, i, j), card_at(corpus, k));
        assert(is_of(best, probe_at(corpus, i, j), card_at(corpus, k)));
    }
    let best = r.max_overlap_vs_heldback_probes;
    if best.common > 0 {
        let (a, b) = choose|a: int, b: int|
            #![trigger probes[a], others[b]]
            0 <= a < probes.len() && 0 <= b < others.len() && best.between(probes[a], others[b]);
        lemma_probe_listed_iff(corpus, heldback, false, probes[a]);
        lemma_probe_listed_iff(corpus, heldback, true, others[b]);
        let (i, j) = choose|i: int, j: int|
            has_probe(corpus, i, j) && held_at(heldback, i) == false && probes[a]
                == #[trigger] probe_at(corpus, i, j);
        let (k, m) = choose|k: int, m: int|
            has_probe(corpus, k, m) && held_at(heldback, k) == true && others[b]
                == #[trigger] probe_at(corpus, k, m);
        lemma_within(probe_at(corpus, i, j), probe_at(corpus, k, m));
        assert(is_of(best, probe_at(corpus, i, j), probe_at(corpus, k, m)));
    }
}

/// The largest overlap of a probe with its own card is that of some probe, held back
/// or not, unless no probe shares anything with its card.
pub proof fn the_largest_own_overlap_is_that_of_a_probe(
    r: LeakageReport,
    corpus: Seq<CorpusCard>,
    heldback: Seq<bool>,
)
    requires
        r.describes(corpus, heldback),
    ensures
        r.max_overlap_with_own_card.common > 0 ==> exists|i: int, j: int|
            #![trigger probe_at(corpus, i, j)]
            has_probe(corpus, i, j) && is_of(
                r.max_overlap_with_own_card,
                probe_at(corpus, i, j),
                card_at(corpus, i),
            ),
{
    let best = r.max_overlap_with_own_card;
    if best.common > 0 {
        let all = stems(corpus);
        let n = choose|n: int|
            0 <= n < all.len() && best.between((#[trigger] all[n]).probe, all[n].card);
        lemma_stem_has_a_place(corpus, n);
        let (i, j) = choose|i: int, j: int|
            #![trigger probe_at(corpus, i, j)]
            has_probe(corpus, i, j) && all[n].probe == probe_at(corpus, i, j) && all[n].card
                == card_at(corpus, i);
        lemma_within(probe_at(corpus, i, j), card_at(corpus, i));
        assert(is_of(best, probe_at(corpus, i, j), card_at(corpus, i)));
    }
}

proof fn lemma_stem_has_a_place(corpus: Seq<CorpusCard>, n: int)
    requires
        0 <= n < stems(corpus).len(),
    ensures
        exists|i: int, j: int|
            #![trigger probe_at(corpus, i, j)]
            has_probe(corpus, i, j) && stems(corpus)[n].probe == probe_at(corpus, i, j) && stems(
                corpus,
            )[n].card == card_at(corpus, i),
    decreases corpus.len(),
{
    let front = corpus.drop_last();
    let before = stems(front);
    if n < before.len() {
        lemma_stem_has_a_place(front, n);
        let (i, j) = choose|i: int, j: int|
            #![trigger probe_at(front, i, j)]
            has_probe(front, i, j) && before[n].probe == probe_at(front, i, j) && before[n].card
                == card_at(front, i);
        assert(front[i] == corpus[i]);
        assert(stems(corpus)[n].probe == probe_at(corpus, i, j));
    } else {
        let (i, j) = (corpus.len() - 1, n - before.len());
        assert(stems(corpus)[n] == card_stems(corpus[i])[j]);
        assert(stems(corpus)[n].probe == probe_at(corpus, i, j));
    }
}

/// The check passes exactly when there is no probe of a card that is not held back
/// that is a held-back text or shares four fifths with a held-back card, and no
/// probe at all that holds its own answer.
pub proof fn passing_is_finding_nothing(
    r: LeakageReport,
    corpus: Seq<CorpusCard>,
    heldback: Seq<bool>,
)
    requires
        r.describes(corpus, heldback),
    ensures
        r.passed <==> {
            &&& forall|i: int, j: int|
                has_probe(corpus, i, j) && !held_at(heldback, i) ==> !is_held_text(
                    corpus,
                    heldback,
                    #[trigger] probe_at(corpus, i, j),
                )
            &&& forall|i: int, j: int, k: int|
                #![trigger probe_at(corpus, i, j), card_at(corpus, k)]
                has_probe(corpus, i, j) && !held_at(heldback, i) && 0 <= k < corpus.len()
                    && held_at(heldback, k) ==> !four_fifths_shared(
                    probe_at(corpus, i, j),
                    card_at(corpus, k),
                )
            &&& forall|i: int, j: int|
                has_probe(corpus, i, j) ==> !stands_inside(
                    answer_at(corpus, i, j),
                    #[trigger] probe_at(corpus, i, j),
                )
        },
{
    let wanted = |t: Seq<char>| is_held_text(corpus, heldback, t);
    let exact = probe_spots(corpus, heldback, false, wanted);
    let near = Set::new(
        |x: (int, (int, int))|
            {
                &&& has_probe(corpus, x.0, x.1.0) && !held_at(heldback, x.0)
                &&& 0 <= x.1.1 < corpus.len() && held_at(heldback, x.1.1)
                &&& four_fifths_shared(probe_at(corpus, x.0, x.1.0), card_at(corpus, x.1.1))
            },
    );
    let own = Set::new(
        |x: (int, int)|
            has_probe(corpus, x.0, x.1) && stands_inside(
                answer_at(corpus, x.0, x.1),
                probe_at(corpus, x.0, x.1),
            ),
    );
    exact_duplicates_are_counted(r, corpus, heldback);
    near_cards_are_counted(r, corpus, heldback);
    own_answers_are_counted(r, corpus, heldback);
    lists_hold_their_texts_once(corpus, heldback, false, wanted);
    lemma_near_set_is_finite(corpus, heldback);
    lemma_own_set_is_finite(corpus);
    vstd::set_lib::lemma_set_empty_equivalency_len(exact);
    vstd::set_lib::lemma_set_empty_equivalency_len(near);
    vstd::set_lib::lemma_set_empty_equivalency_len(own);
    if r.passed {
        assert forall|i: int, j: int| has_probe(corpus, i, j) && !held_at(
            heldback,
            i,
        ) implies !is_held_text(corpus, heldback, #[trigger] probe_at(corpus, i, j)) by {
            assert(!exact.contains((i, j)));
        }
        assert forall|i: int, j: int, k: int|
            #![trigger probe_at(corpus, i, j), card_at(corpus, k)]
            has_probe(corpus, i, j) && !held_at(heldback, i) && 0 <= k < corpus.len() && held_at(
                heldback,
                k,
            ) implies !four_fifths_shared(probe_at(corpus, i, j), card_at(corpus, k)) by {
            assert(!near.contains((i, (j, k))));
        }
        assert forall|i: int, j: int| has_probe(corpus, i, j) implies !stands_inside(
            answer_at(corpus, i, j),
            #[trigger] probe_at(corpus, i, j),
        ) by {
            assert(!own.contains((i, j)));
        }
    } else {
        if r.exact_duplicates > 0 {
            let x = exact.choose();
            assert(exact.contains(x));
            assert(is_held_text(corpus, heldback, probe_at(corpus, x.0, x.1)));
        } else if r.near_dup_vs_heldback_cards > 0 {
            let x = near.choose();
            assert(near.contains(x));
            assert(four_fifths_shared(probe_at(corpus, x.0, x.1.0), card_at(corpus, x.1.1)));
        } else {
            assert(r.probes_containing_own_answer > 0);
            let x = own.choose();
            assert(own.contains(x));
            assert(stands_inside(answer_at(corpus, x.0, x.1), probe_at(corpus, x.0, x.1)));
        }
    }
}

proof fn lemma_own_set_is_finite(corpus: Seq<CorpusCard>)
    ensures
        Set::new(
            |x: (int, int)|
                has_probe(corpus, x.0, x.1) && stands_inside(
                    answer_at(corpus, x.0, x.1),
                    probe_at(corpus, x.0, x.1),
                ),
        ).finite(),
{
    lists_hold_their_texts_once(corpus, Seq::empty(), false, |t: Seq<char>| true);
    let own = Set::new(
        |x: (int, int)|
            has_probe(corpus, x.0, x.1) && stands_inside(
                answer_at(corpus, x.0, x.1),
                probe_at(corpus, x.0, x.1),
            ),
    );
    vstd::set_lib::lemma_len_subset(
        own,
        probe_spots(corpus, Seq::empty(), false, |t: Seq<char>| true),
    );
}

proof fn lemma_near_set_is_finite(corpus: Seq<CorpusCard>, heldback: Seq<bool>)
    ensures
        Set::new(
            |x: (int, (int, int))|
                {
                    &&& has_probe(corpus, x.0, x.1.0) && !held_at(heldback, x.0)
                    &&& 0 <= x.1.1 < corpus.len() && held_at(heldback, x.1.1)
                    &&& four_fifths_shared(
                        probe_at(corpus, x.0, x.1.0),
                        card_at(corpus, x.1.1),
                    )
                },
        ).finite(),
{
    let cards = held_cards(corpus, heldback);
    let near = |t: Seq<char>|
        card_spots(corpus, heldback, |u: Seq<char>| near_duplicate(t, u));
    assert forall|t: Seq<char>| (#[trigger] near(t)).finite() && near(t).len() == near_items(
        t,
        cards,
    ) by {
        lists_hold_their_texts_once(
            corpus,
            heldback,
            true,
            |u: Seq<char>| near_duplicate(t, u),
        );
    }
    lemma_near_corpus(corpus, heldback, cards, near, corpus.len());
    let counted = fan(corpus.len(), |i: int| near_of_card(corpus, heldback, near, i));
    let set = Set::new(
        |x: (int, (int, int))|
            {
                &&& has_probe(corpus, x.0, x.1.0) && !held_at(heldback, x.0)
                &&& 0 <= x.1.1 < corpus.len() && held_at(heldback, x.1.1)
                &&& four_fifths_shared(probe_at(corpus, x.0, x.1.0), card_at(corpus, x.1.1))
            },
    );
    assert forall|x: (int, (int, int))| set.contains(x) implies counted.contains(x) by {
        lemma_four_fifths(probe_at(corpus, x.0, x.1.0), card_at(corpus, x.1.1));
        assert(probe_texts(corpus[x.0])[x.1.0] == probe_at(corpus, x.0, x.1.0));
    }
    vstd::set_lib::lemma_len_subset(set, counted);
}

/// The pairs to be checked are the probes of cards that are not held back times the
/// held-back cards and their probes.
pub proof fn pairs_are_probes_times_held_texts(corpus: Seq<CorpusCard>, heldback: Seq<bool>)
    ensures
        pair_count(corpus, heldback) == probe_spots(
            corpus,
            heldback,
            false,
            |t: Seq<char>| true,
        ).len() * (card_spots(corpus, heldback, |t: Seq<char>| true).len() + probe_spots(
            corpus,
            heldback,
            true,
            |t: Seq<char>| true,
        ).len()),
{
    let any = |t: Seq<char>| true;
    lemma_counts(corpus, heldback);
    lists_hold_their_texts_once(corpus, heldback, false, any);
    lists_hold_their_texts_once(corpus, heldback, true, any);
    lemma_filter_all(split_probes(corpus, heldback, false));
    lemma_filter_all(split_probes(corpus, heldback, true));
    lemma_filter_all(held_cards(corpus, heldback));
}

} // verus!
