//! Whether what the held-back cards ask leaks into the probes of the others.
//!
//! - Contamination: a probe of a card that is not held back repeats a held-back
//!   question. Exact repetitions, and near repetitions of a held-back *card*
//!   question, fail the check. Near repetitions of a held-back *probe* question
//!   are counted only: a generator that fills one template makes all its probes
//!   alike, and which fact a probe is about shows in its exact text.
//! - Synonym swap: how close a probe comes to the question of its own card.
//! - Answer in the stem: a probe whose question holds its own answer.

use vstd::prelude::*;

use crate::overlap::common_shingles;
use crate::overlap::equal_texts_overlap_wholly;
use crate::overlap::jaccard;
use crate::overlap::near_duplicate;
use crate::overlap::same_fraction;
use crate::overlap::set_of;
use crate::overlap::total_shingles;
use crate::overlap::Overlap;
use crate::text::contains;
use crate::text::normalize;
use crate::text::normalized;
use crate::text::occurs_in;
use crate::text::texts;

verus! {

/// One card of the corpus with the texts that the leakage check reads.
#[derive(Debug)]
pub struct CorpusCard {
    pub card_q: String,
    /// Each probe's question and answer.
    pub probes: Vec<(String, String)>,
}

/// The `i`-th card is held back.
pub open spec fn is_held(heldback: Seq<bool>, i: int) -> bool {
    i < heldback.len() && heldback[i]
}

/// The normalized probe questions of a card.
pub open spec fn probe_texts(card: CorpusCard) -> Seq<Seq<char>> {
    card.probes@.map_values(|p: (String, String)| normalized(p.0@))
}

/// The normalized questions of the held-back cards.
pub open spec fn held_cards(corpus: Seq<CorpusCard>, heldback: Seq<bool>) -> Seq<Seq<char>>
    decreases corpus.len(),
{
    if corpus.len() == 0 {
        Seq::empty()
    } else {
        let front = held_cards(corpus.drop_last(), heldback);
        if is_held(heldback, corpus.len() - 1) {
            front.push(normalized(corpus.last().card_q@))
        } else {
            front
        }
    }
}

/// The normalized probe questions of the cards that are held back (`held`), or
/// of those that are not.
pub open spec fn split_probes(
    corpus: Seq<CorpusCard>,
    heldback: Seq<bool>,
    held: bool,
) -> Seq<Seq<char>>
    decreases corpus.len(),
{
    if corpus.len() == 0 {
        Seq::empty()
    } else {
        let front = split_probes(corpus.drop_last(), heldback, held);
        if is_held(heldback, corpus.len() - 1) == held {
            front + probe_texts(corpus.last())
        } else {
            front
        }
    }
}

/// How many cards are held back.
pub open spec fn held_card_count(corpus: Seq<CorpusCard>, heldback: Seq<bool>) -> nat
    decreases corpus.len(),
{
    if corpus.len() == 0 {
        0
    } else {
        held_card_count(corpus.drop_last(), heldback) + if is_held(heldback, corpus.len() - 1) {
            1nat
        } else {
            0nat
        }
    }
}

/// How many probes the cards have that are held back (`held`), or that are not.
pub open spec fn split_probe_count(
    corpus: Seq<CorpusCard>,
    heldback: Seq<bool>,
    held: bool,
) -> nat
    decreases corpus.len(),
{
    if corpus.len() == 0 {
        0
    } else {
        split_probe_count(corpus.drop_last(), heldback, held) + if is_held(
            heldback,
            corpus.len() - 1,
        ) == held {
            corpus.last().probes@.len()
        } else {
            0
        }
    }
}

/// How many pairs of a probe that is not held back and a held-back item there
/// are.
pub open spec fn pair_count(corpus: Seq<CorpusCard>, heldback: Seq<bool>) -> nat {
    split_probe_count(corpus, heldback, false) * (held_card_count(corpus, heldback)
        + split_probe_count(corpus, heldback, true))
}

/// Whether the pairs of a probe that is not held back and a held-back item can be
/// counted.
pub fn pairs_fit(corpus: &Vec<CorpusCard>, heldback: &[bool]) -> (b: bool)
    ensures
        b == (pair_count(corpus@, heldback@) <= usize::MAX),
{
    let mut free: u128 = 0;
    let mut held: u128 = 0;
    for i in 0..corpus.len()
        invariant
            free == split_probe_count(corpus@.take(i as int), heldback@, false),
            held == held_card_count(corpus@.take(i as int), heldback@) + split_probe_count(
                corpus@.take(i as int),
                heldback@,
                true,
            ),
            free <= i * 0x1_0000_0000_0000_0000,
            held <= i * 0x1_0000_0000_0000_0000,
    {
        proof {
            assert(corpus@.take(i + 1).drop_last() =~= corpus@.take(i as int));
            assert(corpus@.take(i + 1).last() == corpus@[i as int]);
        }
        let probes: usize = corpus[i].probes.len();
        if i < heldback.len() && heldback[i] {
            held = held + 1 + probes as u128;
        } else {
            free = free + probes as u128;
        }
    }
    proof {
        assert(corpus@.take(corpus@.len() as int) =~= corpus@);
        assert(pair_count(corpus@, heldback@) == free * held);
        lemma_product_size(free as int, held as int);
    }
    if free == 0 || held == 0 {
        true
    } else if free > usize::MAX as u128 || held > usize::MAX as u128 {
        false
    } else {
        free * held <= usize::MAX as u128
    }
}

/// A product is at least each of its factors, unless one of them is zero, and it
/// fits where both factors are small.
proof fn lemma_product_size(a: int, b: int)
    requires
        0 <= a,
        0 <= b,
    ensures
        a == 0 || b == 0 ==> a * b == 0,
        a > 0 && b > 0 ==> a * b >= a && a * b >= b,
        a <= 0xffff_ffff_ffff_ffff && b <= 0xffff_ffff_ffff_ffff ==> 0 <= a * b <= u128::MAX,
{
    assert(a == 0 || b == 0 ==> a * b == 0) by (nonlinear_arith);
    assert(a > 0 && b > 0 ==> a * b >= a && a * b >= b) by (nonlinear_arith);
    if a <= 0xffff_ffff_ffff_ffff && b <= 0xffff_ffff_ffff_ffff {
        assert(0 <= a * b <= 0xffff_ffff_ffff_ffff * 0xffff_ffff_ffff_ffff) by (nonlinear_arith)
            requires
                0 <= a <= 0xffff_ffff_ffff_ffff,
                0 <= b <= 0xffff_ffff_ffff_ffff,
        ;
    }
}

pub(crate) proof fn lemma_counts(corpus: Seq<CorpusCard>, heldback: Seq<bool>)
    ensures
        held_cards(corpus, heldback).len() == held_card_count(corpus, heldback),
        split_probes(corpus, heldback, true).len() == split_probe_count(corpus, heldback, true),
        split_probes(corpus, heldback, false).len() == split_probe_count(corpus, heldback, false),
    decreases corpus.len(),
{
    if corpus.len() > 0 {
        lemma_counts(corpus.drop_last(), heldback);
    }
}

/// How many of `probes` repeat one of `items` exactly.
pub open spec fn exact_count(probes: Seq<Seq<char>>, items: Seq<Seq<char>>) -> nat {
    probes.filter(|p: Seq<char>| items.contains(p)).len()
}

/// How many of `items` are near duplicates of `probe`.
pub open spec fn near_items(probe: Seq<char>, items: Seq<Seq<char>>) -> nat {
    items.filter(|t: Seq<char>| near_duplicate(probe, t)).len()
}

/// How many pairs of a probe and an item are near duplicates.
pub open spec fn near_count(probes: Seq<Seq<char>>, items: Seq<Seq<char>>) -> nat
    decreases probes.len(),
{
    if probes.len() == 0 {
        0
    } else {
        near_count(probes.drop_last(), items) + near_items(probes.last(), items)
    }
}

/// `best` is the largest overlap of a probe with an item: it bounds all of them,
/// and it is one of them or nothing.
pub open spec fn closest(
    best: Overlap,
    probes: Seq<Seq<char>>,
    items: Seq<Seq<char>>,
) -> bool {
    &&& forall|i: int, j: int|
        #![trigger probes[i], items[j]]
        0 <= i < probes.len() && 0 <= j < items.len() ==> best.bounds(probes[i], items[j])
    &&& best.nothing() || exists|i: int, j: int|
        #![trigger probes[i], items[j]]
        0 <= i < probes.len() && 0 <= j < items.len() && best.between(probes[i], items[j])
}

/// A stored probe together with its own card's question and its own answer, all
/// normalized.
pub struct Stem {
    pub probe: Seq<char>,
    pub card: Seq<char>,
    pub answer: Seq<char>,
}

/// The stems of one card.
pub open spec fn card_stems(card: CorpusCard) -> Seq<Stem> {
    card.probes@.map_values(
        |p: (String, String)|
            Stem {
                probe: normalized(p.0@),
                card: normalized(card.card_q@),
                answer: normalized(p.1@),
            },
    )
}

/// The stems of all cards, held back or not.
pub open spec fn stems(corpus: Seq<CorpusCard>) -> Seq<Stem>
    decreases corpus.len(),
{
    if corpus.len() == 0 {
        Seq::empty()
    } else {
        stems(corpus.drop_last()) + card_stems(corpus.last())
    }
}

/// How many stems hold their own answer.
pub open spec fn leak_count(all: Seq<Stem>) -> nat {
    all.filter(|s: Stem| occurs_in(s.answer, s.probe)).len()
}

/// `best` is the largest overlap of a probe with its own card.
pub open spec fn closest_own(best: Overlap, all: Seq<Stem>) -> bool {
    &&& forall|i: int|
        0 <= i < all.len() ==> best.bounds((#[trigger] all[i]).probe, all[i].card)
    &&& best.nothing() || exists|i: int|
        0 <= i < all.len() && best.between((#[trigger] all[i]).probe, all[i].card)
}

/// What the leakage check found.
#[derive(Debug, Clone, Copy, PartialEq, Eq, Structural)]
pub struct LeakageReport {
    pub pairs_checked: usize,
    pub exact_duplicates: usize,
    pub near_dup_vs_heldback_cards: usize,
    pub max_overlap_vs_heldback_cards: Overlap,
    pub near_dup_vs_heldback_probes: usize,
    pub max_overlap_vs_heldback_probes: Overlap,
    /// The least distance of a probe from its own card is one minus this.
    pub max_overlap_with_own_card: Overlap,
    pub probes_containing_own_answer: usize,
    pub passed: bool,
}

/// The check passes: no exact repetition, no near repetition of a held-back
/// card question, no answer in its own stem.
pub open spec fn leakage_passes(corpus: Seq<CorpusCard>, heldback: Seq<bool>) -> bool {
    let probes = split_probes(corpus, heldback, false);
    let cards = held_cards(corpus, heldback);
    &&& exact_count(probes, cards + split_probes(corpus, heldback, true)) == 0
    &&& near_count(probes, cards) == 0
    &&& leak_count(stems(corpus)) == 0
}

impl LeakageReport {
    /// The report describes normalized texts: the probes that are not held back,
    /// the held-back card and probe questions, and all stems.
    pub open spec fn measures(
        self,
        probes: Seq<Seq<char>>,
        cards: Seq<Seq<char>>,
        others: Seq<Seq<char>>,
        all: Seq<Stem>,
    ) -> bool {
        &&& self.pairs_checked == probes.len() * (cards.len() + others.len())
        &&& self.exact_duplicates == exact_count(probes, cards + others)
        &&& self.near_dup_vs_heldback_cards == near_count(probes, cards)
        &&& closest(self.max_overlap_vs_heldback_cards, probes, cards)
        &&& self.near_dup_vs_heldback_probes == near_count(probes, others)
        &&& closest(self.max_overlap_vs_heldback_probes, probes, others)
        &&& closest_own(self.max_overlap_with_own_card, all)
        &&& self.probes_containing_own_answer == leak_count(all)
        &&& self.passed == (self.exact_duplicates == 0 && self.near_dup_vs_heldback_cards == 0
            && self.probes_containing_own_answer == 0)
    }

    /// The report describes `corpus` under the split `heldback`.
    pub open spec fn describes(self, corpus: Seq<CorpusCard>, heldback: Seq<bool>) -> bool {
        &&& self.measures(
            split_probes(corpus, heldback, false),
            held_cards(corpus, heldback),
            split_probes(corpus, heldback, true),
            stems(corpus),
        )
        &&& self.pairs_checked == pair_count(corpus, heldback)
        &&& self.passed == leakage_passes(corpus, heldback)
    }
}

/// Collects the normalized questions of the held-back cards.
fn collect_cards(corpus: &Vec<CorpusCard>, heldback: &[bool]) -> (out: Vec<String>)
    ensures
        texts(out@) == held_cards(corpus@, heldback@),
{
    let mut out: Vec<String> = Vec::new();
    proof {
        assert(texts(out@) =~= held_cards(corpus@.take(0), heldback@));
    }
    for i in 0..corpus.len()
        invariant
            texts(out@) == held_cards(corpus@.take(i as int), heldback@),
    {
        proof {
            assert(corpus@.take(i + 1).drop_last() =~= corpus@.take(i as int));
        }
        if i < heldback.len() && heldback[i] {
            let ghost before = texts(out@);
            let text = normalize(corpus[i].card_q.as_str());
            let ghost added = text@;
            out.push(text);
            proof {
                assert(texts(out@) =~= before.push(added));
            }
        }
    }
    proof {
        assert(corpus@.take(corpus@.len() as int) =~= corpus@);
    }
    out
}

/// Collects the normalized probe questions of one side of the split.
fn collect_probes(corpus: &Vec<CorpusCard>, heldback: &[bool], held: bool) -> (out: Vec<String>)
    ensures
        texts(out@) == split_probes(corpus@, heldback@, held),
{
    let mut out: Vec<String> = Vec::new();
    proof {
        assert(texts(out@) =~= split_probes(corpus@.take(0), heldback@, held));
    }
    for i in 0..corpus.len()
        invariant
            texts(out@) == split_probes(corpus@.take(i as int), heldback@, held),
    {
        proof {
            assert(corpus@.take(i + 1).drop_last() =~= corpus@.take(i as int));
        }
        if (i < heldback.len() && heldback[i]) == held {
            let ghost before = texts(out@);
            let card = &corpus[i];
            proof {
                assert(before + probe_texts(*card).take(0) =~= before);
            }
            for j in 0..card.probes.len()
                invariant
                    texts(out@) == before + probe_texts(*card).take(j as int),
            {
                let ghost so_far = texts(out@);
                let text = normalize(card.probes[j].0.as_str());
                let ghost added = text@;
                out.push(text);
                proof {
                    assert(texts(out@) =~= so_far.push(added));
                    assert(probe_texts(*card)[j as int] == added);
                    assert(probe_texts(*card).take(j + 1) =~= probe_texts(*card).take(
                        j as int,
                    ).push(added));
                    assert(texts(out@) =~= before + probe_texts(*card).take(j + 1));
                }
            }
            proof {
                assert(probe_texts(*card).take(card.probes@.len() as int) =~= probe_texts(*card));
            }
        }
    }
    proof {
        assert(corpus@.take(corpus@.len() as int) =~= corpus@);
    }
    out
}

fn count_exact(probes: &Vec<String>, cards: &Vec<String>, others: &Vec<String>) -> (n: usize)
    ensures
        n == exact_count(texts(probes@), texts(cards@) + texts(others@)),
{
    let ghost items = texts(cards@) + texts(others@);
    let held_cards = set_of(cards);
    let held_probes = set_of(others);
    let mut n: usize = 0;
    proof {
        reveal(Seq::filter);
    }
    for i in 0..probes.len()
        invariant
            items == texts(cards@) + texts(others@),
            held_cards@ == texts(cards@).to_set(),
            held_probes@ == texts(others@).to_set(),
            n <= i,
            n == exact_count(texts(probes@).take(i as int), items),
    {
        let ghost p = probes@[i as int]@;
        proof {
            reveal(Seq::filter);
            assert(texts(probes@).take(i + 1).drop_last() =~= texts(probes@).take(i as int));
            assert(texts(probes@).take(i + 1).last() == p);
            lemma_contains_either(texts(cards@), texts(others@), p);
        }
        if held_cards.contains(probes[i].as_str()) || held_probes.contains(probes[i].as_str()) {
            n = n + 1;
        }
    }
    proof {
        assert(texts(probes@).take(probes@.len() as int) =~= texts(probes@));
    }
    n
}

pub(crate) proof fn lemma_contains_either(a: Seq<Seq<char>>, b: Seq<Seq<char>>, x: Seq<char>)
    ensures
        (a + b).contains(x) == (a.contains(x) || b.contains(x)),
{
    let c = a + b;
    if a.contains(x) {
        let i = choose|i: int| 0 <= i < a.len() && a[i] == x;
        assert(c[i] == x);
    }
    if b.contains(x) {
        let i = choose|i: int| 0 <= i < b.len() && b[i] == x;
        assert(c[a.len() + i] == x);
    }
    if c.contains(x) {
        let i = choose|i: int| 0 <= i < c.len() && c[i] == x;
        if i < a.len() {
            assert(a[i] == x);
        } else {
            assert(b[i - a.len()] == x);
        }
    }
}

/// An overlap that bounds another which bounds that of two texts bounds it too.
proof fn lemma_bounds_chain(o: Overlap, best: Overlap, a: Seq<char>, b: Seq<char>)
    requires
        best.bounds(a, b),
        0 < best.total,
        0 < o.total,
        best.common * o.total <= o.common * best.total,
    ensures
        o.bounds(a, b),
{
    let c = common_shingles(a, b) as int;
    let t = total_shingles(a, b) as int;
    let (bc, bt) = (best.common as int, best.total as int);
    let (oc, ot) = (o.common as int, o.total as int);
    assert(c * ot <= oc * t) by (nonlinear_arith)
        requires
            c * bt <= bc * t,
            bc * ot <= oc * bt,
            0 < bt,
            0 < ot,
            0 <= c,
            0 <= t,
            0 <= bc,
            0 <= oc,
    {
        assert(c * bt * ot <= bc * t * ot);
        assert(bc * t * ot == bc * ot * t);
        assert(bc * ot * t <= oc * bt * t);
        assert(c * ot * bt <= oc * t * bt);
    }
}

/// How a list of probes compares with a list of items: how many pairs are near
/// duplicates, and the largest overlap of a pair.
fn compare(probes: &Vec<String>, items: &Vec<String>) -> (found: (usize, Overlap))
    requires
        probes@.len() * items@.len() <= usize::MAX,
    ensures
        found.0 == near_count(texts(probes@), texts(items@)),
        closest(found.1, texts(probes@), texts(items@)),
{
    let ghost ps = texts(probes@);
    let ghost ts = texts(items@);
    let mut near: usize = 0;
    let mut best: Overlap = Overlap { common: 0, total: 1 };
    proof {
        assert(near_count(ps.take(0), ts) == 0);
        reveal(Seq::filter);
    }
    for i in 0..probes.len()
        invariant
            ps == texts(probes@),
            ts == texts(items@),
            ps.len() * ts.len() <= usize::MAX,
            near == near_count(ps.take(i as int), ts),
            near <= i * ts.len(),
            0 < best.total,
            closest(best, ps.take(i as int), ts),
    {
        let ghost p = ps[i as int];
        let ghost near_before = near;
        let ghost seen = ps.take(i as int);
        proof {
            reveal(Seq::filter);
            assert((i + 1) * ts.len() <= ps.len() * ts.len()) by (nonlinear_arith)
                requires
                    0 <= i + 1 <= ps.len(),
                    0 <= ts.len(),
            ;
            assert((i + 1) * ts.len() == i * ts.len() + ts.len()) by (nonlinear_arith);
            assert(near_items(p, ts.take(0)) == 0);
        }
        for j in 0..items.len()
            invariant
                0 <= i < ps.len(),
                ps == texts(probes@),
                ts == texts(items@),
                p == ps[i as int],
                seen == ps.take(i as int),
                i * ts.len() + ts.len() <= usize::MAX,
                near_before <= i * ts.len(),
                near == near_before + near_items(p, ts.take(j as int)),
                near <= near_before + j,
                0 < best.total,
                forall|a: int, b: int|
                    #![trigger seen[a], ts[b]]
                    0 <= a < seen.len() && 0 <= b < ts.len() ==> best.bounds(seen[a], ts[b]),
                forall|b: int| 0 <= b < j ==> best.bounds(p, #[trigger] ts[b]),
                best.nothing() || (exists|b: int|
                    0 <= b < j && best.between(p, #[trigger] ts[b])) || (exists|a: int, b: int|
                    #![trigger seen[a], ts[b]]
                    0 <= a < seen.len() && 0 <= b < ts.len() && best.between(seen[a], ts[b])),
        {
            let ghost t = ts[j as int];
            let o = jaccard(probes[i].as_str(), items[j].as_str());
            let ghost best_before = best;
            if o.exceeds(best) {
                best = o;
            }
            if o.is_near() {
                near = near + 1;
            }
            proof {
                reveal(Seq::filter);
                assert(ts.take(j + 1).drop_last() =~= ts.take(j as int));
                assert(ts.take(j + 1).last() == t);
                assert(near_duplicate(p, t) == (5 * o.common >= 4 * o.total));
                if best == o {
                    assert(best_before.common * o.total <= o.common * best_before.total);
                    assert forall|a: int, b: int|
                        #![trigger seen[a], ts[b]]
                        0 <= a < seen.len() && 0 <= b < ts.len() implies best.bounds(
                        seen[a],
                        ts[b],
                    ) by {
                        lemma_bounds_chain(o, best_before, seen[a], ts[b]);
                    }
                    assert forall|b: int| 0 <= b < j + 1 implies best.bounds(p, #[trigger] ts[b]) by {
                        if b < j {
                            lemma_bounds_chain(o, best_before, p, ts[b]);
                        }
                    }
                    assert(best.between(p, ts[j as int]));
                } else {
                    assert(best == best_before);
                    assert(best.bounds(p, t));
                }
            }
        }
        proof {
            assert(ts.take(ts.len() as int) =~= ts);
            let next = ps.take(i + 1);
            assert(next.drop_last() =~= seen);
            assert(next.last() == p);
            assert forall|a: int, b: int|
                #![trigger next[a], ts[b]]
                0 <= a < next.len() && 0 <= b < ts.len() implies best.bounds(next[a], ts[b]) by {
                if a < i {
                    assert(next[a] == seen[a]);
                } else {
                    assert(next[a] == p);
                }
            }
            if !best.nothing() {
                if exists|b: int| 0 <= b < ts.len() && best.between(p, #[trigger] ts[b]) {
                    let b = choose|b: int| 0 <= b < ts.len() && best.between(p, #[trigger] ts[b]);
                    assert(best.between(next[i as int], ts[b]));
                } else {
                    let (a, b) = choose|a: int, b: int|
                        #![trigger seen[a], ts[b]]
                        0 <= a < seen.len() && 0 <= b < ts.len() && best.between(seen[a], ts[b]);
                    assert(best.between(next[a], ts[b]));
                }
            }
        }
    }
    proof {
        assert(ps.take(ps.len() as int) =~= ps);
    }
    (near, best)
}

/// Collects the normalized stems of all probes, in the order of the corpus.
fn collect_stems(corpus: &Vec<CorpusCard>) -> (out: Vec<(String, String, String)>)
    ensures
        stem_views(out@) == stems(corpus@),
{
    let mut out: Vec<(String, String, String)> = Vec::new();
    proof {
        assert(stem_views(out@) =~= stems(corpus@.take(0)));
    }
    for i in 0..corpus.len()
        invariant
            stem_views(out@) == stems(corpus@.take(i as int)),
    {
        let card = &corpus[i];
        let ghost before = stem_views(out@);
        proof {
            assert(corpus@.take(i + 1).drop_last() =~= corpus@.take(i as int));
            assert(before + card_stems(*card).take(0) =~= before);
        }
        for j in 0..card.probes.len()
            invariant
                stem_views(out@) == before + card_stems(*card).take(j as int),
        {
            let ghost so_far = stem_views(out@);
            let stem = (
                normalize(card.probes[j].0.as_str()),
                normalize(card.card_q.as_str()),
                normalize(card.probes[j].1.as_str()),
            );
            let ghost added = Stem { probe: stem.0@, card: stem.1@, answer: stem.2@ };
            out.push(stem);
            proof {
                assert(stem_views(out@) =~= so_far.push(added));
                assert(card_stems(*card)[j as int] == added);
                assert(card_stems(*card).take(j + 1) =~= card_stems(*card).take(j as int).push(
                    added,
                ));
                assert(stem_views(out@) =~= before + card_stems(*card).take(j + 1));
            }
        }
        proof {
            assert(card_stems(*card).take(card.probes@.len() as int) =~= card_stems(*card));
        }
    }
    proof {
        assert(corpus@.take(corpus@.len() as int) =~= corpus@);
    }
    out
}

/// Stems as they are compared: probe, card and answer.
pub open spec fn stem_views(list: Seq<(String, String, String)>) -> Seq<Stem> {
    list.map_values(
        |s: (String, String, String)| Stem { probe: s.0@, card: s.1@, answer: s.2@ },
    )
}

/// How the stems fare: how many hold their own answer, and the largest overlap
/// of a probe with its own card.
fn check_stems(list: &Vec<(String, String, String)>) -> (found: (usize, Overlap))
    ensures
        found.0 == leak_count(stem_views(list@)),
        closest_own(found.1, stem_views(list@)),
{
    let ghost all = stem_views(list@);
    let mut leaks: usize = 0;
    let mut best: Overlap = Overlap { common: 0, total: 1 };
    proof {
        reveal(Seq::filter);
    }
    for i in 0..list.len()
        invariant
            all == stem_views(list@),
            leaks <= i,
            leaks == leak_count(all.take(i as int)),
            0 < best.total,
            closest_own(best, all.take(i as int)),
    {
        let ghost seen = all.take(i as int);
        let ghost next = all.take(i + 1);
        let ghost stem = all[i as int];
        let ghost best_before = best;
        let o = jaccard(list[i].0.as_str(), list[i].1.as_str());
        if o.exceeds(best) {
            best = o;
        }
        if contains(list[i].0.as_str(), list[i].2.as_str()) {
            leaks = leaks + 1;
        }
        proof {
            reveal(Seq::filter);
            assert(next.drop_last() =~= seen);
            assert(next.last() == stem);
            assert forall|k: int| 0 <= k < next.len() implies best.bounds(
                (#[trigger] next[k]).probe,
                next[k].card,
            ) by {
                if k < i {
                    assert(next[k] == seen[k]);
                    if best == o {
                        lemma_bounds_chain(o, best_before, seen[k].probe, seen[k].card);
                    }
                } else {
                    assert(next[k] == stem);
                }
            }
            if best == o {
                assert(best.between(next[i as int].probe, next[i as int].card));
            } else if !best.nothing() {
                let k = choose|k: int|
                    0 <= k < seen.len() && best.between((#[trigger] seen[k]).probe, seen[k].card);
                assert(best.between(next[k].probe, next[k].card));
            }
        }
    }
    proof {
        assert(all.take(all.len() as int) =~= all);
    }
    (leaks, best)
}

/// Measures normalized texts: probes that are not held back against held-back
/// cards and probes, and every stem in itself.
pub fn measure_leakage(
    probes: &Vec<String>,
    cards: &Vec<String>,
    others: &Vec<String>,
    all: &Vec<(String, String, String)>,
) -> (report: LeakageReport)
    requires
        probes@.len() * (cards@.len() + others@.len()) <= usize::MAX,
    ensures
        report.measures(texts(probes@), texts(cards@), texts(others@), stem_views(all@)),
{
    proof {
        let (p, c, o) = (probes@.len() as int, cards@.len() as int, others@.len() as int);
        assert(texts(probes@).len() == p && texts(cards@).len() == c && texts(others@).len() == o);
        assert(p * (c + o) == p * c + p * o) by (nonlinear_arith);
        assert(p * c >= 0 && p * o >= 0) by (nonlinear_arith)
            requires
                p >= 0,
                c >= 0,
                o >= 0,
        ;
    }
    let exact = count_exact(probes, cards, others);
    let vs_cards = compare(probes, cards);
    let vs_probes = compare(probes, others);
    let own = check_stems(all);
    LeakageReport {
        pairs_checked: probes.len() * cards.len() + probes.len() * others.len(),
        exact_duplicates: exact,
        near_dup_vs_heldback_cards: vs_cards.0,
        max_overlap_vs_heldback_cards: vs_cards.1,
        near_dup_vs_heldback_probes: vs_probes.0,
        max_overlap_vs_heldback_probes: vs_probes.1,
        max_overlap_with_own_card: own.1,
        probes_containing_own_answer: own.0,
        passed: exact == 0 && vs_cards.0 == 0 && own.0 == 0,
    }
}

/// Checks the probe texts that are stored against the held-back items, and each
/// probe against its own card.
pub fn leakage_check(corpus: &Vec<CorpusCard>, heldback: &[bool]) -> (report: LeakageReport)
    requires
        forall|i: int|
            0 <= i < corpus@.len() && (#[trigger] corpus@[i]).probes@.len() > 0 ==> i
                < heldback@.len(),
        pair_count(corpus@, heldback@) <= usize::MAX,
    ensures
        report.describes(corpus@, heldback@),
{
    let cards = collect_cards(corpus, heldback);
    let others = collect_probes(corpus, heldback, true);
    let probes = collect_probes(corpus, heldback, false);
    let all = collect_stems(corpus);
    proof {
        lemma_counts(corpus@, heldback@);
        assert(texts(probes@).len() == probes@.len());
        assert(texts(cards@).len() == cards@.len());
        assert(texts(others@).len() == others@.len());
    }
    measure_leakage(&probes, &cards, &others, &all)
}

proof fn lemma_filter_is_empty<A>(s: Seq<A>, pred: spec_fn(A) -> bool)
    ensures
        (s.filter(pred).len() == 0) == (forall|i: int| 0 <= i < s.len() ==> !pred(#[trigger] s[i])),
    decreases s.len(),
{
    reveal(Seq::filter);
    if s.len() > 0 {
        let front = s.drop_last();
        lemma_filter_is_empty(front, pred);
        if forall|i: int| 0 <= i < s.len() ==> !pred(#[trigger] s[i]) {
            assert forall|i: int| 0 <= i < front.len() implies !pred(#[trigger] front[i]) by {
                assert(front[i] == s[i]);
            }
            assert(!pred(s[s.len() - 1]));
        } else {
            let i = choose|i: int| 0 <= i < s.len() && pred(#[trigger] s[i]);
            if i < front.len() {
                assert(pred(front[i]));
            }
        }
    }
}

pub(crate) proof fn lemma_no_near_pair(probes: Seq<Seq<char>>, items: Seq<Seq<char>>)
    ensures
        (near_count(probes, items) == 0) == (forall|i: int, j: int|
            #![trigger probes[i], items[j]]
            0 <= i < probes.len() && 0 <= j < items.len() ==> !near_duplicate(probes[i], items[j])),
    decreases probes.len(),
{
    if probes.len() > 0 {
        let front = probes.drop_last();
        let p = probes.last();
        lemma_no_near_pair(front, items);
        lemma_filter_is_empty(items, |t: Seq<char>| near_duplicate(p, t));
        if near_count(probes, items) == 0 {
            assert forall|i: int, j: int|
                #![trigger probes[i], items[j]]
                0 <= i < probes.len() && 0 <= j < items.len() implies !near_duplicate(
                probes[i],
                items[j],
            ) by {
                if i < front.len() {
                    assert(!near_duplicate(front[i], items[j]));
                } else {
                    assert(!near_duplicate(p, items[j]));
                }
            }
        } else if near_items(p, items) > 0 {
            let j = choose|j: int| 0 <= j < items.len() && near_duplicate(p, #[trigger] items[j]);
            assert(near_duplicate(probes[probes.len() - 1], items[j]));
        } else {
            let (i, j) = choose|i: int, j: int|
                #![trigger front[i], items[j]]
                0 <= i < front.len() && 0 <= j < items.len() && near_duplicate(front[i], items[j]);
            assert(near_duplicate(probes[i], items[j]));
        }
    }
}

/// The check passes exactly when no probe of a card that is not held back is, to
/// the letter, a held-back card or probe question, none comes near a held-back
/// card question, and no probe question holds its own answer.
pub proof fn passing_means_no_leak(corpus: Seq<CorpusCard>, heldback: Seq<bool>)
    ensures
        leakage_passes(corpus, heldback) == ({
            let probes = split_probes(corpus, heldback, false);
            let cards = held_cards(corpus, heldback);
            let items = cards + split_probes(corpus, heldback, true);
            let all = stems(corpus);
            &&& forall|i: int| 0 <= i < probes.len() ==> !items.contains(#[trigger] probes[i])
            &&& forall|i: int, j: int|
                #![trigger probes[i], cards[j]]
                0 <= i < probes.len() && 0 <= j < cards.len() ==> !near_duplicate(
                    probes[i],
                    cards[j],
                )
            &&& forall|i: int|
                0 <= i < all.len() ==> !occurs_in((#[trigger] all[i]).answer, all[i].probe)
        }),
{
    let probes = split_probes(corpus, heldback, false);
    let cards = held_cards(corpus, heldback);
    let items = cards + split_probes(corpus, heldback, true);
    let all = stems(corpus);
    lemma_filter_is_empty(probes, |p: Seq<char>| items.contains(p));
    lemma_no_near_pair(probes, cards);
    let leaky = |s: Stem| occurs_in(s.answer, s.probe);
    lemma_filter_is_empty(all, leaky);
    if leak_count(all) == 0 {
        assert forall|i: int| 0 <= i < all.len() implies !occurs_in(
            (#[trigger] all[i]).answer,
            all[i].probe,
        ) by {
            assert(!leaky(all[i]));
        }
    }
}

/// The probe `j` of card `i` is among the probes of its side of the split.
pub(crate) proof fn lemma_probe_is_listed(
    corpus: Seq<CorpusCard>,
    heldback: Seq<bool>,
    i: int,
    j: int,
)
    requires
        0 <= i < corpus.len(),
        0 <= j < corpus[i].probes@.len(),
    ensures
        split_probes(corpus, heldback, is_held(heldback, i)).contains(
            normalized(corpus[i].probes@[j].0@),
        ),
    decreases corpus.len(),
{
    let held = is_held(heldback, i);
    let text = normalized(corpus[i].probes@[j].0@);
    let front = split_probes(corpus.drop_last(), heldback, held);
    let whole = split_probes(corpus, heldback, held);
    if i < corpus.len() - 1 {
        assert(corpus.drop_last()[i] == corpus[i]);
        lemma_probe_is_listed(corpus.drop_last(), heldback, i, j);
        let k = choose|k: int| 0 <= k < front.len() && front[k] == text;
        assert(whole[k] == text);
    } else {
        assert(probe_texts(corpus.last())[j] == text);
        assert(whole[front.len() + j] == text);
    }
}

pub(crate) proof fn lemma_card_is_listed(corpus: Seq<CorpusCard>, heldback: Seq<bool>, i: int)
    requires
        0 <= i < corpus.len(),
        is_held(heldback, i),
    ensures
        held_cards(corpus, heldback).contains(normalized(corpus[i].card_q@)),
    decreases corpus.len(),
{
    let text = normalized(corpus[i].card_q@);
    let front = held_cards(corpus.drop_last(), heldback);
    let whole = held_cards(corpus, heldback);
    if i < corpus.len() - 1 {
        assert(corpus.drop_last()[i] == corpus[i]);
        lemma_card_is_listed(corpus.drop_last(), heldback, i);
        let k = choose|k: int| 0 <= k < front.len() && front[k] == text;
        assert(whole[k] == text);
    } else {
        assert(whole[front.len() as int] == text);
    }
}

/// A probe that is not held back and reads, once normalized, like a held-back
/// card or like one of its probes is counted, and the check fails.
pub proof fn a_planted_duplicate_is_flagged(
    corpus: Seq<CorpusCard>,
    heldback: Seq<bool>,
    i: int,
    j: int,
    k: int,
)
    requires
        0 <= i < corpus.len(),
        0 <= j < corpus[i].probes@.len(),
        !is_held(heldback, i),
        0 <= k < corpus.len(),
        is_held(heldback, k),
        normalized(corpus[k].card_q@) == normalized(corpus[i].probes@[j].0@) || (exists|m: int|
            0 <= m < corpus[k].probes@.len() && normalized((#[trigger] corpus[k].probes@[m]).0@)
                == normalized(corpus[i].probes@[j].0@)),
    ensures
        exact_count(
            split_probes(corpus, heldback, false),
            held_cards(corpus, heldback) + split_probes(corpus, heldback, true),
        ) >= 1,
        !leakage_passes(corpus, heldback),
{
    let text = normalized(corpus[i].probes@[j].0@);
    let probes = split_probes(corpus, heldback, false);
    let cards = held_cards(corpus, heldback);
    let others = split_probes(corpus, heldback, true);
    lemma_probe_is_listed(corpus, heldback, i, j);
    if normalized(corpus[k].card_q@) == text {
        lemma_card_is_listed(corpus, heldback, k);
    } else {
        let m = choose|m: int|
            0 <= m < corpus[k].probes@.len() && normalized((#[trigger] corpus[k].probes@[m]).0@)
                == text;
        lemma_probe_is_listed(corpus, heldback, k, m);
    }
    lemma_contains_either(cards, others, text);
    let n = choose|n: int| 0 <= n < probes.len() && probes[n] == text;
    assert((cards + others).contains(probes[n]));
    lemma_filter_is_empty(probes, |p: Seq<char>| (cards + others).contains(p));
}

/// A probe that repeats a held-back card question to the letter is also counted
/// as a near duplicate of a held-back card.
pub proof fn exact_card_duplicates_are_near(corpus: Seq<CorpusCard>, heldback: Seq<bool>, n: int)
    requires
        0 <= n < split_probes(corpus, heldback, false).len(),
        held_cards(corpus, heldback).contains(split_probes(corpus, heldback, false)[n]),
    ensures
        near_count(split_probes(corpus, heldback, false), held_cards(corpus, heldback)) >= 1,
{
    let probes = split_probes(corpus, heldback, false);
    let cards = held_cards(corpus, heldback);
    let j = choose|j: int| 0 <= j < cards.len() && cards[j] == probes[n];
    equal_texts_overlap_wholly(probes[n]);
    assert(near_duplicate(probes[n], cards[j]));
    lemma_no_near_pair(probes, cards);
}

/// The largest overlap is one fraction: two answers to `closest` are equal as
/// fractions.
pub proof fn closest_is_one_fraction(
    a: Overlap,
    b: Overlap,
    probes: Seq<Seq<char>>,
    items: Seq<Seq<char>>,
)
    requires
        closest(a, probes, items),
        closest(b, probes, items),
    ensures
        same_fraction(a, b),
{
    lemma_closest_at_most(a, b, probes, items);
    lemma_closest_at_most(b, a, probes, items);
}

proof fn lemma_closest_at_most(
    a: Overlap,
    b: Overlap,
    probes: Seq<Seq<char>>,
    items: Seq<Seq<char>>,
)
    requires
        closest(a, probes, items),
        closest(b, probes, items),
    ensures
        a.common * b.total <= b.common * a.total,
{
    if a.nothing() {
        assert(a.common * b.total == 0) by (nonlinear_arith)
            requires
                a.common == 0,
        ;
        assert(b.common * a.total >= 0) by (nonlinear_arith)
            requires
                b.common >= 0,
                a.total >= 0,
        ;
    } else {
        let (i, j) = choose|i: int, j: int|
            #![trigger probes[i], items[j]]
            0 <= i < probes.len() && 0 <= j < items.len() && a.between(probes[i], items[j]);
        assert(b.bounds(probes[i], items[j]));
    }
}

/// The same for the overlap of probes with their own cards.
pub proof fn closest_own_is_one_fraction(a: Overlap, b: Overlap, all: Seq<Stem>)
    requires
        closest_own(a, all),
        closest_own(b, all),
    ensures
        same_fraction(a, b),
{
    lemma_closest_own_at_most(a, b, all);
    lemma_closest_own_at_most(b, a, all);
}

proof fn lemma_closest_own_at_most(a: Overlap, b: Overlap, all: Seq<Stem>)
    requires
        closest_own(a, all),
        closest_own(b, all),
    ensures
        a.common * b.total <= b.common * a.total,
{
    if a.nothing() {
        assert(a.common * b.total == 0) by (nonlinear_arith)
            requires
                a.common == 0,
        ;
        assert(b.common * a.total >= 0) by (nonlinear_arith)
            requires
                b.common >= 0,
                a.total >= 0,
        ;
    } else {
        let i = choose|i: int|
            0 <= i < all.len() && a.between((#[trigger] all[i]).probe, all[i].card);
        assert(b.bounds(all[i].probe, all[i].card));
    }
}

} // verus!
